//! The round trip: text the printer lays out on single lines parses back to
//! exactly the trees it was rendered from.

use crate::parser::atom_end;
use crate::parser::is_atom_char;
use crate::parser::is_open_char;
use crate::parser::is_space_char;
use crate::parser::lemma_atom_end_embed;
use crate::parser::lemma_string_end_embed;
use crate::parser::parsed_wf;
use crate::parser::skip_from;
use crate::parser::spec_parse_atom;
use crate::parser::spec_parse_file;
use crate::parser::spec_parse_list;
use crate::parser::spec_parse_rest;
use crate::parser::spec_parse_seq;
use crate::parser::spec_parse_sexp;
use crate::parser::spec_skip;
use crate::parser::string_end;
use crate::parser::style_of_open;
use crate::printer::lemma_fits_renders_monoline;
use crate::printer::mono_text;
use crate::printer::mono_text_items;
use crate::printer::mono_width;
use crate::printer::spec_render_forms;
use crate::sexp::close_char;
use crate::sexp::open_char;
use crate::sexp::SExpV;
use vstd::prelude::*;

verus! {

/// The single-line texts of the trees from `k` on, joined by `sep`, read
/// front-first.
pub open spec fn join_from(ts: Seq<SExpV>, k: int, sep: char) -> Seq<char>
    decreases ts.len() - k,
{
    if k < 0 || k >= ts.len() {
        Seq::empty()
    } else if k == ts.len() - 1 {
        mono_text(ts[k])
    } else {
        mono_text(ts[k]) + seq![sep] + join_from(ts, k + 1, sep)
    }
}

/// The same join read back-first, as the printer builds it.
pub open spec fn join_back(ts: Seq<SExpV>, n: int, sep: char) -> Seq<char>
    decreases n,
{
    if n <= 0 || n > ts.len() {
        Seq::empty()
    } else if n == 1 {
        mono_text(ts[0])
    } else {
        join_back(ts, n - 1, sep) + seq![sep] + mono_text(ts[n - 1])
    }
}

/// Splitting the back-first join after `k` trees.
proof fn lemma_join_decomp(ts: Seq<SExpV>, k: int, sep: char)
    requires
        1 <= k <= ts.len(),
    ensures
        join_back(ts, ts.len() as int, sep) == join_back(ts, k, sep) + (if k < ts.len() {
            seq![sep] + join_from(ts, k, sep)
        } else {
            Seq::empty()
        }),
    decreases ts.len() - k,
{
    if k == ts.len() {
        assert(join_back(ts, k, sep) + Seq::<char>::empty() =~= join_back(ts, k, sep));
    } else {
        lemma_join_decomp(ts, k + 1, sep);
        if k + 1 < ts.len() {
            assert(join_back(ts, k, sep) + (seq![sep] + join_from(ts, k, sep)) =~= (join_back(
                ts,
                k,
                sep,
            ) + seq![sep] + mono_text(ts[k])) + (seq![sep] + join_from(ts, k + 1, sep)));
        } else {
            assert(join_back(ts, k, sep) + (seq![sep] + join_from(ts, k, sep)) =~= (join_back(
                ts,
                k,
                sep,
            ) + seq![sep] + mono_text(ts[k])) + Seq::<char>::empty());
        }
    }
}

/// The two joins agree.
proof fn lemma_join_eq(ts: Seq<SExpV>, sep: char)
    ensures
        join_back(ts, ts.len() as int, sep) == join_from(ts, 0, sep),
{
    if ts.len() == 0 {
    } else if ts.len() == 1 {
    } else {
        lemma_join_decomp(ts, 1, sep);
        assert(join_back(ts, 1, sep) + (seq![sep] + join_from(ts, 1, sep)) =~= join_from(
            ts,
            0,
            sep,
        ));
    }
}

/// A list's space-separated element block is the generic join.
proof fn lemma_items_is_join(es: Seq<SExpV>, n: int)
    ensures
        mono_text_items(es, n) == join_back(es, n, ' '),
    decreases n,
{
    if 0 < n <= es.len() {
        lemma_items_is_join(es, n - 1);
    }
}

/// The first character of a well-formed tree's single-line text: an opening
/// bracket, a quote, or a bare-atom character — never anything skippable.
proof fn lemma_mono_first(v: SExpV)
    requires
        parsed_wf(v),
    ensures
        mono_text(v).len() >= 1,
        is_open_char(mono_text(v)[0]) || mono_text(v)[0] == '"' || is_atom_char(mono_text(v)[0]),
        !is_space_char(mono_text(v)[0]),
        mono_text(v)[0] != ';',
{
    match v {
        SExpV::Atom(t) => {
            if t.len() >= 1 && (forall|i: int| 0 <= i < t.len() ==> is_atom_char(#[trigger] t[i]))
             {
                assert(is_atom_char(t[0]));
            }
        },
        SExpV::List(es, st) => {
            assert(mono_text(v)[0] == open_char(st));
        },
        SExpV::Null(st) => {
            assert(mono_text(v)[0] == open_char(st));
        },
    }
}

/// No form may continue at `j`: the parser must stop there.
pub open spec fn stopper_at(s: Seq<char>, j: int) -> bool {
    j == s.len() || (!is_space_char(s[j]) && s[j] != ';' && !is_atom_char(s[j]) && s[j] != '"'
        && !is_open_char(s[j]))
}

/// An atom may not continue at `j`.
pub open spec fn boundary_at(s: Seq<char>, j: int) -> bool {
    j == s.len() || !is_atom_char(s[j])
}

/// The separator and the trees from `k` on, as laid out after tree `k - 1`.
pub open spec fn tail_text(ts: Seq<SExpV>, k: int, sep: char) -> Seq<char> {
    if k >= ts.len() {
        Seq::empty()
    } else {
        seq![sep] + join_from(ts, k, sep)
    }
}

/// Parsing a well-formed tree's single-line text embedded in `s` yields
/// exactly that tree and stops exactly at its end.
proof fn lemma_parse_mono(v: SExpV, s: Seq<char>, i: int)
    requires
        parsed_wf(v),
        0 <= i,
        i + mono_text(v).len() <= s.len(),
        s.subrange(i, i + mono_text(v).len()) == mono_text(v),
        boundary_at(s, i + mono_text(v).len()),
    ensures
        spec_parse_sexp(s, i) == Some((v, i + mono_text(v).len())),
    decreases v, 0int,
{
    let t = mono_text(v);
    let w = t.len() as int;
    assert forall|k: int| 0 <= k < w implies s[i + k] == t[k] by {
        assert(s.subrange(i, i + w)[k] == s[i + k]);
    };
    match v {
        SExpV::Atom(a) => {
            assert(t == a);
            assert(s[i + 0] == t[0]);
            assert(s[i] == a[0]);
            if a.len() >= 1 && (forall|k: int| 0 <= k < a.len() ==> is_atom_char(#[trigger] a[k]))
             {
                assert(is_atom_char(a[0]));
                assert(!is_open_char(s[i]));
                assert(spec_parse_list(s, i) is None);
                assert forall|k: int| i <= k < i + w implies is_atom_char(#[trigger] s[k]) by {
                    assert(s[i + (k - i)] == t[k - i]);
                    assert(s[k] == a[k - i]);
                };
                lemma_atom_end_embed(s, i, i + w);
                assert(s.subrange(i, atom_end(s, i)) =~= a);
            } else {
                assert(a.len() >= 2 && a[0] == '"' && string_end(a, 1) == Some(a.len() - 1));
                assert(s[i] == '"');
                assert(!is_open_char(s[i]));
                assert(spec_parse_list(s, i) is None);
                assert(!is_atom_char(s[i]));
                lemma_string_end_embed(a, s, i, 1);
                assert(string_end(s, i + 1) == Some(i + w - 1));
                assert(s.subrange(i, i + w - 1 + 1) =~= a);
            }
        },
        SExpV::Null(st) => {
            assert(s[i + 0] == t[0]);
            assert(s[i + 1] == t[1]);
            assert(s[i] == open_char(st));
            assert(s[i + 1] == close_char(st));
            assert(style_of_open(s[i]) == st);
            assert(skip_from(s, i + 1) == i + 1);
            assert(spec_parse_sexp(s, i + 1) is None);
            assert(spec_parse_seq(s, i + 1) is None);
            assert(spec_parse_list(s, i) == Some((v, i + 2)));
        },
        SExpV::List(es, st) => {
            let inner = mono_text_items(es, es.len() as int);
            lemma_items_is_join(es, es.len() as int);
            lemma_join_eq(es, ' ');
            assert(inner == join_from(es, 0, ' '));
            assert(t == seq![open_char(st)] + inner + seq![close_char(st)]);
            assert(t.len() == 2 + inner.len());
            assert(s[i + 0] == t[0]);
            assert(t[0] == open_char(st));
            assert(s[i] == open_char(st));
            assert(style_of_open(s[i]) == st);
            assert(t[1 + inner.len() as int] == close_char(st));
            assert(s[i + (1 + inner.len() as int)] == t[1 + inner.len() as int]);
            assert(s[i + 1 + inner.len()] == close_char(st));

            // The first element's own text and boundary.
            let t0 = mono_text(es[0]);
            lemma_mono_first(es[0]);
            assert forall|k: int| 0 <= k < inner.len() implies s[i + 1 + k] == inner[k] by {
                assert(s[i + (1 + k)] == t[1 + k]);
                assert(t[1 + k] == inner[k]);
            };
            let tail = tail_text(es, 1, ' ');
            if es.len() == 1 {
                assert(inner =~= t0);
                assert(tail =~= Seq::<char>::empty());
            } else {
                assert(inner =~= t0 + (seq![' '] + join_from(es, 1, ' ')));
                assert(tail =~= seq![' '] + join_from(es, 1, ' '));
                assert(inner =~= t0 + tail);
            }
            assert(inner.len() == t0.len() + tail.len());
            assert forall|m: int| 0 <= m < t0.len() implies s.subrange(
                i + 1,
                i + 1 + t0.len() as int,
            )[m] == t0[m] by {
                assert(s[i + 1 + m] == inner[m]);
            };
            assert(s.subrange(i + 1, i + 1 + t0.len() as int) =~= t0);
            let e0 = i + 1 + t0.len();
            let jend = i + 1 + inner.len();
            if es.len() == 1 {
                assert(e0 == jend);
                assert(s[e0] == close_char(st));
            } else {
                assert(s[i + 1 + (t0.len() as int)] == inner[t0.len() as int]);
                assert(inner[t0.len() as int] == tail[0]);
                assert(s[e0] == ' ');
            }
            assert(boundary_at(s, e0));
            lemma_parse_mono(es[0], s, i + 1);

            // No skipping before the first element.
            assert(s[i + 1 + 0] == inner[0]);
            assert(inner[0] == t0[0]);
            assert(s[i + 1] == t0[0]);
            assert(spec_skip(s, i + 1) == i + 1);
            assert(skip_from(s, i + 1) == i + 1);

            // The remaining elements, one separator before each.
            assert forall|m: int| 0 <= m < tail.len() implies s.subrange(
                e0,
                e0 + tail.len() as int,
            )[m] == tail[m] by {
                assert(s[i + 1 + (t0.len() + m)] == inner[t0.len() + m]);
                assert(inner[t0.len() + m] == tail[m]);
            };
            assert(s.subrange(e0, e0 + tail.len() as int) =~= tail);
            assert(e0 + tail.len() == jend);
            assert(s[jend] == close_char(st));
            assert(stopper_at(s, jend));
            lemma_parse_join(s, es, 1, e0, seq![es[0]], ' ');
            assert(seq![es[0]] + es.skip(1) =~= es);
            assert(spec_parse_seq(s, i + 1) == Some((es, jend)));
            assert(spec_parse_list(s, i) == Some((v, jend + 1)));
            assert(jend + 1 == i + w);
        },
    }
}

/// Parsing resumes after tree `k - 1`: one separator, then each remaining
/// tree in order, stopping exactly where the join ends.
proof fn lemma_parse_join(
    s: Seq<char>,
    ts: Seq<SExpV>,
    k: int,
    j: int,
    acc: Seq<SExpV>,
    sep: char,
)
    requires
        0 <= k <= ts.len(),
        forall|m: int| 0 <= m < ts.len() ==> parsed_wf(#[trigger] ts[m]),
        is_space_char(sep),
        sep != ';',
        0 <= j,
        j + tail_text(ts, k, sep).len() <= s.len(),
        s.subrange(j, j + tail_text(ts, k, sep).len()) == tail_text(ts, k, sep),
        stopper_at(s, j + tail_text(ts, k, sep).len()),
    ensures
        spec_parse_rest(s, j, acc) == (acc + ts.skip(k), j + tail_text(ts, k, sep).len()),
    decreases ts, ts.len() - k,
{
    let tl = tail_text(ts, k, sep);
    assert forall|m: int| 0 <= m < tl.len() implies s[j + m] == tl[m] by {
        assert(s.subrange(j, j + tl.len())[m] == s[j + m]);
    };
    if k == ts.len() {
        // Nothing follows: skipping stays put and no form parses.
        assert(stopper_at(s, j));
        assert(spec_skip(s, j) == j);
        assert(skip_from(s, j) == j);
        assert(spec_parse_list(s, j) is None);
        assert(spec_parse_atom(s, j) is None);
        assert(spec_parse_sexp(s, j) is None);
        assert(acc + ts.skip(k) =~= acc);
        assert(spec_parse_rest(s, j, acc) == (acc, j));
    } else {
        let tk = mono_text(ts[k]);
        lemma_mono_first(ts[k]);
        if k == ts.len() - 1 {
            assert(tl =~= seq![sep] + tk);
        } else {
            assert(tl =~= seq![sep] + tk + seq![sep] + join_from(ts, k + 1, sep));
        }
        assert(s[j + 0] == tl[0]);
        assert(tl[0] == sep);
        assert(s[j] == sep);
        assert(s[j + 1] == tl[1]);
        assert(tl[1] == tk[0]);
        assert(s[j + 1] == tk[0]);
        let tail2 = tail_text(ts, k + 1, sep);
        if k == ts.len() - 1 {
            assert(tail2 =~= Seq::<char>::empty());
            assert(tl =~= seq![sep] + (tk + tail2));
        } else {
            assert(tail2 =~= seq![sep] + join_from(ts, k + 1, sep));
            assert(tl =~= seq![sep] + (tk + tail2));
        }
        assert(tl.len() == 1 + tk.len() + tail2.len());
        // Skipping consumes the one separator and stops at the element.
        assert(spec_skip(s, j + 1) == j + 1);
        assert(spec_skip(s, j) == j + 1);
        assert(skip_from(s, j) == j + 1);
        assert forall|m: int| 0 <= m < tk.len() implies s.subrange(
            j + 1,
            j + 1 + tk.len() as int,
        )[m] == tk[m] by {
            assert(s[j + (1 + m)] == tl[1 + m]);
            assert(tl[1 + m] == (tk + tail2)[m]);
        };
        assert(s.subrange(j + 1, j + 1 + tk.len() as int) =~= tk);
        let ek = j + 1 + tk.len();
        if k == ts.len() - 1 {
            assert(ek == j + tl.len());
            assert(boundary_at(s, ek));
        } else {
            assert(s[j + (1 + tk.len() as int)] == tl[1 + tk.len() as int]);
            assert(tl[1 + tk.len() as int] == (tk + tail2)[tk.len() as int]);
            assert(s[ek] == sep);
            assert(boundary_at(s, ek));
        }
        lemma_parse_mono(ts[k], s, j + 1);
        assert(spec_parse_sexp(s, j + 1) == Some((ts[k], ek)));
        assert forall|m: int| 0 <= m < tail2.len() implies s.subrange(
            ek,
            ek + tail2.len() as int,
        )[m] == tail2[m] by {
            assert(s[j + (1 + (tk.len() + m))] == tl[1 + (tk.len() + m)]);
            assert(tl[1 + (tk.len() + m)] == (tk + tail2)[tk.len() + m]);
        };
        assert(s.subrange(ek, ek + tail2.len() as int) =~= tail2);
        assert(ek + tail2.len() == j + tl.len());
        assert(stopper_at(s, ek + tail2.len()));
        lemma_parse_join(s, ts, k + 1, ek, acc.push(ts[k]), sep);
        assert(acc.push(ts[k]) + ts.skip(k + 1) =~= acc + ts.skip(k));
        assert(spec_parse_rest(s, j, acc) == spec_parse_rest(s, ek, acc.push(ts[k])));
    }
}

/// Round trip: rendering trees that each fit the margin on one line and
/// parsing the result gives back exactly the same trees, with nothing left
/// over.
pub proof fn lemma_render_parse_round_trip(ts: Seq<SExpV>, margin: int)
    requires
        forall|k: int| 0 <= k < ts.len() ==> parsed_wf(#[trigger] ts[k]),
        forall|k: int| 0 <= k < ts.len() ==> mono_width(#[trigger] ts[k]) <= margin,
    ensures
        spec_parse_file(spec_render_forms(ts, margin, ts.len() as int)) == (
            ts,
            spec_render_forms(ts, margin, ts.len() as int).len() as int,
        ),
{
    lemma_forms_is_join(ts, ts.len() as int, margin);
    lemma_join_eq(ts, '\n');
    let s = spec_render_forms(ts, margin, ts.len() as int);
    assert(s == join_from(ts, 0, '\n'));
    if ts.len() == 0 {
        assert(s =~= Seq::<char>::empty());
        assert(spec_skip(s, 0) == 0);
        assert(skip_from(s, 0) == 0);
        assert(spec_parse_sexp(s, 0) is None);
        assert(spec_parse_rest(s, 0, Seq::empty()) == (Seq::<SExpV>::empty(), 0int));
        assert(Seq::<SExpV>::empty() =~= ts);
    } else {
        let t0 = mono_text(ts[0]);
        lemma_mono_first(ts[0]);
        if ts.len() == 1 {
            assert(s =~= t0);
        } else {
            assert(s =~= t0 + seq!['\n'] + join_from(ts, 1, '\n'));
        }
        assert(s.subrange(0, t0.len() as int) =~= t0);
        let e0 = t0.len() as int;
        if ts.len() == 1 {
            assert(boundary_at(s, e0));
        } else {
            assert(s[e0] == '\n');
            assert(boundary_at(s, e0));
        }
        lemma_parse_mono(ts[0], s, 0);
        assert(s[0] == t0[0]);
        assert(spec_skip(s, 0) == 0);
        assert(skip_from(s, 0) == 0);
        assert(s.subrange(e0, e0 + tail_text(ts, 1, '\n').len()) =~= tail_text(ts, 1, '\n'));
        assert(e0 + tail_text(ts, 1, '\n').len() == s.len());
        assert(stopper_at(s, s.len() as int));
        lemma_parse_join(s, ts, 1, e0, seq![ts[0]], '\n');
        assert(seq![ts[0]] + ts.skip(1) =~= ts);
        assert(spec_parse_rest(s, 0, Seq::empty()) == spec_parse_rest(s, e0, seq![ts[0]]));
    }
}

/// Under the fitting hypothesis the printed forms are the single-line texts
/// joined by newlines.
proof fn lemma_forms_is_join(ts: Seq<SExpV>, n: int, margin: int)
    requires
        forall|k: int| 0 <= k < ts.len() ==> mono_width(#[trigger] ts[k]) <= margin,
    ensures
        spec_render_forms(ts, margin, n) == join_back(ts, n, '\n'),
    decreases n,
{
    if 0 < n <= ts.len() {
        lemma_forms_is_join(ts, n - 1, margin);
        lemma_fits_renders_monoline(ts[n - 1], Some(margin), 0);
    }
}

} // verus!
