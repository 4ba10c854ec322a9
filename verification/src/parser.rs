//! Recursive-descent parser for s-expression forms.
//!
//! The grammar, informally: a file is a sequence of forms with whitespace and
//! line comments (`;` to end of line) freely interleaved; a form is a list
//! delimited by one of three bracket kinds or an atom; an atom is a bare run
//! of non-delimiter characters or a double-quoted string in which `\"` is
//! recognized as a unit. The whole grammar is stated as spec functions over
//! the input's characters, and every executable function is proved to agree
//! with them.

use crate::error::Loc;
use crate::error::SexpfmtError;
use crate::sexp::close_char;
use crate::sexp::views_of;
use crate::sexp::SExp;
use crate::sexp::SExpBookendStyle;
use crate::sexp::SExpV;
use vstd::prelude::*;
use vstd::string::StrSliceExecFns;
use vstd::string::StringExecFns;

verus! {

/// Whitespace between forms.
pub open spec fn is_space_char(c: char) -> bool {
    c == ' ' || c == '\t' || c == '\r' || c == '\n'
}

/// A character that may stand in a bare (unquoted) atom: anything but
/// whitespace, the six bracket characters, the double quote and the comment
/// character.
pub open spec fn is_atom_char(c: char) -> bool {
    !(c == '"' || c == '\n' || c == '\r' || c == '\t' || c == ' ' || c == '(' || c == ')' || c
        == '[' || c == ']' || c == '{' || c == '}' || c == ';')
}

/// An opening bracket of any style.
pub open spec fn is_open_char(c: char) -> bool {
    c == '(' || c == '[' || c == '{'
}

/// The style an opening bracket announces.
pub open spec fn style_of_open(c: char) -> SExpBookendStyle {
    if c == '(' {
        SExpBookendStyle::Parentheses
    } else if c == '[' {
        SExpBookendStyle::SquareBrackets
    } else {
        SExpBookendStyle::CurlyBraces
    }
}

/// Index just past the maximal run of whitespace and comments starting at `i`.
pub open spec fn spec_skip(s: Seq<char>, i: int) -> int
    decreases s.len() - i, 0int,
{
    if i < 0 || i >= s.len() {
        i
    } else if is_space_char(s[i]) {
        spec_skip(s, i + 1)
    } else if s[i] == ';' {
        spec_skip_comment(s, i + 1)
    } else {
        i
    }
}

/// Index just past the rest of a line comment (and any skipping after it).
pub open spec fn spec_skip_comment(s: Seq<char>, i: int) -> int
    decreases s.len() - i, 1int,
{
    if i < 0 || i >= s.len() {
        i
    } else if s[i] == '\n' || s[i] == '\r' {
        spec_skip(s, i)
    } else {
        spec_skip_comment(s, i + 1)
    }
}

/// `spec_skip`, clamped to the range between `i` and the input's length; used
/// so that the parsing functions below visibly stay within the input. The
/// clamps never bind (see `lemma_spec_skip`).
pub open spec fn skip_from(s: Seq<char>, i: int) -> int {
    let j = spec_skip(s, i);
    if i < 0 || i > s.len() {
        i
    } else if j < i {
        i
    } else if j > s.len() {
        s.len() as int
    } else {
        j
    }
}

pub proof fn lemma_spec_skip(s: Seq<char>, i: int)
    requires
        0 <= i <= s.len(),
    ensures
        i <= spec_skip(s, i) <= s.len(),
        skip_from(s, i) == spec_skip(s, i),
    decreases s.len() - i, 0int,
{
    if i < s.len() {
        if is_space_char(s[i]) {
            lemma_spec_skip(s, i + 1);
        } else if s[i] == ';' {
            lemma_spec_skip_comment(s, i + 1);
        }
    }
}

pub proof fn lemma_spec_skip_comment(s: Seq<char>, i: int)
    requires
        0 <= i <= s.len(),
    ensures
        i <= spec_skip_comment(s, i) <= s.len(),
    decreases s.len() - i, 1int,
{
    if i < s.len() {
        if s[i] == '\n' || s[i] == '\r' {
            lemma_spec_skip(s, i);
        } else {
            lemma_spec_skip_comment(s, i + 1);
        }
    }
}

/// Index just past the maximal run of bare-atom characters starting at `i`.
pub open spec fn atom_end(s: Seq<char>, i: int) -> int
    decreases s.len() - i,
{
    if 0 <= i < s.len() && is_atom_char(s[i]) {
        atom_end(s, i + 1)
    } else {
        i
    }
}

pub proof fn lemma_atom_end(s: Seq<char>, i: int)
    requires
        0 <= i <= s.len(),
    ensures
        i <= atom_end(s, i) <= s.len(),
    decreases s.len() - i,
{
    if 0 <= i < s.len() && is_atom_char(s[i]) {
        lemma_atom_end(s, i + 1);
    }
}

/// Scans a quoted string's body from `i`: the index of the closing quote, or
/// `None` if a line break or the end of input comes first. An escaped quote
/// `\"` is recognized as a unit and does not terminate the scan.
pub open spec fn string_end(s: Seq<char>, i: int) -> Option<int>
    decreases s.len() - i,
{
    if i < 0 || i >= s.len() {
        None
    } else if i + 1 < s.len() && s[i] == '\\' && s[i + 1] == '"' {
        string_end(s, i + 2)
    } else if s[i] == '"' {
        Some(i)
    } else if s[i] != '\n' && s[i] != '\r' {
        string_end(s, i + 1)
    } else {
        None
    }
}

pub proof fn lemma_string_end(s: Seq<char>, i: int)
    requires
        0 <= i <= s.len(),
    ensures
        string_end(s, i) matches Some(e) ==> i <= e < s.len() && s[e] == '"',
    decreases s.len() - i,
{
    if i < s.len() {
        if i + 1 < s.len() && s[i] == '\\' && s[i + 1] == '"' {
            lemma_string_end(s, i + 2);
        } else if s[i] == '"' {
        } else if s[i] != '\n' && s[i] != '\r' {
            lemma_string_end(s, i + 1);
        }
    }
}

/// One form: a list if an opening bracket stands at `i`, else an atom.
pub open spec fn spec_parse_sexp(s: Seq<char>, i: int) -> Option<(SExpV, int)>
    decreases s.len() - i, 3int,
{
    if spec_parse_list(s, i) is Some {
        spec_parse_list(s, i)
    } else {
        spec_parse_atom(s, i)
    }
}

/// A bracketed form. An empty pair of bookends is `Null`; otherwise the
/// bracket must close, in the same style, directly after the element
/// sequence.
pub open spec fn spec_parse_list(s: Seq<char>, i: int) -> Option<(SExpV, int)>
    decreases s.len() - i, 2int,
{
    if 0 <= i < s.len() && is_open_char(s[i]) {
        let st = style_of_open(s[i]);
        match spec_parse_seq(s, i + 1) {
            Some((es, j)) => if 0 <= j < s.len() && s[j] == close_char(st) {
                Some((SExpV::List(es, st), j + 1))
            } else {
                None
            },
            None => if i + 1 < s.len() && s[i + 1] == close_char(st) {
                Some((SExpV::Null(st), i + 2))
            } else {
                None
            },
        }
    } else {
        None
    }
}

/// One or more forms, each preceded by optional skipping, with one trailing
/// run of skipping consumed after the last.
pub open spec fn spec_parse_seq(s: Seq<char>, i: int) -> Option<(Seq<SExpV>, int)>
    decreases s.len() - i, 4int,
{
    let j = skip_from(s, i);
    match spec_parse_sexp(s, j) {
        None => None,
        Some((e, k)) => if i < k <= s.len() {
            Some(spec_parse_rest(s, k, seq![e]))
        } else {
            Some((seq![e], k))
        },
    }
}

/// Continues a form sequence from `i`: parses further forms while one follows
/// (after skipping), and otherwise stops just past the trailing skip run.
pub open spec fn spec_parse_rest(s: Seq<char>, i: int, acc: Seq<SExpV>) -> (Seq<SExpV>, int)
    decreases s.len() - i, 5int,
{
    let j = skip_from(s, i);
    match spec_parse_sexp(s, j) {
        None => (acc, j),
        Some((e, k)) => if i < k <= s.len() {
            spec_parse_rest(s, k, acc.push(e))
        } else {
            (acc.push(e), k)
        },
    }
}

/// A bare atom or a quoted-string atom. The atom's text is exactly the input
/// span it was read from, surrounding quotes and escape characters included.
pub open spec fn spec_parse_atom(s: Seq<char>, i: int) -> Option<(SExpV, int)> {
    if 0 <= i < s.len() && is_atom_char(s[i]) {
        let j = atom_end(s, i);
        Some((SExpV::Atom(s.subrange(i, j)), j))
    } else if 0 <= i < s.len() && s[i] == '"' {
        match string_end(s, i + 1) {
            Some(e) => Some((SExpV::Atom(s.subrange(i, e + 1)), e + 1)),
            None => None,
        }
    } else {
        None
    }
}

/// A whole input: every form it holds, in order, and the index the parse
/// stopped at (the input's length exactly when nothing is left over).
pub open spec fn spec_parse_file(s: Seq<char>) -> (Seq<SExpV>, int) {
    spec_parse_rest(s, 0, Seq::empty())
}

/// Text that can stand as one atom: a non-empty run of bare-atom characters,
/// or a quoted string whose body scans exactly to a closing quote at the
/// very end.
pub open spec fn atom_text_wf(t: Seq<char>) -> bool {
    (t.len() >= 1 && (forall|i: int| 0 <= i < t.len() ==> is_atom_char(#[trigger] t[i]))) || (
    t.len() >= 2 && t[0] == '"' && string_end(t, 1) == Some(t.len() - 1))
}

/// What holds of every tree the parser builds: lists are never empty, and
/// every atom's text is exactly an atom of the grammar.
pub open spec fn parsed_wf(v: SExpV) -> bool
    decreases v,
{
    match v {
        SExpV::Atom(t) => atom_text_wf(t),
        SExpV::List(es, _) => es.len() >= 1 && (forall|i: int|
            0 <= i < es.len() ==> parsed_wf(#[trigger] es[i])),
        SExpV::Null(_) => true,
    }
}

/// Every character of a bare-atom run is a bare-atom character.
pub proof fn lemma_atom_end_chars(s: Seq<char>, i: int)
    requires
        0 <= i <= s.len(),
    ensures
        forall|k: int| i <= k < atom_end(s, i) ==> is_atom_char(#[trigger] s[k]),
    decreases s.len() - i,
{
    if 0 <= i < s.len() && is_atom_char(s[i]) {
        lemma_atom_end_chars(s, i + 1);
    }
}

/// A scanned string body, cut out of its surrounding text, scans the same
/// way: the closing quote of `s` at `e` is the closing quote of
/// `s.subrange(d, e + 1)` at `e - d`.
pub proof fn lemma_string_end_extract(s: Seq<char>, j: int, d: int, e: int)
    requires
        0 <= d < j <= e < s.len(),
        string_end(s, j) == Some(e),
    ensures
        string_end(s.subrange(d, e + 1), j - d) == Some(e - d),
    decreases s.len() - j,
{
    lemma_string_end(s, j);
    let t = s.subrange(d, e + 1);
    if j + 1 < s.len() && s[j] == '\\' && s[j + 1] == '"' {
        lemma_string_end(s, j + 2);
        assert(t[j - d] == s[j]);
        assert(t[j - d + 1] == s[j + 1]);
        lemma_string_end_extract(s, j + 2, d, e);
    } else if s[j] == '"' {
        assert(t[j - d] == '"');
    } else {
        lemma_string_end(s, j + 1);
        assert(t[j - d] == s[j]);
        if j - d + 1 < t.len() {
            assert(t[j - d + 1] == s[j + 1]);
        }
        lemma_string_end_extract(s, j + 1, d, e);
    }
}

/// A run of bare-atom characters bounded by a non-atom character (or the
/// end) scans to exactly that bound.
pub proof fn lemma_atom_end_embed(s: Seq<char>, i: int, j: int)
    requires
        0 <= i <= j <= s.len(),
        forall|k: int| i <= k < j ==> is_atom_char(#[trigger] s[k]),
        j == s.len() || !is_atom_char(s[j]),
    ensures
        atom_end(s, i) == j,
    decreases j - i,
{
    if i < j {
        lemma_atom_end_embed(s, i + 1, j);
    }
}

/// A string body that scans to its final quote in isolation scans the same
/// way inside surrounding text.
pub proof fn lemma_string_end_embed(t: Seq<char>, s: Seq<char>, i: int, j: int)
    requires
        t.len() >= 2,
        1 <= j <= t.len() - 1,
        string_end(t, j) == Some(t.len() - 1),
        0 <= i,
        i + t.len() <= s.len(),
        s.subrange(i, i + t.len()) == t,
    ensures
        string_end(s, i + j) == Some(i + t.len() - 1),
    decreases t.len() - j,
{
    assert(s[i + j] == t[j]);
    if j + 1 < t.len() {
        assert(s[i + j + 1] == t[j + 1]);
    }
    lemma_string_end(t, j);
    if j + 1 < t.len() && t[j] == '\\' && t[j + 1] == '"' {
        lemma_string_end(t, j + 2);
        lemma_string_end_embed(t, s, i, j + 2);
    } else if t[j] == '"' {
        assert(j == t.len() - 1);
    } else {
        lemma_string_end(t, j + 1);
        lemma_string_end_embed(t, s, i, j + 1);
    }
}

/// A well-formed tree and the span it was parsed from: the tree is
/// well-formed and its nesting depth is bounded by half the span.
pub proof fn lemma_parse_sexp_wf(s: Seq<char>, i: int)
    requires
        0 <= i <= s.len(),
    ensures
        spec_parse_sexp(s, i) matches Some((v, j)) ==> i < j <= s.len() && parsed_wf(v) && 2
            * crate::sexp::sexp_height(v) <= j - i + 2,
    decreases s.len() - i, 3int,
{
    lemma_parse_list_wf(s, i);
    lemma_parse_atom_wf(s, i);
}

pub proof fn lemma_parse_list_wf(s: Seq<char>, i: int)
    requires
        0 <= i <= s.len(),
    ensures
        spec_parse_list(s, i) matches Some((v, j)) ==> i < j <= s.len() && parsed_wf(v) && 2
            * crate::sexp::sexp_height(v) <= j - i + 2,
    decreases s.len() - i, 2int,
{
    if 0 <= i < s.len() && is_open_char(s[i]) {
        lemma_parse_seq_wf(s, i + 1);
        let st = style_of_open(s[i]);
        match spec_parse_seq(s, i + 1) {
            Some((es, j)) => {
                if 0 <= j < s.len() && s[j] == close_char(st) {
                    let v = SExpV::List(es, st);
                    assert(crate::sexp::sexp_height(v) == 1 + crate::sexp::heights_max(
                        es,
                        es.len() as int,
                    ));
                    crate::sexp::lemma_heights_max_le(es, es.len() as int, j - (i + 1) + 2);
                }
            },
            None => {
            },
        }
    }
}

pub proof fn lemma_parse_atom_wf(s: Seq<char>, i: int)
    requires
        0 <= i <= s.len(),
    ensures
        spec_parse_atom(s, i) matches Some((v, j)) ==> i < j <= s.len() && parsed_wf(v) && 2
            * crate::sexp::sexp_height(v) <= j - i + 2,
{
    if 0 <= i < s.len() && is_atom_char(s[i]) {
        lemma_atom_end(s, i + 1);
        lemma_atom_end_chars(s, i);
        let j = atom_end(s, i);
        assert forall|k: int| 0 <= k < j - i implies is_atom_char(
            #[trigger] s.subrange(i, j)[k],
        ) by {
            assert(s.subrange(i, j)[k] == s[i + k]);
        };
    } else if 0 <= i < s.len() && s[i] == '"' {
        lemma_string_end(s, i + 1);
        match string_end(s, i + 1) {
            Some(e) => {
                lemma_string_end_extract(s, i + 1, i, e);
                let t = s.subrange(i, e + 1);
                assert(t[0] == '"');
                assert(atom_text_wf(t));
            },
            None => {
            },
        }
    }
}

/// Everything the element loop accumulates is well-formed and bounded.
pub proof fn lemma_parse_rest_wf(s: Seq<char>, i: int, acc: Seq<SExpV>)
    requires
        0 <= i <= s.len(),
    ensures
        ({
            let (es, j) = spec_parse_rest(s, i, acc);
            &&& i <= j <= s.len()
            &&& acc.len() <= es.len()
            &&& forall|k: int| 0 <= k < acc.len() ==> es[k] == acc[k]
            &&& forall|k: int|
                acc.len() <= k < es.len() ==> parsed_wf(#[trigger] es[k]) && 2
                    * crate::sexp::sexp_height(es[k]) <= j - i + 2
        }),
    decreases s.len() - i, 5int,
{
    let j0 = skip_from(s, i);
    lemma_spec_skip(s, i);
    lemma_parse_sexp_wf(s, j0);
    match spec_parse_sexp(s, j0) {
        None => {
        },
        Some((e, k)) => {
            if i < k <= s.len() {
                lemma_parse_rest_wf(s, k, acc.push(e));
            }
        },
    }
}

pub proof fn lemma_parse_seq_wf(s: Seq<char>, i: int)
    requires
        0 <= i <= s.len(),
    ensures
        spec_parse_seq(s, i) matches Some((es, j)) ==> i <= j <= s.len() && es.len() >= 1 && (
        forall|k: int|
            0 <= k < es.len() ==> parsed_wf(#[trigger] es[k]) && 2 * crate::sexp::sexp_height(
                es[k],
            ) <= j - i + 2),
    decreases s.len() - i, 4int,
{
    let j0 = skip_from(s, i);
    lemma_spec_skip(s, i);
    lemma_parse_sexp_wf(s, j0);
    match spec_parse_sexp(s, j0) {
        None => {
        },
        Some((e, k)) => {
            if i < k <= s.len() {
                lemma_parse_rest_wf(s, k, seq![e]);
            }
        },
    }
}

/// Everything `spec_parse_file` yields is well-formed — in particular no
/// `List` is ever empty — and shallow enough for the printer's indentation
/// arithmetic whenever the input leaves a few units of headroom in a
/// machine word.
pub proof fn lemma_parse_file_wf(s: Seq<char>)
    ensures
        ({
            let (es, j) = spec_parse_file(s);
            &&& 0 <= j <= s.len()
            &&& forall|k: int|
                0 <= k < es.len() ==> parsed_wf(#[trigger] es[k]) && crate::sexp::no_empty_lists(
                    es[k],
                ) && 2 * crate::sexp::sexp_height(es[k]) <= s.len() + 2
        }),
{
    lemma_parse_rest_wf(s, 0, Seq::empty());
    let (es, j) = spec_parse_file(s);
    assert forall|k: int| 0 <= k < es.len() implies crate::sexp::no_empty_lists(
        #[trigger] es[k],
    ) by {
        lemma_parsed_wf_no_empty(es[k]);
    };
}

/// Grammar well-formedness implies the printer's structural invariant.
pub proof fn lemma_parsed_wf_no_empty(v: SExpV)
    requires
        parsed_wf(v),
    ensures
        crate::sexp::no_empty_lists(v),
    decreases v,
{
    match v {
        SExpV::List(es, _) => {
            assert forall|i: int| 0 <= i < es.len() implies crate::sexp::no_empty_lists(
                #[trigger] es[i],
            ) by {
                lemma_parsed_wf_no_empty(es[i]);
            };
        },
        _ => {
        },
    }
}

/// The 1-based line number of position `i`: one more than the newlines
/// before it.
pub open spec fn line_at(s: Seq<char>, i: int) -> int
    decreases i,
{
    if i <= 0 {
        1
    } else {
        line_at(s, i - 1) + if s[i - 1] == '\n' {
            1int
        } else {
            0int
        }
    }
}

/// The 1-based column of position `i`: its distance from the last newline.
pub open spec fn col_at(s: Seq<char>, i: int) -> int
    decreases i,
{
    if i <= 0 {
        1
    } else if s[i - 1] == '\n' {
        1
    } else {
        col_at(s, i - 1) + 1
    }
}

/// Where a position inside an extracted form lands in the whole document,
/// per the translation rules of `Loc::in_form`.
pub open spec fn translated_loc(start: Loc, s: Seq<char>, i: int) -> Loc {
    Loc {
        offset: (start.offset + i) as usize,
        line: (start.line + line_at(s, i) - 1) as usize,
        column: (if line_at(s, i) == 1 {
            start.column + col_at(s, i) - 1
        } else {
            col_at(s, i)
        }) as usize,
    }
}

/// What `parse_form` returns on input `s` parsed relative to `start`: the
/// forms of `s` when the parse consumed everything, and otherwise a `Parse`
/// error naming the leftover text and its translated position.
pub open spec fn parse_form_spec(
    s: Seq<char>,
    start: Loc,
    r: Result<Vec<SExp>, SexpfmtError>,
) -> bool {
    let (trees, end) = spec_parse_file(s);
    match r {
        Ok(es) => end == s.len() && views_of(es) == trees,
        Err(e) => end < s.len() && (e matches SexpfmtError::Parse { message, position } && message@
            == "Unexpected input: '"@ + s.subrange(end, s.len() as int) + "'"@ && position
            == translated_loc(start, s, end)),
    }
}

fn is_atom_char_x(c: char) -> (r: bool)
    ensures
        r == is_atom_char(c),
{
    !(c == '"' || c == '\n' || c == '\r' || c == '\t' || c == ' ' || c == '(' || c == ')' || c
        == '[' || c == ']' || c == '{' || c == '}' || c == ';')
}

fn close_token(st: SExpBookendStyle) -> (c: char)
    ensures
        c == close_char(st),
{
    match st {
        SExpBookendStyle::Parentheses => ')',
        SExpBookendStyle::SquareBrackets => ']',
        SExpBookendStyle::CurlyBraces => '}',
    }
}

/// Consumes whitespace and line comments from `i` on.
fn skip_ws(s: &str, n: usize, i: usize) -> (r: usize)
    requires
        n == s@.len(),
        i <= n,
    ensures
        r as int == skip_from(s@, i as int),
        i <= r <= n,
{
    proof {
        lemma_spec_skip(s@, i as int);
    }
    let mut j: usize = i;
    let mut in_comment: bool = false;
    loop
        invariant
            n == s@.len(),
            i <= j <= n,
            !in_comment ==> spec_skip(s@, i as int) == spec_skip(s@, j as int),
            in_comment ==> spec_skip(s@, i as int) == spec_skip_comment(s@, j as int),
        decreases n - j,
    {
        if j >= n {
            proof {
                lemma_spec_skip(s@, i as int);
            }
            return j;
        }
        let c = s.get_char(j);
        if in_comment {
            if c == '\n' || c == '\r' {
                proof {
                    assert(spec_skip_comment(s@, j as int) == spec_skip(s@, j as int));
                    assert(spec_skip(s@, j as int) == spec_skip(s@, j as int + 1));
                }
                in_comment = false;
            }
            j = j + 1;
        } else {
            if c == ' ' || c == '\t' || c == '\r' || c == '\n' {
                j = j + 1;
            } else if c == ';' {
                in_comment = true;
                j = j + 1;
            } else {
                proof {
                    lemma_spec_skip(s@, i as int);
                }
                return j;
            }
        }
    }
}

/// Consumes the maximal run of bare-atom characters from `i` on.
fn scan_atom(s: &str, n: usize, i: usize) -> (r: usize)
    requires
        n == s@.len(),
        i <= n,
    ensures
        r as int == atom_end(s@, i as int),
        i <= r <= n,
{
    let mut j: usize = i;
    loop
        invariant
            n == s@.len(),
            i <= j <= n,
            atom_end(s@, i as int) == atom_end(s@, j as int),
        decreases n - j,
    {
        if j >= n {
            return j;
        }
        let c = s.get_char(j);
        if is_atom_char_x(c) {
            j = j + 1;
        } else {
            return j;
        }
    }
}

/// Scans a quoted string's body from `i`, returning the closing quote's index.
fn scan_string(s: &str, n: usize, i: usize) -> (r: Option<usize>)
    requires
        n == s@.len(),
        i <= n,
    ensures
        match r {
            Some(e) => string_end(s@, i as int) == Some(e as int) && i <= e < n,
            None => string_end(s@, i as int) is None,
        },
{
    let mut k: usize = i;
    loop
        invariant
            n == s@.len(),
            i <= k <= n,
            string_end(s@, i as int) == string_end(s@, k as int),
        decreases n - k,
    {
        if k >= n {
            return None;
        }
        let c = s.get_char(k);
        let esc: bool = if c == '\\' && k + 1 < n {
            s.get_char(k + 1) == '"'
        } else {
            false
        };
        if esc {
            k = k + 2;
        } else if c == '"' {
            proof {
                lemma_string_end(s@, i as int);
            }
            return Some(k);
        } else if c != '\n' && c != '\r' {
            k = k + 1;
        } else {
            return None;
        }
    }
}

/// One form, if one stands at `i`.
fn parse_sexp(s: &str, n: usize, i: usize) -> (r: Option<(SExp, usize)>)
    requires
        n == s@.len(),
        i <= n,
    ensures
        match r {
            Some((e, j)) => spec_parse_sexp(s@, i as int) == Some((e@, j as int)) && i < j <= n,
            None => spec_parse_sexp(s@, i as int) is None,
        },
    decreases s@.len() - i, 3int,
{
    match parse_list(s, n, i) {
        Some((e, j)) => Some((e, j)),
        None => parse_atom(s, n, i),
    }
}

/// A bracketed form, if an opening bracket stands at `i`.
fn parse_list(s: &str, n: usize, i: usize) -> (r: Option<(SExp, usize)>)
    requires
        n == s@.len(),
        i <= n,
    ensures
        match r {
            Some((e, j)) => spec_parse_list(s@, i as int) == Some((e@, j as int)) && i < j <= n,
            None => spec_parse_list(s@, i as int) is None,
        },
    decreases s@.len() - i, 2int,
{
    if i < n {
        let c = s.get_char(i);
        if c == '(' || c == '[' || c == '{' {
            let st = if c == '(' {
                SExpBookendStyle::Parentheses
            } else if c == '[' {
                SExpBookendStyle::SquareBrackets
            } else {
                SExpBookendStyle::CurlyBraces
            };
            match parse_seq(s, n, i + 1) {
                Some((es, j)) => {
                    if j < n && s.get_char(j) == close_token(st) {
                        Some((SExp::List(es, st), j + 1))
                    } else {
                        None
                    }
                },
                None => {
                    if i + 1 < n && s.get_char(i + 1) == close_token(st) {
                        Some((SExp::Null(st), i + 2))
                    } else {
                        None
                    }
                },
            }
        } else {
            None
        }
    } else {
        None
    }
}

/// A bare or quoted atom, if one stands at `i`.
fn parse_atom(s: &str, n: usize, i: usize) -> (r: Option<(SExp, usize)>)
    requires
        n == s@.len(),
        i <= n,
    ensures
        match r {
            Some((e, j)) => spec_parse_atom(s@, i as int) == Some((e@, j as int)) && i < j <= n,
            None => spec_parse_atom(s@, i as int) is None,
        },
{
    if i < n {
        let c = s.get_char(i);
        if is_atom_char_x(c) {
            let j = scan_atom(s, n, i);
            proof {
                assert(atom_end(s@, i as int) == atom_end(s@, i as int + 1));
                lemma_atom_end(s@, i as int + 1);
            }
            let t = s.substring_char(i, j).to_owned();
            Some((SExp::Atom(t), j))
        } else if c == '"' {
            match scan_string(s, n, i + 1) {
                Some(e) => {
                    let t = s.substring_char(i, e + 1).to_owned();
                    Some((SExp::Atom(t), e + 1))
                },
                None => None,
            }
        } else {
            None
        }
    } else {
        None
    }
}

/// One or more forms, each preceded by optional skipping.
fn parse_seq(s: &str, n: usize, i: usize) -> (r: Option<(Vec<SExp>, usize)>)
    requires
        n == s@.len(),
        i <= n,
    ensures
        match r {
            Some((es, j)) => spec_parse_seq(s@, i as int) == Some((views_of(es), j as int)) && i
                <= j <= n,
            None => spec_parse_seq(s@, i as int) is None,
        },
    decreases s@.len() - i, 4int,
{
    let j = skip_ws(s, n, i);
    match parse_sexp(s, n, j) {
        None => None,
        Some((e, k)) => {
            let mut acc: Vec<SExp> = Vec::new();
            let ghost e_view = e@;
            acc.push(e);
            proof {
                assert(views_of(acc) =~= seq![e_view]) by {
                    crate::sexp::lemma_views_of(acc);
                }
            }
            let (es, end) = parse_many(s, n, k, acc);
            Some((es, end))
        },
    }
}

/// Continues a form sequence: parses further forms while one follows, then
/// consumes one trailing run of skipping.
#[verifier::loop_isolation(false)]
fn parse_many(s: &str, n: usize, from: usize, acc: Vec<SExp>) -> (r: (Vec<SExp>, usize))
    requires
        n == s@.len(),
        from <= n,
    ensures
        spec_parse_rest(s@, from as int, views_of(acc)) == (views_of(r.0), r.1 as int),
        from <= r.1 <= n,
    decreases s@.len() - from, 5int,
{
    let ghost acc0 = views_of(acc);
    let mut out = acc;
    let mut pos: usize = from;
    loop
        invariant
            n == s@.len(),
            from <= pos <= n,
            spec_parse_rest(s@, from as int, acc0) == spec_parse_rest(
                s@,
                pos as int,
                views_of(out),
            ),
        decreases n - pos,
    {
        let j = skip_ws(s, n, pos);
        match parse_sexp(s, n, j) {
            None => {
                proof {
                    assert(spec_parse_rest(s@, pos as int, views_of(out)) == (
                        views_of(out),
                        j as int,
                    ));
                }
                return (out, j);
            },
            Some((e, k)) => {
                let ghost out_before = out;
                let ghost e_view = e@;
                out.push(e);
                proof {
                    crate::sexp::lemma_views_of_push(out_before, out, e);
                }
                pos = k;
            },
        }
    }
}

/// The line and column (1-based, counted in characters) of position `end`.
fn line_col_at(s: &str, n: usize, end: usize) -> (r: (usize, usize))
    requires
        n == s@.len(),
        end <= n,
        n < usize::MAX,
    ensures
        r.0 as int == line_at(s@, end as int),
        r.1 as int == col_at(s@, end as int),
        1 <= r.0 <= end + 1,
        1 <= r.1 <= end + 1,
{
    let mut line: usize = 1;
    let mut col: usize = 1;
    let mut i: usize = 0;
    while i < end
        invariant
            i <= end <= n,
            n == s@.len(),
            n < usize::MAX,
            line as int == line_at(s@, i as int),
            col as int == col_at(s@, i as int),
            1 <= line <= i + 1,
            1 <= col <= i + 1,
        decreases end - i,
    {
        let c = s.get_char(i);
        if c == '\n' {
            line = line + 1;
            col = 1;
        } else {
            col = col + 1;
        }
        i = i + 1;
    }
    (line, col)
}

/// Consumes whitespace and comments at `i` and says how far they reached, or
/// `None` when none stood there.
pub fn nonempty_skip(s: &str, i: usize) -> (r: Option<usize>)
    requires
        i <= s@.len(),
    ensures
        match r {
            Some(j) => j as int == skip_from(s@, i as int) && i < j <= s@.len(),
            None => skip_from(s@, i as int) == i as int,
        },
{
    let n = s.unicode_len();
    let j = skip_ws(s, n, i);
    if j > i {
        Some(j)
    } else {
        None
    }
}

/// Parses one pre-extracted form (or several) from `text`, reporting any
/// failure at a position translated into the coordinate space the form was
/// extracted from: `form_position` names where `text` begins in the original
/// document.
pub fn parse_form(text: String, form_position: Loc) -> (r: Result<Vec<SExp>, SexpfmtError>)
    requires
        text@.len() < usize::MAX,
        form_position.offset + text@.len() <= usize::MAX,
        form_position.line + text@.len() <= usize::MAX,
        form_position.column + text@.len() <= usize::MAX,
    ensures
        parse_form_spec(text@, form_position, r),
{
    let s = text.as_str();
    let n = s.unicode_len();
    let start: Vec<SExp> = Vec::new();
    let (es, end) = parse_many(s, n, 0, start);
    if end == n {
        Ok(es)
    } else {
        let (line, col) = line_col_at(s, n, end);
        let position = Loc::in_form(form_position, end, line, col);
        let mut message = String::new();
        message.append("Unexpected input: '");
        let frag = s.substring_char(end, n);
        message.append(frag);
        message.append("'");
        proof {
            assert(message@ =~= "Unexpected input: '"@ + text@.subrange(
                end as int,
                text@.len() as int,
            ) + "'"@);
        }
        Err(SexpfmtError::parse_error(message, position))
    }
}

/// Parses a whole document: `parse_form` anchored at the document's start.
pub fn parse_document(text: String) -> (r: Result<Vec<SExp>, SexpfmtError>)
    requires
        text@.len() < usize::MAX,
    ensures
        parse_form_spec(text@, Loc { offset: 0, line: 1, column: 1 }, r),
{
    parse_form(text, Loc::new(0, 1, 1))
}

/// An optional parse result, its stop index moved `d` places right.
pub open spec fn shift_opt(r: Option<(SExpV, int)>, d: int) -> Option<(SExpV, int)> {
    match r {
        None => None,
        Some((v, j)) => Some((v, d + j)),
    }
}

/// Skipping looks only at the characters from its position on: in front of a
/// prefix it lands where it lands in the suffix alone, shifted.
pub proof fn lemma_skip_shift(prefix: Seq<char>, s: Seq<char>, i: int)
    requires
        0 <= i <= s.len(),
    ensures
        spec_skip(prefix + s, prefix.len() + i) == prefix.len() + spec_skip(s, i),
        spec_skip_comment(prefix + s, prefix.len() + i) == prefix.len() + spec_skip_comment(s, i),
    decreases s.len() - i,
{
    let full = prefix + s;
    if i < s.len() {
        assert(full[prefix.len() + i] == s[i]);
        lemma_skip_shift(prefix, s, i + 1);
    }
}

/// Bare-atom scanning, shifted likewise.
pub proof fn lemma_atom_end_shift(prefix: Seq<char>, s: Seq<char>, i: int)
    requires
        0 <= i <= s.len(),
    ensures
        atom_end(prefix + s, prefix.len() + i) == prefix.len() + atom_end(s, i),
    decreases s.len() - i,
{
    let full = prefix + s;
    if i < s.len() {
        assert(full[prefix.len() + i] == s[i]);
        if is_atom_char(s[i]) {
            lemma_atom_end_shift(prefix, s, i + 1);
        }
    }
}

/// String-body scanning, shifted likewise.
pub proof fn lemma_string_scan_shift(prefix: Seq<char>, s: Seq<char>, i: int)
    requires
        0 <= i <= s.len(),
    ensures
        string_end(prefix + s, prefix.len() + i) == (match string_end(s, i) {
            None => None::<int>,
            Some(e) => Some(prefix.len() + e),
        }),
    decreases s.len() - i,
{
    let full = prefix + s;
    if i < s.len() {
        assert(full[prefix.len() + i] == s[i]);
        if i + 1 < s.len() {
            assert(full[prefix.len() + i + 1] == s[i + 1]);
        }
        if i + 1 < s.len() && s[i] == '\\' && s[i + 1] == '"' {
            lemma_string_scan_shift(prefix, s, i + 2);
        } else if s[i] == '"' {
        } else if s[i] != '\n' && s[i] != '\r' {
            lemma_string_scan_shift(prefix, s, i + 1);
        }
    }
}

/// One form parses the same way behind any prefix, shifted.
pub proof fn lemma_parse_sexp_shift(prefix: Seq<char>, s: Seq<char>, i: int)
    requires
        0 <= i <= s.len(),
    ensures
        spec_parse_sexp(prefix + s, prefix.len() + i) == shift_opt(
            spec_parse_sexp(s, i),
            prefix.len() as int,
        ),
    decreases s.len() - i, 3int,
{
    lemma_parse_list_shift(prefix, s, i);
    lemma_parse_atom_shift(prefix, s, i);
}

pub proof fn lemma_parse_list_shift(prefix: Seq<char>, s: Seq<char>, i: int)
    requires
        0 <= i <= s.len(),
    ensures
        spec_parse_list(prefix + s, prefix.len() + i) == shift_opt(
            spec_parse_list(s, i),
            prefix.len() as int,
        ),
    decreases s.len() - i, 2int,
{
    let full = prefix + s;
    let p = prefix.len() as int;
    if i < s.len() {
        assert(full[p + i] == s[i]);
        if is_open_char(s[i]) {
            let st = style_of_open(s[i]);
            lemma_parse_seq_shift(prefix, s, i + 1);
            lemma_parse_seq_wf(s, i + 1);
            match spec_parse_seq(s, i + 1) {
                Some((es, j)) => {
                    if 0 <= j < s.len() {
                        assert(full[p + j] == s[j]);
                    }
                },
                None => {
                    if i + 1 < s.len() {
                        assert(full[p + i + 1] == s[i + 1]);
                    }
                },
            }
        }
    }
}

pub proof fn lemma_parse_atom_shift(prefix: Seq<char>, s: Seq<char>, i: int)
    requires
        0 <= i <= s.len(),
    ensures
        spec_parse_atom(prefix + s, prefix.len() + i) == shift_opt(
            spec_parse_atom(s, i),
            prefix.len() as int,
        ),
{
    let full = prefix + s;
    let p = prefix.len() as int;
    if i < s.len() {
        assert(full[p + i] == s[i]);
        if is_atom_char(s[i]) {
            lemma_atom_end_shift(prefix, s, i);
            lemma_atom_end(s, i);
            let j = atom_end(s, i);
            assert(full.subrange(p + i, p + j) =~= s.subrange(i, j));
        } else if s[i] == '"' {
            lemma_string_scan_shift(prefix, s, i + 1);
            lemma_string_end(s, i + 1);
            match string_end(s, i + 1) {
                Some(e) => {
                    assert(full.subrange(p + i, p + e + 1) =~= s.subrange(i, e + 1));
                },
                None => {
                },
            }
        }
    }
}

pub proof fn lemma_parse_seq_shift(prefix: Seq<char>, s: Seq<char>, i: int)
    requires
        0 <= i <= s.len(),
    ensures
        (match spec_parse_seq(s, i) {
            None => spec_parse_seq(prefix + s, prefix.len() + i) is None,
            Some((es, j)) => spec_parse_seq(prefix + s, prefix.len() + i) == Some(
                (es, prefix.len() + j),
            ),
        }),
    decreases s.len() - i, 4int,
{
    let full = prefix + s;
    let p = prefix.len() as int;
    lemma_spec_skip(s, i);
    lemma_skip_shift(prefix, s, i);
    let j = skip_from(s, i);
    assert(skip_from(full, p + i) == p + j);
    lemma_parse_sexp_shift(prefix, s, j);
    lemma_parse_sexp_wf(s, j);
    match spec_parse_sexp(s, j) {
        None => {
        },
        Some((e, k)) => {
            if i < k <= s.len() {
                lemma_parse_rest_shift(prefix, s, k, seq![e]);
            }
        },
    }
}

pub proof fn lemma_parse_rest_shift(prefix: Seq<char>, s: Seq<char>, i: int, acc: Seq<SExpV>)
    requires
        0 <= i <= s.len(),
    ensures
        spec_parse_rest(prefix + s, prefix.len() + i, acc) == (
            spec_parse_rest(s, i, acc).0,
            prefix.len() + spec_parse_rest(s, i, acc).1,
        ),
    decreases s.len() - i, 5int,
{
    let full = prefix + s;
    let p = prefix.len() as int;
    lemma_spec_skip(s, i);
    lemma_skip_shift(prefix, s, i);
    let j = skip_from(s, i);
    assert(skip_from(full, p + i) == p + j);
    lemma_parse_sexp_shift(prefix, s, j);
    lemma_parse_sexp_wf(s, j);
    match spec_parse_sexp(s, j) {
        None => {
        },
        Some((e, k)) => {
            if i < k <= s.len() {
                lemma_parse_rest_shift(prefix, s, k, acc.push(e));
            }
        },
    }
}

/// A line comment in front of the input is fully transparent to parsing: the
/// same trees come out, and only the stop index moves past the comment and
/// its line break.
pub proof fn lemma_comment_transparent(c: Seq<char>, s: Seq<char>)
    requires
        forall|k: int| 0 <= k < c.len() ==> c[k] != '\n' && c[k] != '\r',
    ensures
        ({
            let full = seq![';'] + c + seq!['\n'] + s;
            spec_parse_file(full) == (
                spec_parse_file(s).0,
                c.len() + 2 + spec_parse_file(s).1,
            )
        }),
{
    let prefix = seq![';'] + c + seq!['\n'];
    let full = seq![';'] + c + seq!['\n'] + s;
    let p = prefix.len() as int;
    assert(p == c.len() + 2);
    assert(full =~= prefix + s);

    // Skipping from the start walks the comment, its line break, and then
    // whatever skipping does in `s` alone.
    assert(full[0] == ';');
    lemma_comment_walk(full, c, s, 1);
    assert(spec_skip(full, 0) == spec_skip_comment(full, 1));
    lemma_spec_skip(s, 0);
    lemma_skip_shift(prefix, s, 0);

    // The element loop from the start of `full` is the element loop of `s`.
    lemma_parse_sexp_shift(prefix, s, skip_from(s, 0));
    lemma_parse_sexp_wf(s, skip_from(s, 0));
    let j = skip_from(s, 0);
    assert(spec_skip(full, 0) == p + spec_skip(s, 0));
    assert(skip_from(full, 0) == p + j) by {
        lemma_spec_skip(full, 0);
    };
    match spec_parse_sexp(s, j) {
        None => {
            assert(spec_parse_rest(full, 0, Seq::empty()) == (Seq::<SExpV>::empty(), p + j));
            assert(spec_parse_rest(s, 0, Seq::empty()) == (Seq::<SExpV>::empty(), j));
        },
        Some((e, k)) => {
            if 0 < k <= s.len() {
                lemma_parse_rest_shift(prefix, s, k, seq![e]);
            }
        },
    }
}

/// Walking a comment's characters: skipping finds the line break at its end
/// and goes on from there.
proof fn lemma_comment_walk(full: Seq<char>, c: Seq<char>, s: Seq<char>, m: int)
    requires
        full == seq![';'] + c + seq!['\n'] + s,
        forall|k: int| 0 <= k < c.len() ==> c[k] != '\n' && c[k] != '\r',
        1 <= m <= c.len() + 1,
    ensures
        spec_skip_comment(full, m) == spec_skip(full, c.len() as int + 2),
    decreases c.len() + 1 - m,
{
    if m == c.len() + 1 {
        assert(full[m] == '\n');
        assert(spec_skip_comment(full, m) == spec_skip(full, m));
        assert(is_space_char(full[m]));
        assert(spec_skip(full, m) == spec_skip(full, m + 1));
    } else {
        assert(full[m] == c[m - 1]);
        assert(full[m] != '\n' && full[m] != '\r');
        lemma_comment_walk(full, c, s, m + 1);
    }
}

} // verus!
