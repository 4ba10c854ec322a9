//! The layout engine: a plan phase that decides, bottom-up, whether each list
//! fits on one line within its width budget, and a render phase that walks
//! tree and plan together and emits the text.
//!
//! The rendered text is specified as a pure function of the tree and the
//! budget alone (`spec_render_b`), since the plan is itself a function of
//! those; `plan_is` states exactly which plan the plan phase produces.

use crate::sexp::close_char;
use crate::sexp::open_char;
use crate::sexp::sexp_height;
use crate::sexp::views_of;
use crate::sexp::SExp;
use crate::sexp::SExpBookendStyle;
use crate::sexp::SExpV;
use vstd::prelude::*;
use vstd::string::StringExecFns;

verus! {

/// Number of columns each nesting level adds in multiline layout.
pub const INDENT_WIDTH: usize = 2;

/// The line width the default printer tries to respect.
pub const MARGIN_WIDTH: usize = 80;

/// How one list is laid out: all on one line, or one element per line.
#[derive(Clone, Copy, Debug, PartialEq, Eq, Structural)]
pub enum ListPrintPlan {
    Monoline,
    Multiline,
}

/// The plan phase's result: the width each subtree would occupy (saturated at
/// `usize::MAX`), and for lists the chosen layout with one plan per element.
pub enum PrintPlan {
    Null,
    Atom(usize),
    List(usize, Vec<PrintPlan>, ListPrintPlan),
}

/// A width, saturated to what a machine word can hold.
pub open spec fn sat(w: nat) -> nat {
    if w > usize::MAX {
        usize::MAX as nat
    } else {
        w
    }
}

/// Whether a width fits a budget; `None` is the unlimited budget.
pub open spec fn fits_budget(w: nat, b: Option<int>) -> bool {
    match b {
        None => true,
        Some(x) => w <= x,
    }
}

/// The budget handed to the elements of a list that breaks: the indent step
/// is taken away (a budget below the step reduces to nothing, which no list
/// fits anyway).
pub open spec fn reduced(b: int) -> int {
    if b >= 2 {
        b - 2
    } else {
        0
    }
}

/// The width a subtree's plan reports under budget `b`: its single-line
/// width when it fits (or when the budget is unlimited), and otherwise
/// indent step + the widest element's plan width + 1.
pub open spec fn plan_width_of(v: SExpV, b: Option<int>) -> nat
    decreases v, 0int,
{
    match v {
        SExpV::Null(_) => 2,
        SExpV::Atom(s) => s.len(),
        SExpV::List(es, _) => {
            let mw = 2 + mono_width_items(es, es.len() as int);
            if fits_budget(mw, b) {
                mw
            } else {
                3 + widths_max(es, es.len() as int, reduced(b->0))
            }
        },
    }
}

/// The single-line width of the first `n` elements, one space between
/// neighbours.
pub open spec fn mono_width_items(es: Seq<SExpV>, n: int) -> nat
    decreases es, n,
{
    if n <= 0 || n > es.len() {
        0
    } else if n == 1 {
        plan_width_of(es[0], None)
    } else {
        mono_width_items(es, n - 1) + 1 + plan_width_of(es[n - 1], None)
    }
}

/// The single-line width of one tree.
pub open spec fn mono_width(v: SExpV) -> nat {
    plan_width_of(v, None)
}

/// The greatest plan width among the first `n` elements, at element budget
/// `rb`.
pub open spec fn widths_max(es: Seq<SExpV>, n: int, rb: int) -> nat
    decreases es, n,
{
    if n <= 0 || n > es.len() {
        0
    } else {
        let w = plan_width_of(es[n - 1], Some(rb));
        let m = widths_max(es, n - 1, rb);
        if w > m {
            w
        } else {
            m
        }
    }
}

/// The spec-side meaning of an `Option<usize>` budget.
pub open spec fn bv(b: Option<usize>) -> Option<int> {
    match b {
        None => None,
        Some(x) => Some(x as int),
    }
}

/// `p` is exactly the plan the plan phase computes for `v` under budget `b`
/// (widths saturated at `usize::MAX`).
pub open spec fn plan_is(p: PrintPlan, v: SExpV, b: Option<int>) -> bool
    decreases v,
{
    match v {
        SExpV::Null(_) => p is Null,
        SExpV::Atom(s) => p matches PrintPlan::Atom(w) && w as nat == sat(s.len()),
        SExpV::List(es, _) => p matches PrintPlan::List(w, ps, lp) && ps@.len() == es.len() && ({
            let mw = 2 + mono_width_items(es, es.len() as int);
            if fits_budget(mw, b) {
                w as nat == sat(mw) && lp == ListPrintPlan::Monoline && (forall|i: int|
                    0 <= i < es.len() ==> plan_is(#[trigger] ps@[i], es[i], None))
            } else {
                let rb = reduced(b->0);
                w as nat == sat(3 + widths_max(es, es.len() as int, rb)) && lp
                    == ListPrintPlan::Multiline && (forall|i: int|
                    0 <= i < es.len() ==> plan_is(#[trigger] ps@[i], es[i], Some(rb)))
            }
        }),
    }
}

/// Whether a list element comes out multiline under element budget `rb`;
/// the padding rule looks at this for a list's first element.
pub open spec fn child_multiline(v: SExpV, rb: int) -> bool {
    match v {
        SExpV::List(es, _) => !fits_budget(2 + mono_width_items(es, es.len() as int), Some(rb)),
        _ => false,
    }
}

/// `k` spaces.
pub open spec fn spaces(k: int) -> Seq<char> {
    Seq::new(
        if k < 0 {
            0
        } else {
            k as nat
        },
        |i: int| ' ',
    )
}

/// The text the printer emits for `v` under budget `b` at the given indent:
/// `Null` as its bookend pair, an atom as its own text, a fitting list on
/// one line with single spaces between elements, and a list that does not
/// fit with every element on its own line at `indent + 2` — padded with one
/// space inside each bookend when its first element is itself a broken-out
/// list.
pub open spec fn spec_render_b(v: SExpV, b: Option<int>, indent: int) -> Seq<char>
    decreases v, 0int,
{
    match v {
        SExpV::Null(st) => seq![open_char(st), close_char(st)],
        SExpV::Atom(s) => s,
        SExpV::List(es, st) => {
            let mw = 2 + mono_width_items(es, es.len() as int);
            if fits_budget(mw, b) {
                seq![open_char(st)] + items_mono(es, es.len() as int, indent) + seq![
                    close_char(st),
                ]
            } else {
                let rb = reduced(b->0);
                let pad: Seq<char> = if es.len() > 0 && child_multiline(es[0], rb) {
                    seq![' ']
                } else {
                    Seq::empty()
                };
                seq![open_char(st)] + pad + items_multi(es, es.len() as int, rb, indent + 2) + pad
                    + seq![close_char(st)]
            }
        },
    }
}

/// The first `n` elements rendered on one line, one space between
/// neighbours.
pub open spec fn items_mono(es: Seq<SExpV>, n: int, indent: int) -> Seq<char>
    decreases es, n,
{
    if n <= 0 || n > es.len() {
        Seq::empty()
    } else if n == 1 {
        spec_render_b(es[0], None, indent)
    } else {
        items_mono(es, n - 1, indent) + seq![' '] + spec_render_b(es[n - 1], None, indent)
    }
}

/// The first `n` elements, each on its own line at the given indent, at
/// element budget `rb`.
pub open spec fn items_multi(es: Seq<SExpV>, n: int, rb: int, indent: int) -> Seq<char>
    decreases es, n,
{
    if n <= 0 || n > es.len() {
        Seq::empty()
    } else if n == 1 {
        spec_render_b(es[0], Some(rb), indent)
    } else {
        items_multi(es, n - 1, rb, indent) + seq!['\n'] + spaces(indent) + spec_render_b(
            es[n - 1],
            Some(rb),
            indent,
        )
    }
}

/// The first `n` top-level forms, newline-separated, each planned against
/// the margin.
pub open spec fn spec_render_forms(ts: Seq<SExpV>, margin: int, n: int) -> Seq<char>
    decreases n,
{
    if n <= 0 || n > ts.len() {
        Seq::empty()
    } else if n == 1 {
        spec_render_b(ts[0], Some(margin), 0)
    } else {
        spec_render_forms(ts, margin, n - 1) + seq!['\n'] + spec_render_b(ts[n - 1], Some(margin), 0)
    }
}

impl PrintPlan {
    /// The width this plan reports to an enclosing decision.
    pub fn width(&self) -> (w: usize)
        ensures
            w == plan_stored_width(*self),
    {
        match self {
            PrintPlan::Null => 2,
            PrintPlan::Atom(w) => *w,
            PrintPlan::List(w, _, _) => *w,
        }
    }
}

/// The width a plan carries.
pub open spec fn plan_stored_width(p: PrintPlan) -> usize {
    match p {
        PrintPlan::Null => 2,
        PrintPlan::Atom(w) => w,
        PrintPlan::List(w, _, _) => w,
    }
}

/// The stored width of a computed plan is the saturated spec width.
pub proof fn lemma_plan_is_width(p: PrintPlan, v: SExpV, b: Option<int>)
    requires
        plan_is(p, v, b),
    ensures
        plan_stored_width(p) as nat == sat(plan_width_of(v, b)),
{
    match v {
        SExpV::Null(_) => {
        },
        SExpV::Atom(_) => {
        },
        SExpV::List(_, _) => {
        },
    }
}

fn add_sat(a: usize, b: usize) -> (r: usize)
    ensures
        r as nat == sat(a as nat + b as nat),
{
    if a <= usize::MAX - b {
        a + b
    } else {
        usize::MAX
    }
}

/// The plan phase: decides for `e`, bottom-up, whether each list fits its
/// budget on one line, carrying each element's plan.
#[verifier::loop_isolation(false)]
fn plan(e: &SExp, budget: Option<usize>) -> (r: PrintPlan)
    requires
        budget matches Some(b) ==> b < usize::MAX,
    ensures
        plan_is(r, e@, bv(budget)),
    decreases *e, 1int,
{
    match e {
        SExp::Null(_) => PrintPlan::Null,
        SExp::Atom(s) => PrintPlan::Atom(s.as_str().unicode_len()),
        SExp::List(es, _) => {
            let ghost vs = views_of(*es);
            proof {
                crate::sexp::lemma_views_of(*es);
            }
            let mono_plans = plan_vec(es, None);
            let mut w: usize = 2;
            let mut i: usize = 0;
            while i < es.len()
                invariant
                    i <= es@.len(),
                    vs.len() == es@.len(),
                    mono_plans@.len() == es@.len(),
                    forall|k: int| 0 <= k < es@.len() ==> vs[k] == es@[k]@,
                    forall|k: int|
                        0 <= k < es@.len() ==> plan_is(#[trigger] mono_plans@[k], es@[k]@, None),
                    w as nat == sat(2 + mono_width_items(vs, i as int)),
                decreases es@.len() - i,
            {
                if i > 0 {
                    w = add_sat(w, 1);
                }
                let cw = mono_plans[i].width();
                proof {
                    lemma_plan_is_width(mono_plans@[i as int], vs[i as int], None);
                }
                w = add_sat(w, cw);
                i = i + 1;
            }
            let fits: bool = match budget {
                None => true,
                Some(b) => w <= b,
            };
            proof {
                assert(fits == fits_budget(2 + mono_width_items(vs, vs.len() as int), bv(budget)));
            }
            if fits {
                PrintPlan::List(w, mono_plans, ListPrintPlan::Monoline)
            } else {
                let b = match budget {
                    Some(b) => b,
                    None => vstd::pervasive::unreached(),
                };
                let rb: usize = if b >= 2 {
                    b - 2
                } else {
                    0
                };
                let ml_plans = plan_vec(es, Some(rb));
                let mut mx: usize = 0;
                let mut j: usize = 0;
                while j < es.len()
                    invariant
                        j <= es@.len(),
                        vs.len() == es@.len(),
                        ml_plans@.len() == es@.len(),
                        rb as int == reduced(b as int),
                        forall|k: int| 0 <= k < es@.len() ==> vs[k] == es@[k]@,
                        forall|k: int|
                            0 <= k < es@.len() ==> plan_is(
                                #[trigger] ml_plans@[k],
                                es@[k]@,
                                Some(rb as int),
                            ),
                        mx as nat == sat(widths_max(vs, j as int, rb as int)),
                    decreases es@.len() - j,
                {
                    let cw = ml_plans[j].width();
                    proof {
                        lemma_plan_is_width(ml_plans@[j as int], vs[j as int], Some(rb as int));
                    }
                    if cw > mx {
                        mx = cw;
                    }
                    j = j + 1;
                }
                let w2 = add_sat(mx, 3);
                PrintPlan::List(w2, ml_plans, ListPrintPlan::Multiline)
            }
        },
    }
}

/// Plans every tree of `es` under one budget.
#[verifier::loop_isolation(false)]
fn plan_vec(es: &Vec<SExp>, budget: Option<usize>) -> (r: Vec<PrintPlan>)
    requires
        budget matches Some(b) ==> b < usize::MAX,
    ensures
        r@.len() == es@.len(),
        forall|i: int| 0 <= i < es@.len() ==> plan_is(#[trigger] r@[i], es@[i]@, bv(budget)),
    decreases *es, 0int,
{
    let mut out: Vec<PrintPlan> = Vec::new();
    let mut i: usize = 0;
    while i < es.len()
        invariant
            i <= es@.len(),
            out@.len() == i,
            forall|k: int| 0 <= k < i ==> plan_is(#[trigger] out@[k], es@[k]@, bv(budget)),
        decreases es@.len() - i,
    {
        let p = plan(&es[i], budget);
        out.push(p);
        i = i + 1;
    }
    out
}

fn push_open(out: &mut String, st: SExpBookendStyle)
    ensures
        final(out)@ == old(out)@ + seq![open_char(st)],
{
    proof {
        reveal_strlit("(");
        reveal_strlit("[");
        reveal_strlit("{");
    }
    match st {
        SExpBookendStyle::Parentheses => out.append("("),
        SExpBookendStyle::SquareBrackets => out.append("["),
        SExpBookendStyle::CurlyBraces => out.append("{"),
    }
    proof {
        assert(out@ =~= old(out)@ + seq![open_char(st)]);
    }
}

fn push_close(out: &mut String, st: SExpBookendStyle)
    ensures
        final(out)@ == old(out)@ + seq![close_char(st)],
{
    proof {
        reveal_strlit(")");
        reveal_strlit("]");
        reveal_strlit("}");
    }
    match st {
        SExpBookendStyle::Parentheses => out.append(")"),
        SExpBookendStyle::SquareBrackets => out.append("]"),
        SExpBookendStyle::CurlyBraces => out.append("}"),
    }
    proof {
        assert(out@ =~= old(out)@ + seq![close_char(st)]);
    }
}

fn push_space(out: &mut String)
    ensures
        final(out)@ == old(out)@ + seq![' '],
{
    proof {
        reveal_strlit(" ");
    }
    out.append(" ");
    proof {
        assert(out@ =~= old(out)@ + seq![' ']);
    }
}

fn push_newline(out: &mut String)
    ensures
        final(out)@ == old(out)@ + seq!['\n'],
{
    proof {
        reveal_strlit("\n");
    }
    out.append("\n");
    proof {
        assert(out@ =~= old(out)@ + seq!['\n']);
    }
}

#[verifier::loop_isolation(false)]
fn push_spaces(out: &mut String, k: usize)
    ensures
        final(out)@ == old(out)@ + spaces(k as int),
{
    let mut i: usize = 0;
    while i < k
        invariant
            i <= k,
            out@ == old(out)@ + spaces(i as int),
        decreases k - i,
    {
        push_space(out);
        proof {
            assert(spaces(i as int).push(' ') =~= spaces(i as int + 1));
        }
        i = i + 1;
    }
}

/// The render phase: walks a tree and its plan together and appends the
/// laid-out text. The ghost budget names which plan this is.
#[verifier::loop_isolation(false)]
fn render_into(
    e: &SExp,
    p: &PrintPlan,
    Ghost(b): Ghost<Option<int>>,
    indent: usize,
    out: &mut String,
)
    requires
        plan_is(*p, e@, b),
        indent + 2 * sexp_height(e@) <= usize::MAX,
    ensures
        final(out)@ == old(out)@ + spec_render_b(e@, b, indent as int),
    decreases *e, 1int,
{
    match e {
        SExp::Null(st) => {
            push_open(out, *st);
            push_close(out, *st);
            proof {
                assert(out@ =~= old(out)@ + spec_render_b(e@, b, indent as int));
            }
        },
        SExp::Atom(s) => {
            out.append(s.as_str());
        },
        SExp::List(es, st) => {
            match p {
                PrintPlan::List(_, ps, lp) => {
                    let ghost vs = views_of(*es);
                    proof {
                        crate::sexp::lemma_views_of(*es);
                        crate::sexp::lemma_heights_max(vs, vs.len() as int);
                        assert(sexp_height(e@) == 1 + crate::sexp::heights_max(
                            vs,
                            vs.len() as int,
                        ));
                        assert forall|i: int|
                            0 <= i < es@.len() implies indent + 2 + 2 * sexp_height(
                            #[trigger] es@[i]@,
                        ) <= usize::MAX by {
                            assert(es@[i]@ == vs[i]);
                            assert(sexp_height(vs[i]) <= crate::sexp::heights_max(
                                vs,
                                vs.len() as int,
                            ));
                        };
                    }
                    let pad: bool = if ps.len() > 0 {
                        match &ps[0] {
                            PrintPlan::List(_, _, ListPrintPlan::Multiline) => true,
                            _ => false,
                        }
                    } else {
                        false
                    };
                    push_open(out, *st);
                    match lp {
                        ListPrintPlan::Monoline => {
                            proof {
                                assert(!pad) by {
                                    if ps@.len() > 0 {
                                        assert(plan_is(ps@[0], vs[0], None));
                                    }
                                };
                            }
                            render_children(es, ps, Ghost(None), false, indent, out);
                            push_close(out, *st);
                            proof {
                                assert(out@ =~= old(out)@ + spec_render_b(
                                    e@,
                                    b,
                                    indent as int,
                                ));
                            }
                        },
                        ListPrintPlan::Multiline => {
                            let ghost rb = reduced(b->0);
                            proof {
                                assert(pad == (vs.len() > 0 && child_multiline(vs[0], rb))) by {
                                    if ps@.len() > 0 {
                                        assert(plan_is(ps@[0], vs[0], Some(rb)));
                                    }
                                };
                            }
                            if pad {
                                push_space(out);
                            }
                            render_children(es, ps, Ghost(Some(rb)), true, indent + 2, out);
                            if pad {
                                push_space(out);
                            }
                            push_close(out, *st);
                            proof {
                                assert(out@ =~= old(out)@ + spec_render_b(
                                    e@,
                                    b,
                                    indent as int,
                                ));
                            }
                        },
                    }
                },
                _ => {
                    proof {
                        assert(false);
                    }
                    vstd::pervasive::unreached()
                },
            }
        },
    }
}

/// Renders every element of a list: on one shared line when `multiline` is
/// false, and otherwise each on its own line at the given indent.
#[verifier::loop_isolation(false)]
fn render_children(
    es: &Vec<SExp>,
    ps: &Vec<PrintPlan>,
    Ghost(cb): Ghost<Option<int>>,
    multiline: bool,
    indent: usize,
    out: &mut String,
)
    requires
        ps@.len() == es@.len(),
        forall|i: int| 0 <= i < es@.len() ==> plan_is(#[trigger] ps@[i], es@[i]@, cb),
        forall|i: int|
            0 <= i < es@.len() ==> indent + 2 * sexp_height(#[trigger] es@[i]@) <= usize::MAX,
        !multiline ==> cb is None,
        multiline ==> cb is Some,
    ensures
        !multiline ==> final(out)@ == old(out)@ + items_mono(
            views_of(*es),
            es@.len() as int,
            indent as int,
        ),
        multiline ==> final(out)@ == old(out)@ + items_multi(
            views_of(*es),
            es@.len() as int,
            cb->0,
            indent as int,
        ),
    decreases *es, 0int,
{
    let ghost vs = views_of(*es);
    proof {
        crate::sexp::lemma_views_of(*es);
    }
    let mut i: usize = 0;
    while i < es.len()
        invariant
            i <= es@.len(),
            !multiline ==> out@ == old(out)@ + items_mono(vs, i as int, indent as int),
            multiline ==> out@ == old(out)@ + items_multi(vs, i as int, cb->0, indent as int),
        decreases es@.len() - i,
    {
        if i > 0 {
            if !multiline {
                push_space(out);
            } else {
                push_newline(out);
                push_spaces(out, indent);
            }
        }
        render_into(&es[i], &ps[i], Ghost(cb), indent, out);
        proof {
            if !multiline {
                assert(out@ =~= old(out)@ + items_mono(vs, i + 1 as int, indent as int));
            } else {
                assert(out@ =~= old(out)@ + items_multi(vs, i + 1 as int, cb->0, indent as int));
            }
        }
        i = i + 1;
    }
}

/// Lays out every form against the given margin width, newline-separated.
/// Pure and total: it cannot fail on any tree whose nesting is shallow
/// enough for the indentation arithmetic of a machine word (every parsed
/// tree is; see `crate::parser::lemma_parse_file_wf`).
#[verifier::loop_isolation(false)]
pub fn render(sexps: &Vec<SExp>, margin_width: usize) -> (out: String)
    requires
        margin_width < usize::MAX,
        forall|i: int|
            0 <= i < sexps@.len() ==> 2 * sexp_height(#[trigger] sexps@[i]@) + 2 <= usize::MAX,
    ensures
        out@ == spec_render_forms(views_of(*sexps), margin_width as int, sexps@.len() as int),
{
    let ghost vs = views_of(*sexps);
    proof {
        crate::sexp::lemma_views_of(*sexps);
    }
    let mut out = String::new();
    let mut i: usize = 0;
    while i < sexps.len()
        invariant
            i <= sexps@.len(),
            out@ == spec_render_forms(vs, margin_width as int, i as int),
        decreases sexps@.len() - i,
    {
        if i > 0 {
            push_newline(&mut out);
        }
        let p = plan(&sexps[i], Some(margin_width));
        render_into(&sexps[i], &p, Ghost(Some(margin_width as int)), 0, &mut out);
        proof {
            assert(out@ =~= spec_render_forms(vs, margin_width as int, i + 1 as int));
        }
        i = i + 1;
    }
    out
}

/// The canonical single-line text of a tree: atoms verbatim, lists with one
/// space between elements.
pub open spec fn mono_text(v: SExpV) -> Seq<char>
    decreases v, 0int,
{
    match v {
        SExpV::Null(st) => seq![open_char(st), close_char(st)],
        SExpV::Atom(s) => s,
        SExpV::List(es, st) => seq![open_char(st)] + mono_text_items(es, es.len() as int) + seq![
            close_char(st),
        ],
    }
}

/// The single-line text of the first `n` elements, space-separated.
pub open spec fn mono_text_items(es: Seq<SExpV>, n: int) -> Seq<char>
    decreases es, n,
{
    if n <= 0 || n > es.len() {
        Seq::empty()
    } else if n == 1 {
        mono_text(es[0])
    } else {
        mono_text_items(es, n - 1) + seq![' '] + mono_text(es[n - 1])
    }
}

/// A tree whose single-line width fits the budget renders as exactly its
/// single-line text.
pub proof fn lemma_fits_renders_monoline(v: SExpV, b: Option<int>, indent: int)
    requires
        fits_budget(mono_width(v), b),
    ensures
        spec_render_b(v, b, indent) == mono_text(v),
    decreases v, 1int,
{
    match v {
        SExpV::List(es, st) => {
            lemma_items_render_monoline(es, es.len() as int, indent);
        },
        _ => {
        },
    }
}

proof fn lemma_items_render_monoline(es: Seq<SExpV>, n: int, indent: int)
    ensures
        items_mono(es, n, indent) == mono_text_items(es, n),
    decreases es, n,
{
    if 0 < n <= es.len() {
        lemma_items_render_monoline(es, n - 1, indent);
        lemma_fits_renders_monoline(es[n - 1], None, indent);
    }
}

/// A string atom's scanned span holds no line break.
proof fn lemma_string_span_clean(t: Seq<char>, j: int)
    requires
        0 <= j <= t.len(),
    ensures
        crate::parser::string_end(t, j) matches Some(e) ==> forall|k: int|
            j <= k <= e ==> t[k] != '\n' && t[k] != '\r',
    decreases t.len() - j,
{
    crate::parser::lemma_string_end(t, j);
    if j < t.len() {
        if j + 1 < t.len() && t[j] == '\\' && t[j + 1] == '"' {
            lemma_string_span_clean(t, j + 2);
        } else if t[j] == '"' {
        } else if t[j] != '\n' && t[j] != '\r' {
            lemma_string_span_clean(t, j + 1);
        }
    }
}

/// The single-line text of a well-formed tree holds no line break: nothing
/// in it can put one there.
pub proof fn lemma_mono_text_clean(v: SExpV)
    requires
        crate::parser::parsed_wf(v),
    ensures
        forall|i: int| 0 <= i < mono_text(v).len() ==> #[trigger] mono_text(v)[i] != '\n',
    decreases v, 1int,
{
    match v {
        SExpV::Atom(t) => {
            assert(mono_text(v) == t);
            if t.len() >= 2 && t[0] == '"' && crate::parser::string_end(t, 1) == Some(
                t.len() - 1,
            ) {
                lemma_string_span_clean(t, 1);
                assert forall|i: int| 0 <= i < mono_text(v).len() implies #[trigger] mono_text(
                    v,
                )[i] != '\n' by {
                    if i == 0 {
                        assert(t[0] == '"');
                    } else {
                        assert(t[i] != '\n');
                    }
                };
            } else {
                assert forall|i: int| 0 <= i < mono_text(v).len() implies #[trigger] mono_text(
                    v,
                )[i] != '\n' by {
                    assert(crate::parser::is_atom_char(t[i]));
                };
            }
        },
        SExpV::List(es, st) => {
            lemma_mono_items_clean(es, es.len() as int);
            let inner = mono_text_items(es, es.len() as int);
            assert forall|i: int| 0 <= i < mono_text(v).len() implies #[trigger] mono_text(v)[i]
                != '\n' by {
                assert(mono_text(v) == seq![open_char(st)] + inner + seq![close_char(st)]);
                if 1 <= i <= inner.len() {
                    assert(mono_text(v)[i] == inner[i - 1]);
                }
            };
        },
        SExpV::Null(_) => {
        },
    }
}

proof fn lemma_mono_items_clean(es: Seq<SExpV>, n: int)
    requires
        forall|k: int| 0 <= k < es.len() ==> crate::parser::parsed_wf(#[trigger] es[k]),
    ensures
        forall|i: int|
            0 <= i < mono_text_items(es, n).len() ==> #[trigger] mono_text_items(es, n)[i]
                != '\n',
    decreases es, n,
{
    if 0 < n <= es.len() {
        lemma_mono_items_clean(es, n - 1);
        lemma_mono_text_clean(es[n - 1]);
        let t = mono_text(es[n - 1]);
        if n == 1 {
            assert(mono_text_items(es, n) == t);
        } else {
            let a = mono_text_items(es, n - 1);
            assert forall|i: int| 0 <= i < mono_text_items(es, n).len() implies #[trigger]
            mono_text_items(es, n)[i] != '\n' by {
                assert(mono_text_items(es, n) == a + seq![' '] + t);
                if i < a.len() {
                    assert(mono_text_items(es, n)[i] == a[i]);
                } else if i == a.len() {
                    assert(mono_text_items(es, n)[i] == ' ');
                } else {
                    assert(mono_text_items(es, n)[i] == t[i - a.len() - 1]);
                }
            };
        }
    }
}

/// The printer never breaks a list that fits: if a well-formed tree's
/// single-line width is within the budget, its rendered text is its
/// single-line text and contains no line break.
pub proof fn lemma_monoline_fits_unbroken(v: SExpV, b: int, indent: int)
    requires
        crate::parser::parsed_wf(v),
        mono_width(v) <= b,
    ensures
        spec_render_b(v, Some(b), indent) == mono_text(v),
        forall|i: int|
            0 <= i < spec_render_b(v, Some(b), indent).len() ==> #[trigger] spec_render_b(
                v,
                Some(b),
                indent,
            )[i] != '\n',
{
    lemma_fits_renders_monoline(v, Some(b), indent);
    lemma_mono_text_clean(v);
}

/// The elements from `k` on, each on its own line: the front-first reading
/// of `items_multi`.
pub open spec fn multi_from(es: Seq<SExpV>, k: int, rb: int, indent: int) -> Seq<char>
    decreases es.len() - k,
{
    if k < 0 || k >= es.len() {
        Seq::empty()
    } else if k == es.len() - 1 {
        spec_render_b(es[k], Some(rb), indent)
    } else {
        spec_render_b(es[k], Some(rb), indent) + seq!['\n'] + spaces(indent) + multi_from(
            es,
            k + 1,
            rb,
            indent,
        )
    }
}

/// Splitting the multiline element block after the first `k` elements:
/// between any element and the next stand exactly one newline and the
/// indentation.
pub proof fn lemma_multi_decomp(es: Seq<SExpV>, k: int, rb: int, indent: int)
    requires
        1 <= k <= es.len(),
    ensures
        items_multi(es, es.len() as int, rb, indent) == items_multi(es, k, rb, indent) + (if k
            < es.len() {
            seq!['\n'] + spaces(indent) + multi_from(es, k, rb, indent)
        } else {
            Seq::empty()
        }),
    decreases es.len() - k,
{
    if k == es.len() {
        assert(items_multi(es, k, rb, indent) + Seq::<char>::empty() =~= items_multi(
            es,
            k,
            rb,
            indent,
        ));
    } else {
        lemma_multi_decomp(es, k + 1, rb, indent);
        assert(items_multi(es, k + 1, rb, indent) == items_multi(es, k, rb, indent) + seq![
            '\n',
        ] + spaces(indent) + spec_render_b(es[k], Some(rb), indent));
        if k + 1 < es.len() {
            assert(items_multi(es, k, rb, indent) + (seq!['\n'] + spaces(indent) + multi_from(
                es,
                k,
                rb,
                indent,
            )) =~= (items_multi(es, k, rb, indent) + seq!['\n'] + spaces(indent)
                + spec_render_b(es[k], Some(rb), indent)) + (seq!['\n'] + spaces(indent)
                + multi_from(es, k + 1, rb, indent)));
        } else {
            assert(items_multi(es, k, rb, indent) + (seq!['\n'] + spaces(indent) + multi_from(
                es,
                k,
                rb,
                indent,
            )) =~= items_multi(es, k + 1, rb, indent) + Seq::<char>::empty());
            assert(items_multi(es, k + 1, rb, indent) + Seq::<char>::empty() =~= items_multi(
                es,
                k + 1,
                rb,
                indent,
            ));
        }
    }
}

/// A list wider than its budget breaks: its text is the opening bookend
/// (with padding when the first element itself breaks), then every element
/// on its own line at `indent + 2` — after the first `k` elements, for any
/// split point `k`, exactly one newline and the indentation separate the
/// elements — then padding and the closing bookend.
pub proof fn lemma_overwide_list_breaks(es: Seq<SExpV>, st: SExpBookendStyle, b: int, indent: int)
    requires
        mono_width(SExpV::List(es, st)) > b,
        es.len() >= 1,
    ensures
        ({
            let rb = reduced(b);
            let pad: Seq<char> = if child_multiline(es[0], rb) {
                seq![' ']
            } else {
                Seq::empty()
            };
            &&& spec_render_b(SExpV::List(es, st), Some(b), indent) == seq![open_char(st)] + pad
                + items_multi(es, es.len() as int, rb, indent + 2) + pad + seq![close_char(st)]
            &&& forall|k: int|
                1 <= k < es.len() ==> items_multi(es, es.len() as int, rb, indent + 2)
                    == #[trigger] items_multi(es, k, rb, indent + 2) + seq!['\n'] + spaces(
                    indent + 2,
                ) + multi_from(es, k, rb, indent + 2)
        }),
{
    let rb = reduced(b);
    assert forall|k: int| 1 <= k < es.len() implies items_multi(
        es,
        es.len() as int,
        rb,
        indent + 2,
    ) == #[trigger] items_multi(es, k, rb, indent + 2) + seq!['\n'] + spaces(indent + 2)
        + multi_from(es, k, rb, indent + 2) by {
        lemma_multi_decomp(es, k, rb, indent + 2);
        assert(items_multi(es, k, rb, indent + 2) + (seq!['\n'] + spaces(indent + 2)
            + multi_from(es, k, rb, indent + 2)) =~= items_multi(es, k, rb, indent + 2) + seq![
            '\n',
        ] + spaces(indent + 2) + multi_from(es, k, rb, indent + 2));
    };
}

/// Parses one pre-extracted form (or a whole document) and lays the trees
/// out against the default margin: what the formatting filter does for each
/// form it reads. A successful parse always renders — the printer cannot
/// fail on a tree the parser built.
pub fn format_form(text: String, form_position: crate::error::Loc) -> (r: Result<
    String,
    crate::error::SexpfmtError,
>)
    requires
        text@.len() + 4 <= usize::MAX,
        form_position.offset + text@.len() <= usize::MAX,
        form_position.line + text@.len() <= usize::MAX,
        form_position.column + text@.len() <= usize::MAX,
    ensures
        match r {
            Ok(out) => crate::parser::spec_parse_file(text@).1 == text@.len() && out@
                == spec_render_forms(
                crate::parser::spec_parse_file(text@).0,
                MARGIN_WIDTH as int,
                crate::parser::spec_parse_file(text@).0.len() as int,
            ),
            Err(e) => crate::parser::parse_form_spec(text@, form_position, Err(e)),
        },
{
    let ghost t = text@;
    match crate::parser::parse_form(text, form_position) {
        Ok(es) => {
            proof {
                crate::parser::lemma_parse_file_wf(t);
                crate::sexp::lemma_views_of(es);
                assert forall|i: int| 0 <= i < es@.len() implies 2 * sexp_height(
                    #[trigger] es@[i]@,
                ) + 2 <= usize::MAX by {
                    assert(es@[i]@ == crate::parser::spec_parse_file(t).0[i]);
                };
            }
            Ok(print_sexp(es))
        },
        Err(e) => Err(e),
    }
}

/// Renders every form at the default margin width.
pub fn print_sexp(sexp_vec: Vec<SExp>) -> (out: String)
    requires
        forall|i: int|
            0 <= i < sexp_vec@.len() ==> 2 * sexp_height(#[trigger] sexp_vec@[i]@) + 2
                <= usize::MAX,
    ensures
        out@ == spec_render_forms(views_of(sexp_vec), MARGIN_WIDTH as int, sexp_vec@.len() as int),
{
    render(&sexp_vec, MARGIN_WIDTH)
}

} // verus!
