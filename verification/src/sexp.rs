//! The s-expression tree: atoms, non-empty lists, and explicit empty lists,
//! each list remembering which of the three bracket kinds enclosed it.

use vstd::prelude::*;

verus! {

/// Which of the three bracket kinds delimits a list.
#[derive(Clone, Copy, Debug, PartialEq, Eq, Structural)]
pub enum SExpBookendStyle {
    Parentheses,
    SquareBrackets,
    CurlyBraces,
}

/// One parsed form. A `List` is never empty: an empty pair of bookends is
/// always `Null`, which keeps the bookend style even when there is no content.
#[derive(Debug, PartialEq, Eq)]
pub enum SExp {
    List(Vec<SExp>, SExpBookendStyle),
    Atom(String),
    Null(SExpBookendStyle),
}

/// The mathematical shape of an `SExp`: atom text as a sequence of characters,
/// list elements as a sequence of shapes.
pub enum SExpV {
    List(Seq<SExpV>, SExpBookendStyle),
    Atom(Seq<char>),
    Null(SExpBookendStyle),
}

/// The shape of one tree.
pub open spec fn sexp_view(e: SExp) -> SExpV
    decreases e, 0int,
{
    match e {
        SExp::Atom(s) => SExpV::Atom(s@),
        SExp::List(es, st) => SExpV::List(views_prefix(es, es@.len() as int), st),
        SExp::Null(st) => SExpV::Null(st),
    }
}

/// The shapes of the first `n` trees of `es`, in order.
pub open spec fn views_prefix(es: Vec<SExp>, n: int) -> Seq<SExpV>
    decreases es, n,
{
    if n <= 0 || n > es@.len() {
        Seq::empty()
    } else {
        views_prefix(es, n - 1).push(sexp_view(es[n - 1]))
    }
}

/// The shapes of all trees of `es`, in order.
pub open spec fn views_of(es: Vec<SExp>) -> Seq<SExpV> {
    views_prefix(es, es@.len() as int)
}

impl View for SExp {
    type V = SExpV;

    open spec fn view(&self) -> SExpV {
        sexp_view(*self)
    }
}

pub proof fn lemma_views_prefix(es: Vec<SExp>, n: int)
    requires
        0 <= n <= es@.len(),
    ensures
        views_prefix(es, n).len() == n,
        forall|i: int| 0 <= i < n ==> views_prefix(es, n)[i] == es@[i]@,
    decreases n,
{
    if n > 0 {
        lemma_views_prefix(es, n - 1);
    }
}

/// `views_prefix` depends only on the trees a vector holds, not on the
/// vector value itself.
pub proof fn lemma_views_prefix_congruent(a: Vec<SExp>, b: Vec<SExp>, n: int)
    requires
        n <= a@.len(),
        n <= b@.len(),
        forall|k: int| 0 <= k < n ==> a@[k] == b@[k],
    ensures
        views_prefix(a, n) == views_prefix(b, n),
    decreases n,
{
    if n > 0 {
        lemma_views_prefix_congruent(a, b, n - 1);
    }
}

/// Pushing one tree onto a vector pushes its shape onto the vector's shapes.
pub proof fn lemma_views_of_push(a: Vec<SExp>, b: Vec<SExp>, x: SExp)
    requires
        b@ == a@.push(x),
    ensures
        views_of(b) == views_of(a).push(x@),
{
    lemma_views_prefix_congruent(a, b, a@.len() as int);
    assert(b@[b@.len() - 1] == x);
    assert(views_of(b) == views_prefix(b, a@.len() as int).push(sexp_view(x)));
}

pub proof fn lemma_views_of(es: Vec<SExp>)
    ensures
        views_of(es).len() == es@.len(),
        forall|i: int| 0 <= i < es@.len() ==> views_of(es)[i] == es@[i]@,
{
    lemma_views_prefix(es, es@.len() as int);
}

impl Clone for SExp {
    fn clone(&self) -> (r: Self)
        ensures
            r@ == self@,
    {
        clone_sexp(self)
    }
}

fn clone_sexp(e: &SExp) -> (r: SExp)
    ensures
        r@ == e@,
    decreases *e, 0int,
{
    match e {
        SExp::Atom(s) => SExp::Atom(s.clone()),
        SExp::Null(st) => SExp::Null(*st),
        SExp::List(es, st) => {
            let out = clone_sexp_vec(es);
            proof {
                lemma_views_prefix(out, out@.len() as int);
                lemma_views_prefix(*es, es@.len() as int);
                assert(views_of(out) =~= views_of(*es));
            }
            SExp::List(out, *st)
        },
    }
}

fn clone_sexp_vec(es: &Vec<SExp>) -> (r: Vec<SExp>)
    ensures
        r@.len() == es@.len(),
        forall|j: int| 0 <= j < es@.len() ==> r@[j]@ == es@[j]@,
    decreases *es, 1int,
{
    let mut out: Vec<SExp> = Vec::new();
    let mut i: usize = 0;
    while i < es.len()
        invariant
            i <= es@.len(),
            out@.len() == i,
            forall|j: int| 0 <= j < i ==> out@[j]@ == es@[j]@,
        decreases es@.len() - i,
    {
        out.push(clone_sexp(&es[i]));
        i = i + 1;
    }
    out
}

/// The structural invariant the parser establishes and the printer relies on:
/// a `List` never has zero elements.
pub open spec fn no_empty_lists(v: SExpV) -> bool
    decreases v,
{
    match v {
        SExpV::Atom(_) => true,
        SExpV::List(es, _) => es.len() >= 1 && (forall|i: int|
            0 <= i < es.len() ==> #[trigger] no_empty_lists(es[i])),
        SExpV::Null(_) => true,
    }
}

/// The opening bracket character of a style.
pub open spec fn open_char(st: SExpBookendStyle) -> char {
    match st {
        SExpBookendStyle::Parentheses => '(',
        SExpBookendStyle::SquareBrackets => '[',
        SExpBookendStyle::CurlyBraces => '{',
    }
}

/// The closing bracket character of a style.
pub open spec fn close_char(st: SExpBookendStyle) -> char {
    match st {
        SExpBookendStyle::Parentheses => ')',
        SExpBookendStyle::SquareBrackets => ']',
        SExpBookendStyle::CurlyBraces => '}',
    }
}

/// How many levels of lists stand above a leaf; used to bound the printer's
/// indentation arithmetic.
pub open spec fn sexp_height(v: SExpV) -> nat
    decreases v, 0int,
{
    match v {
        SExpV::Atom(_) => 1,
        SExpV::List(es, _) => 1 + heights_max(es, es.len() as int),
        SExpV::Null(_) => 1,
    }
}

/// The greatest height among the first `n` elements of `es`.
pub open spec fn heights_max(es: Seq<SExpV>, n: int) -> nat
    decreases es, n,
{
    if n <= 0 || n > es.len() {
        0
    } else {
        let h = sexp_height(es[n - 1]);
        let m = heights_max(es, n - 1);
        if h > m {
            h
        } else {
            m
        }
    }
}

pub proof fn lemma_heights_max_le(es: Seq<SExpV>, n: int, hb2: int)
    requires
        0 <= n <= es.len(),
        forall|k: int| 0 <= k < n ==> 2 * sexp_height(#[trigger] es[k]) <= hb2,
    ensures
        2 * heights_max(es, n) <= (if n == 0 {
            0int
        } else {
            hb2
        }),
    decreases n,
{
    if n > 0 {
        lemma_heights_max_le(es, n - 1, hb2);
    }
}

pub proof fn lemma_heights_max(es: Seq<SExpV>, n: int)
    requires
        0 <= n <= es.len(),
    ensures
        forall|i: int| 0 <= i < n ==> #[trigger] sexp_height(es[i]) <= heights_max(es, n),
    decreases n,
{
    if n > 0 {
        lemma_heights_max(es, n - 1);
    }
}

} // verus!
