//! Laws of shifting, substitution, the beta step and the name resolver.

use vstd::prelude::*;
use crate::evaluate::Strategy;
use crate::model::IndexTerm;
use crate::term::{distance, lemma_distance_bound, name_at, name_index, Term, ALPHABET};

verus! {

impl IndexTerm {
    /// No free index of the term stands for one of the `k` nearest binders
    /// outside it: every index that points past the `c` binders crossed
    /// points at least `k` further.
    pub open spec fn free_from(self, k: int, c: int) -> bool
        decreases self,
    {
        match self {
            IndexTerm::Var(x) => x < c || x >= c + k,
            IndexTerm::Abs(_, b) => b.free_from(k, c + 1),
            IndexTerm::App(f, a) => f.free_from(k, c) && a.free_from(k, c),
        }
    }

    /// The variable that has index `y` at depth zero occurs in the term,
    /// read below `c` binders.
    pub open spec fn has_free(self, y: int, c: int) -> bool
        decreases self,
    {
        match self {
            IndexTerm::Var(x) => x == y + c,
            IndexTerm::Abs(_, b) => b.has_free(y, c + 1),
            IndexTerm::App(f, a) => f.has_free(y, c) || a.has_free(y, c),
        }
    }

    /// Two shifts at one cutoff add up, where the first does not lower a
    /// free index to below the cutoff.
    pub proof fn lemma_shift_shift(self, d1: int, d2: int, c: int)
        requires
            d1 >= 0 || d2 == 0 || self.free_from(-d1, c),
        ensures
            self.shift(d1, c).shift(d2, c) == self.shift(d1 + d2, c),
        decreases self,
    {
        match self {
            IndexTerm::Var(x) => {},
            IndexTerm::Abs(_, b) => { b.lemma_shift_shift(d1, d2, c + 1); },
            IndexTerm::App(f, a) => {
                f.lemma_shift_shift(d1, d2, c);
                a.lemma_shift_shift(d1, d2, c);
            },
        }
    }

    /// Substituting for a variable that does not occur changes nothing.
    pub proof fn lemma_subst_absent(self, y: int, s: IndexTerm, c: int)
        requires
            !self.has_free(y, c),
        ensures
            self.subst(y, s, c) == self,
        decreases self,
    {
        match self {
            IndexTerm::Var(x) => {},
            IndexTerm::Abs(_, b) => { b.lemma_subst_absent(y, s, c + 1); },
            IndexTerm::App(f, a) => {
                f.lemma_subst_absent(y, s, c);
                a.lemma_subst_absent(y, s, c);
            },
        }
    }
}

/// Shifting by `d1` and then by `d2` is shifting by `d1 + d2`.
///
/// This holds for every raising `d1`, whatever `d2` is. For a lowering `d1`
/// it holds as long as the first shift takes no free index down among the
/// bound ones, which is so when the `-d1` nearest binders outside the term
/// are not referred to; a second shift by zero is always harmless.
pub proof fn law_shift_shift(t: IndexTerm, d1: int, d2: int)
    requires
        d1 >= 0 || d2 == 0 || t.free_from(-d1, 0),
    ensures
        t.shift(d1, 0).shift(d2, 0) == t.shift(d1 + d2, 0),
{
    t.lemma_shift_shift(d1, d2, 0);
}

/// Substituting for an index that is not free in the term gives the term
/// back.
pub proof fn law_subst_absent(t: IndexTerm, y: int, s: IndexTerm)
    requires
        !t.has_free(y, 0),
    ensures
        t.subst(y, s, 0) == t,
{
    t.lemma_subst_absent(y, s, 0);
}

/// The beta step leaves every term but a redex as it is, and replaces a
/// redex by the body of its abstraction with the argument in place of the
/// bound variable: the redex at the root is gone, and nothing else was
/// contracted.
pub proof fn law_beta(t: IndexTerm)
    ensures
        !t.is_redex() ==> t.beta() == t,
        t.is_redex() ==> t.beta() == t->App_0->Abs_1.instantiate(*t->App_1, 0),
{
    t.lemma_beta_is_instantiate();
}

/// The weak strategies never reduce under a binder: to them an abstraction
/// is a term on which reduction has ended, whatever its body holds.
pub proof fn law_weak_head_stop(t: IndexTerm, strategy: Strategy)
    requires
        t is Abs,
        !strategy.under_binders(),
    ensures
        t.is_normal(strategy),
        t.normalizes(strategy),
        t.normal_form(strategy) == t,
{
    assert(t.halts_within(strategy, 0));
    t.lemma_normal_form(strategy, 0);
}

/// Reduction that has come to an end stays there: the normal form of a term
/// is its own normal form.
pub proof fn law_normal_form_is_final(t: IndexTerm, strategy: Strategy)
    requires
        t.normalizes(strategy),
    ensures
        t.normal_form(strategy).is_normal(strategy),
        t.normal_form(strategy).normalizes(strategy),
        t.normal_form(strategy).normal_form(strategy) == t.normal_form(strategy),
{
    let n = choose|n: nat| t.halts_within(strategy, n);
    t.lemma_normal_form(strategy, n);
    let nf = t.normal_form(strategy);
    assert(nf.halts_within(strategy, 0));
    nf.lemma_normal_form(strategy, 0);
}

/// Two named terms are equal up to the names of their binders, the first
/// read below the binders `xs` and the second below `ys`: bound variables
/// refer to binders at the same distance, free variables have the same name.
pub open spec fn alpha_eq(s: Term, xs: Seq<char>, t: Term, ys: Seq<char>) -> bool
    decreases s,
{
    match s {
        Term::Var(x) => match t {
            Term::Var(y) => match distance(xs, x) {
                Some(i) => distance(ys, y) == Some(i),
                None => distance(ys, y) is None && x == y,
            },
            _ => false,
        },
        Term::Abs(x, b) => match t {
            Term::Abs(y, c) => alpha_eq(*b, xs.push(x), *c, ys.push(y)),
            _ => false,
        },
        Term::App(f, a) => match t {
            Term::App(g, b) => alpha_eq(*f, xs, *g, ys) && alpha_eq(*a, xs, *b, ys),
            _ => false,
        },
    }
}

/// Two named terms are alpha-equivalent.
pub open spec fn alpha_equivalent(s: Term, t: Term) -> bool {
    alpha_eq(s, Seq::empty(), t, Seq::empty())
}

/// Every term is alpha-equivalent to itself, below any binders.
pub proof fn lemma_alpha_eq_reflexive(t: Term, xs: Seq<char>)
    ensures
        alpha_eq(t, xs, t, xs),
    decreases t,
{
    match t {
        Term::Var(_) => {},
        Term::Abs(x, b) => { lemma_alpha_eq_reflexive(*b, xs.push(x)); },
        Term::App(f, a) => {
            lemma_alpha_eq_reflexive(*f, xs);
            lemma_alpha_eq_reflexive(*a, xs);
        },
    }
}

/// Resolving a well-formed term below some binders and rendering the result
/// below the same binders gives the term back.
pub proof fn lemma_round_trip(t: Term, binders: Seq<char>)
    requires
        t.well_formed(),
    ensures
        t.resolve(binders).render(binders) == t,
    decreases t,
{
    match t {
        Term::Var(x) => {
            lemma_distance_bound(binders, x);
            assert(name_at(name_index(x)) == x);
        },
        Term::Abs(x, b) => {
            assert(name_at(name_index(x)) == x);
            lemma_round_trip(*b, binders.push(x));
        },
        Term::App(f, a) => {
            lemma_round_trip(*f, binders);
            lemma_round_trip(*a, binders);
        },
    }
}

/// Converting a well-formed named term to its index form and back gives a
/// term that is alpha-equivalent to it: indeed the very same term, binder
/// names included, since each binder's name travels as its hint.
pub proof fn law_round_trip(t: Term)
    requires
        t.well_formed(),
    ensures
        t.index_form().named_form() == t,
        alpha_equivalent(t.index_form().named_form(), t),
{
    lemma_round_trip(t, Seq::empty());
    lemma_alpha_eq_reflexive(t, Seq::empty());
}

impl IndexTerm {
    /// The term without its hints.
    pub open spec fn erase(self) -> IndexTerm
        decreases self,
    {
        match self {
            IndexTerm::Var(k) => IndexTerm::Var(k),
            IndexTerm::Abs(_, b) => IndexTerm::Abs(0, Box::new(b.erase())),
            IndexTerm::App(f, a) => IndexTerm::App(Box::new(f.erase()), Box::new(a.erase())),
        }
    }

    /// Written below the binders `binders`, every variable of the term
    /// reads as what it is: the name of a bound variable is not taken by a
    /// binder between the variable and its own, and the name of a free
    /// variable is not taken by any binder around it.
    pub open spec fn unambiguous(self, binders: Seq<char>) -> bool
        decreases self,
    {
        match self {
            IndexTerm::Var(k) => if 0 <= k < binders.len() {
                distance(binders, binders[binders.len() - 1 - k]) == Some(k)
            } else {
                distance(binders, name_at(k - binders.len() - 1)) is None
            },
            IndexTerm::Abs(h, b) => b.unambiguous(binders.push(name_at(h))),
            IndexTerm::App(f, a) => f.unambiguous(binders) && a.unambiguous(binders),
        }
    }
}

/// Two well-formed terms are equal up to the names of their binders just
/// when their index forms differ in hints at most.
pub proof fn lemma_alpha_eq_is_index_eq(s: Term, xs: Seq<char>, t: Term, ys: Seq<char>)
    requires
        s.well_formed(),
        t.well_formed(),
        xs.len() == ys.len(),
    ensures
        alpha_eq(s, xs, t, ys) <==> s.resolve(xs).erase() == t.resolve(ys).erase(),
    decreases s,
{
    match s {
        Term::Var(x) => match t {
            Term::Var(y) => {
                lemma_distance_bound(xs, x);
                lemma_distance_bound(ys, y);
                assert(name_at(name_index(x)) == x);
                assert(name_at(name_index(y)) == y);
            },
            _ => {},
        },
        Term::Abs(x, b) => match t {
            Term::Abs(y, c) => { lemma_alpha_eq_is_index_eq(*b, xs.push(x), *c, ys.push(y)); },
            _ => {},
        },
        Term::App(f, a) => match t {
            Term::App(g, b) => {
                lemma_alpha_eq_is_index_eq(*f, xs, *g, ys);
                lemma_alpha_eq_is_index_eq(*a, xs, *b, ys);
            },
            _ => {},
        },
    }
}

/// Alpha-equivalence is what the index form captures: two well-formed terms
/// are alpha-equivalent just when their index forms are the same but for
/// the hints.
pub proof fn law_alpha_equivalence(s: Term, t: Term)
    requires
        s.well_formed(),
        t.well_formed(),
    ensures
        alpha_equivalent(s, t) <==> s.index_form().erase() == t.index_form().erase(),
{
    lemma_alpha_eq_is_index_eq(s, Seq::empty(), t, Seq::empty());
}

/// Rendering a nameable term below some binders and resolving the result
/// below the same binders gives the term back, where the rendering is
/// unambiguous.
pub proof fn lemma_back_trip(d: IndexTerm, binders: Seq<char>)
    requires
        d.nameable(binders.len() as int, ALPHABET as int),
        d.unambiguous(binders),
    ensures
        d.render(binders).resolve(binders) == d,
    decreases d,
{
    match d {
        IndexTerm::Var(k) => {
            if k > binders.len() {
                assert(name_index(name_at(k - binders.len() - 1)) == k - binders.len() - 1);
            }
        },
        IndexTerm::Abs(h, b) => {
            assert(name_index(name_at(h)) == h);
            lemma_back_trip(*b, binders.push(name_at(h)));
        },
        IndexTerm::App(f, a) => {
            lemma_back_trip(*f, binders);
            lemma_back_trip(*a, binders);
        },
    }
}

/// Writing an index term with names and reading it again gives the term
/// back, as long as no name in the written term is taken by a binder that
/// stands between a variable and what it refers to.
pub proof fn law_back_trip(d: IndexTerm)
    requires
        d.nameable(0, ALPHABET as int),
        d.unambiguous(Seq::empty()),
    ensures
        d.named_form().index_form() == d,
{
    lemma_back_trip(d, Seq::empty());
}

} // verus!
