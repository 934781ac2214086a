//! Agreement of the full strategies: a term has at most one normal form.
//!
//! The proof goes by parallel reduction and complete developments. A
//! parallel step contracts any number of the redexes of a term at once; the
//! complete development of a term contracts all of them. Whatever a
//! parallel step makes of a term, one more parallel step leads from there
//! to the complete development.

use vstd::prelude::*;
use crate::evaluate::Strategy;
use crate::model::IndexTerm;
use crate::term::Term;

verus! {

impl IndexTerm {
    /// `t` comes from the term by contracting some of its redexes at once.
    pub open spec fn par(self, t: IndexTerm) -> bool
        decreases self,
    {
        match self {
            IndexTerm::Var(_) => t == self,
            IndexTerm::Abs(h, b) => match t {
                IndexTerm::Abs(h2, b2) => h2 == h && b.par(*b2),
                _ => false,
            },
            IndexTerm::App(f, a) => {
                ||| match t {
                    IndexTerm::App(f2, a2) => f.par(*f2) && a.par(*a2),
                    _ => false,
                }
                ||| match *f {
                    IndexTerm::Abs(_, b) => exists|b2: IndexTerm, a2: IndexTerm|
                        #![trigger b2.instantiate(a2, 0)]
                        b.par(b2) && a.par(a2) && t == b2.instantiate(a2, 0),
                    _ => false,
                }
            },
        }
    }

    /// The term with all of its redexes contracted at once.
    pub open spec fn develop(self) -> IndexTerm
        decreases self,
    {
        match self {
            IndexTerm::Var(_) => self,
            IndexTerm::Abs(h, b) => IndexTerm::Abs(h, Box::new(b.develop())),
            IndexTerm::App(f, a) => match *f {
                IndexTerm::Abs(_, b) => b.develop().instantiate(a.develop(), 0),
                _ => IndexTerm::App(Box::new(f.develop()), Box::new(a.develop())),
            },
        }
    }

    /// The complete development taken `n` times over.
    pub open spec fn develop_n(self, n: nat) -> IndexTerm
        decreases n,
    {
        if n == 0 {
            self
        } else {
            self.develop().develop_n((n - 1) as nat)
        }
    }

    /// The term holds no redex.
    pub open spec fn beta_normal(self) -> bool
        decreases self,
    {
        match self {
            IndexTerm::Var(_) => true,
            IndexTerm::Abs(_, b) => b.beta_normal(),
            IndexTerm::App(f, a) => !(*f is Abs) && f.beta_normal() && a.beta_normal(),
        }
    }

    /// A shift on top of a shift, with its cutoff within the reach of the
    /// first, is one shift.
    pub proof fn lemma_shift_merge(self, c: int, j: int, i: int, k: int)
        requires
            c >= 0,
            j <= k <= j + c,
        ensures
            self.shift(c, j).shift(i, k) == self.shift(c + i, j),
        decreases self,
    {
        match self {
            IndexTerm::Var(_) => {},
            IndexTerm::Abs(_, b) => { b.lemma_shift_merge(c, j + 1, i, k + 1); },
            IndexTerm::App(f, a) => {
                f.lemma_shift_merge(c, j, i, k);
                a.lemma_shift_merge(c, j, i, k);
            },
        }
    }

    /// Two raising shifts change places when the cutoff of the outer one
    /// moves with the inner one.
    pub proof fn lemma_shift_commute(self, d1: int, j: int, d2: int, k: int)
        requires
            d1 >= 0,
            d2 >= 0,
            j <= k,
        ensures
            self.shift(d1, j).shift(d2, k + d1) == self.shift(d2, k).shift(d1, j),
        decreases self,
    {
        match self {
            IndexTerm::Var(_) => {},
            IndexTerm::Abs(_, b) => { b.lemma_shift_commute(d1, j + 1, d2, k + 1); },
            IndexTerm::App(f, a) => {
                f.lemma_shift_commute(d1, j, d2, k);
                a.lemma_shift_commute(d1, j, d2, k);
            },
        }
    }

    /// Raising below the point of instantiation, then instantiating that
    /// much higher, is instantiating and then raising.
    pub proof fn lemma_shift_then_instantiate(self, i: int, k: int, u: IndexTerm, c: int)
        requires
            i >= 0,
            0 <= k <= c,
        ensures
            self.shift(i, k).instantiate(u, c + i) == self.instantiate(u, c).shift(i, k),
        decreases self,
    {
        match self {
            IndexTerm::Var(x) => {
                if x == c {
                    u.lemma_shift_merge(c, 0, i, k);
                }
            },
            IndexTerm::Abs(_, b) => { b.lemma_shift_then_instantiate(i, k + 1, u, c + 1); },
            IndexTerm::App(f, a) => {
                f.lemma_shift_then_instantiate(i, k, u, c);
                a.lemma_shift_then_instantiate(i, k, u, c);
            },
        }
    }

    /// Instantiating and then raising above the point of instantiation is
    /// raising one higher and instantiating with the raised argument.
    pub proof fn lemma_instantiate_then_shift(self, arg: IndexTerm, i: int, d: int, k: int)
        requires
            i >= 0,
            k >= 0,
            d >= 0,
        ensures
            self.instantiate(arg, i).shift(d, k + i) == self.shift(d, k + i + 1).instantiate(
                arg.shift(d, k),
                i,
            ),
        decreases self,
    {
        match self {
            IndexTerm::Var(x) => {
                if x == i {
                    arg.lemma_shift_commute(i, 0, d, k);
                }
            },
            IndexTerm::Abs(_, b) => { b.lemma_instantiate_then_shift(arg, i + 1, d, k); },
            IndexTerm::App(f, a) => {
                f.lemma_instantiate_then_shift(arg, i, d, k);
                a.lemma_instantiate_then_shift(arg, i, d, k);
            },
        }
    }

    /// A term raised over the point of instantiation does not hold the
    /// variable: instantiating only lowers it by one.
    pub proof fn lemma_shift_cancel(self, n: int, k: int, w: IndexTerm, i: int)
        requires
            0 <= i <= n,
        ensures
            self.shift(n + 1, k).instantiate(w, i + k) == self.shift(n, k),
        decreases self,
    {
        match self {
            IndexTerm::Var(_) => {},
            IndexTerm::Abs(_, b) => { b.lemma_shift_cancel(n, k + 1, w, i); },
            IndexTerm::App(f, a) => {
                f.lemma_shift_cancel(n, k, w, i);
                a.lemma_shift_cancel(n, k, w, i);
            },
        }
    }

    /// Two instantiations change places: the outer one moves one binder up
    /// and reaches into the argument of the inner one.
    pub proof fn lemma_instantiate_twice(self, v: IndexTerm, i: int, u: IndexTerm, c: int)
        requires
            i >= 0,
            c >= 0,
        ensures
            self.instantiate(v, i).instantiate(u, c + i) == self.instantiate(
                u,
                c + i + 1,
            ).instantiate(v.instantiate(u, c), i),
        decreases self,
    {
        match self {
            IndexTerm::Var(x) => {
                if x == i {
                    v.lemma_shift_then_instantiate(i, 0, u, c);
                } else if x == c + i + 1 {
                    u.lemma_shift_cancel(c + i, 0, v.instantiate(u, c), i);
                }
            },
            IndexTerm::Abs(_, b) => { b.lemma_instantiate_twice(v, i + 1, u, c); },
            IndexTerm::App(f, a) => {
                f.lemma_instantiate_twice(v, i, u, c);
                a.lemma_instantiate_twice(v, i, u, c);
            },
        }
    }

    /// Contracting no redex is a parallel step.
    pub proof fn lemma_par_reflexive(self)
        ensures
            self.par(self),
        decreases self,
    {
        match self {
            IndexTerm::Var(_) => {},
            IndexTerm::Abs(_, b) => { b.lemma_par_reflexive(); },
            IndexTerm::App(f, a) => {
                f.lemma_par_reflexive();
                a.lemma_par_reflexive();
            },
        }
    }

    /// Contracting the redex at the root, after parallel steps in the body
    /// and the argument, is a parallel step.
    pub proof fn lemma_par_beta(h: int, b: IndexTerm, a: IndexTerm, b2: IndexTerm, a2: IndexTerm)
        requires
            b.par(b2),
            a.par(a2),
        ensures
            IndexTerm::App(Box::new(IndexTerm::Abs(h, Box::new(b))), Box::new(a)).par(
                b2.instantiate(a2, 0),
            ),
    {
    }

    /// Parallel steps go through raising shifts.
    pub proof fn lemma_par_shift(self, t: IndexTerm, d: int, k: int)
        requires
            self.par(t),
            d >= 0,
            k >= 0,
        ensures
            self.shift(d, k).par(t.shift(d, k)),
        decreases self,
    {
        match self {
            IndexTerm::Var(_) => {},
            IndexTerm::Abs(_, b) => { b.lemma_par_shift(*t->Abs_1, d, k + 1); },
            IndexTerm::App(f, a) => {
                match *f {
                    IndexTerm::Abs(h, b) => {
                        if exists|b2: IndexTerm, a2: IndexTerm|
                            #![trigger b2.instantiate(a2, 0)]
                            b.par(b2) && a.par(a2) && t == b2.instantiate(a2, 0) {
                            let (b2, a2) = choose|b2: IndexTerm, a2: IndexTerm|
                                #![trigger b2.instantiate(a2, 0)]
                                b.par(b2) && a.par(a2) && t == b2.instantiate(a2, 0);
                            b.lemma_par_shift(b2, d, k + 1);
                            a.lemma_par_shift(a2, d, k);
                            b2.lemma_instantiate_then_shift(a2, 0, d, k);
                            Self::lemma_par_beta(
                                h,
                                b.shift(d, k + 1),
                                a.shift(d, k),
                                b2.shift(d, k + 1),
                                a2.shift(d, k),
                            );
                            assert(f.shift(d, k) == IndexTerm::Abs(h, Box::new(b.shift(d, k + 1))));
                        } else {
                            f.lemma_par_shift(*t->App_0, d, k);
                            a.lemma_par_shift(*t->App_1, d, k);
                        }
                    },
                    _ => {
                        f.lemma_par_shift(*t->App_0, d, k);
                        a.lemma_par_shift(*t->App_1, d, k);
                    },
                }
            },
        }
    }

    /// Parallel steps go through instantiation, in the body and in the
    /// argument at once.
    pub proof fn lemma_par_instantiate(self, t: IndexTerm, arg: IndexTerm, arg2: IndexTerm, c: int)
        requires
            self.par(t),
            arg.par(arg2),
            c >= 0,
        ensures
            self.instantiate(arg, c).par(t.instantiate(arg2, c)),
        decreases self,
    {
        match self {
            IndexTerm::Var(x) => {
                if x == c {
                    arg.lemma_par_shift(arg2, c, 0);
                } else {
                    self.instantiate(arg, c).lemma_par_reflexive();
                }
            },
            IndexTerm::Abs(_, b) => { b.lemma_par_instantiate(*t->Abs_1, arg, arg2, c + 1); },
            IndexTerm::App(f, a) => {
                match *f {
                    IndexTerm::Abs(h, b) => {
                        if exists|b2: IndexTerm, a2: IndexTerm|
                            #![trigger b2.instantiate(a2, 0)]
                            b.par(b2) && a.par(a2) && t == b2.instantiate(a2, 0) {
                            let (b2, a2) = choose|b2: IndexTerm, a2: IndexTerm|
                                #![trigger b2.instantiate(a2, 0)]
                                b.par(b2) && a.par(a2) && t == b2.instantiate(a2, 0);
                            b.lemma_par_instantiate(b2, arg, arg2, c + 1);
                            a.lemma_par_instantiate(a2, arg, arg2, c);
                            b2.lemma_instantiate_twice(a2, 0, arg2, c);
                            Self::lemma_par_beta(
                                h,
                                b.instantiate(arg, c + 1),
                                a.instantiate(arg, c),
                                b2.instantiate(arg2, c + 1),
                                a2.instantiate(arg2, c),
                            );
                            assert(f.instantiate(arg, c) == IndexTerm::Abs(
                                h,
                                Box::new(b.instantiate(arg, c + 1)),
                            ));
                        } else {
                            f.lemma_par_instantiate(*t->App_0, arg, arg2, c);
                            a.lemma_par_instantiate(*t->App_1, arg, arg2, c);
                        }
                    },
                    _ => {
                        f.lemma_par_instantiate(*t->App_0, arg, arg2, c);
                        a.lemma_par_instantiate(*t->App_1, arg, arg2, c);
                    },
                }
            },
        }
    }

    /// Whatever a parallel step makes of a term, a parallel step leads from
    /// there to the complete development of the term.
    pub proof fn lemma_par_develop(self, t: IndexTerm)
        requires
            self.par(t),
        ensures
            t.par(self.develop()),
        decreases self,
    {
        match self {
            IndexTerm::Var(_) => {},
            IndexTerm::Abs(_, b) => { b.lemma_par_develop(*t->Abs_1); },
            IndexTerm::App(f, a) => {
                match *f {
                    IndexTerm::Abs(h, b) => {
                        if exists|b2: IndexTerm, a2: IndexTerm|
                            #![trigger b2.instantiate(a2, 0)]
                            b.par(b2) && a.par(a2) && t == b2.instantiate(a2, 0) {
                            let (b2, a2) = choose|b2: IndexTerm, a2: IndexTerm|
                                #![trigger b2.instantiate(a2, 0)]
                                b.par(b2) && a.par(a2) && t == b2.instantiate(a2, 0);
                            b.lemma_par_develop(b2);
                            a.lemma_par_develop(a2);
                            b2.lemma_par_instantiate(b.develop(), a2, a.develop(), 0);
                        } else {
                            let f2 = *t->App_0;
                            let a2 = *t->App_1;
                            let b2 = *f2->Abs_1;
                            assert(f.par(f2));
                            b.lemma_par_develop(b2);
                            a.lemma_par_develop(a2);
                            Self::lemma_par_beta(h, b2, a2, b.develop(), a.develop());
                        }
                    },
                    _ => {
                        f.lemma_par_develop(*t->App_0);
                        a.lemma_par_develop(*t->App_1);
                    },
                }
            },
        }
    }

    /// Complete development keeps parallel steps.
    pub proof fn lemma_develop_monotone(self, t: IndexTerm, n: nat)
        requires
            self.par(t),
        ensures
            self.develop_n(n).par(t.develop_n(n)),
        decreases n,
    {
        if n > 0 {
            self.lemma_par_develop(t);
            t.lemma_par_develop(self.develop());
            self.develop().lemma_develop_monotone(t.develop(), (n - 1) as nat);
        }
    }

    /// A parallel step cannot change a term without a redex.
    pub proof fn lemma_normal_par(self, t: IndexTerm)
        requires
            self.beta_normal(),
            self.par(t),
        ensures
            t == self,
        decreases self,
    {
        match self {
            IndexTerm::Var(_) => {},
            IndexTerm::Abs(_, b) => { b.lemma_normal_par(*t->Abs_1); },
            IndexTerm::App(f, a) => {
                f.lemma_normal_par(*t->App_0);
                a.lemma_normal_par(*t->App_1);
            },
        }
    }

    /// Reduction under a full strategy ends exactly on the terms without a
    /// redex.
    pub proof fn lemma_full_normal(self, strategy: Strategy)
        requires
            strategy.under_binders(),
        ensures
            self.is_normal(strategy) == self.beta_normal(),
        decreases self,
    {
        match self {
            IndexTerm::Var(_) => {},
            IndexTerm::Abs(_, b) => { b.lemma_full_normal(strategy); },
            IndexTerm::App(f, a) => {
                f.lemma_full_normal(strategy);
                a.lemma_full_normal(strategy);
            },
        }
    }

    /// A step of any strategy is a parallel step.
    pub proof fn lemma_step_par(self, strategy: Strategy)
        ensures
            self.par(self.next(strategy)),
        decreases self,
    {
        self.lemma_par_reflexive();
        match self {
            IndexTerm::Var(_) => {},
            IndexTerm::Abs(_, b) => { b.lemma_step_par(strategy); },
            IndexTerm::App(f, a) => {
                f.lemma_step_par(strategy);
                a.lemma_step_par(strategy);
                f.lemma_par_reflexive();
                a.lemma_par_reflexive();
                self.lemma_beta_is_instantiate();
                match *f {
                    IndexTerm::Abs(h, b) => {
                        b.lemma_par_reflexive();
                        Self::lemma_par_beta(h, *b, *a, *b, *a);
                    },
                    _ => {},
                }
            },
        }
    }

    /// Where `n` steps of a full strategy end on a term without a redex,
    /// that term is the `n`-fold complete development.
    pub proof fn lemma_run_develop(self, strategy: Strategy, n: nat)
        requires
            strategy.under_binders(),
            self.halts_within(strategy, n),
        ensures
            self.develop_n(n) == self.run(strategy, n),
        decreases n,
    {
        if n > 0 {
            let m = (n - 1) as nat;
            let next = self.next(strategy);
            next.lemma_run_develop(strategy, m);
            self.lemma_step_par(strategy);
            self.lemma_par_develop(next);
            next.lemma_develop_monotone(self.develop(), m);
            next.run(strategy, m).lemma_full_normal(strategy);
            next.run(strategy, m).lemma_normal_par(self.develop().develop_n(m));
        }
    }
}

/// A term that both full strategies bring to an end has one normal form:
/// normal order and applicative order end on the same term, binder hints
/// included, so that the two results are written alike.
pub proof fn law_full_strategies_agree(t: IndexTerm)
    requires
        t.normalizes(Strategy::NormalOrder),
        t.normalizes(Strategy::ApplicativeOrder),
    ensures
        t.normal_form(Strategy::NormalOrder) == t.normal_form(Strategy::ApplicativeOrder),
{
    let n1 = choose|n: nat| t.halts_within(Strategy::NormalOrder, n);
    let n2 = choose|n: nat| t.halts_within(Strategy::ApplicativeOrder, n);
    let n = if n1 >= n2 { n1 } else { n2 };
    t.lemma_run_stable(Strategy::NormalOrder, n1, n);
    t.lemma_run_stable(Strategy::ApplicativeOrder, n2, n);
    t.lemma_run_develop(Strategy::NormalOrder, n);
    t.lemma_run_develop(Strategy::ApplicativeOrder, n);
}

/// A named term that both full strategies bring to an end has one value:
/// reduced in normal order or in applicative order, it is written the same.
pub proof fn law_full_strategies_agree_on_names(t: Term)
    requires
        t.index_form().normalizes(Strategy::NormalOrder),
        t.index_form().normalizes(Strategy::ApplicativeOrder),
    ensures
        t.index_form().normal_form(Strategy::NormalOrder).named_form() == t.index_form().normal_form(
            Strategy::ApplicativeOrder,
        ).named_form(),
{
    law_full_strategies_agree(t.index_form());
}

} // verus!
