//! The mathematical model of index terms: de Bruijn terms over unbounded
//! integers, with shifting, substitution and the beta step.

use vstd::prelude::*;
use crate::evaluate::Strategy;

verus! {

/// A de Bruijn term whose indices are mathematical integers.
///
/// `Abs` carries the name hint of its binder; the hint plays no part in
/// reduction.
pub enum IndexTerm {
    Var(int),
    Abs(int, Box<IndexTerm>),
    App(Box<IndexTerm>, Box<IndexTerm>),
}

impl IndexTerm {
    /// Adds `d` to every index that is at least `cutoff`, where the cutoff
    /// grows by one under each binder.
    pub open spec fn shift(self, d: int, cutoff: int) -> IndexTerm
        decreases self,
    {
        match self {
            IndexTerm::Var(x) => if x >= cutoff {
                IndexTerm::Var(x + d)
            } else {
                IndexTerm::Var(x)
            },
            IndexTerm::Abs(h, b) => IndexTerm::Abs(h, Box::new(b.shift(d, cutoff + 1))),
            IndexTerm::App(f, a) => IndexTerm::App(
                Box::new(f.shift(d, cutoff)),
                Box::new(a.shift(d, cutoff)),
            ),
        }
    }

    /// Puts `s`, lifted over the binders crossed, in place of every
    /// occurrence of the variable that has index `y` at depth zero; `c` is
    /// the number of binders crossed so far.
    pub open spec fn subst(self, y: int, s: IndexTerm, c: int) -> IndexTerm
        decreases self,
    {
        match self {
            IndexTerm::Var(x) => if x == y + c {
                s.shift(c, 0)
            } else {
                IndexTerm::Var(x)
            },
            IndexTerm::Abs(h, b) => IndexTerm::Abs(h, Box::new(b.subst(y, s, c + 1))),
            IndexTerm::App(f, a) => IndexTerm::App(
                Box::new(f.subst(y, s, c)),
                Box::new(a.subst(y, s, c)),
            ),
        }
    }

    /// An application whose function side is an abstraction.
    pub open spec fn is_redex(self) -> bool {
        match self {
            IndexTerm::App(f, _) => *f is Abs,
            _ => false,
        }
    }

    /// Contracts the redex at the root; any other term is left as it is.
    pub open spec fn beta(self) -> IndexTerm {
        match self {
            IndexTerm::App(f, a) => match *f {
                IndexTerm::Abs(_, b) => b.subst(0, a.shift(1, 0), 0).shift(-1, 0),
                _ => self,
            },
            _ => self,
        }
    }

    /// The body of a contracted abstraction in one pass: `arg` takes the
    /// place of the variable bound `c` binders up, and every index that
    /// points past that binder loses one.
    pub open spec fn instantiate(self, arg: IndexTerm, c: int) -> IndexTerm
        decreases self,
    {
        match self {
            IndexTerm::Var(x) => if x < c {
                IndexTerm::Var(x)
            } else if x == c {
                arg.shift(c, 0)
            } else {
                IndexTerm::Var(x - 1)
            },
            IndexTerm::Abs(h, b) => IndexTerm::Abs(h, Box::new(b.instantiate(arg, c + 1))),
            IndexTerm::App(f, a) => IndexTerm::App(
                Box::new(f.instantiate(arg, c)),
                Box::new(a.instantiate(arg, c)),
            ),
        }
    }

    /// The term after one step of `strategy`, or `None` where the strategy
    /// finds no redex to contract.
    pub open spec fn step(self, strategy: Strategy) -> Option<IndexTerm>
        decreases self,
    {
        match self {
            IndexTerm::Var(_) => None,
            IndexTerm::Abs(h, b) => if strategy.under_binders() {
                match b.step(strategy) {
                    Some(b2) => Some(IndexTerm::Abs(h, Box::new(b2))),
                    None => None,
                }
            } else {
                None
            },
            IndexTerm::App(f, a) => match strategy {
                Strategy::NormalOrder => if *f is Abs {
                    Some(self.beta())
                } else {
                    match f.step(strategy) {
                        Some(f2) => Some(IndexTerm::App(Box::new(f2), a)),
                        None => match a.step(strategy) {
                            Some(a2) => Some(IndexTerm::App(f, Box::new(a2))),
                            None => None,
                        },
                    }
                },
                Strategy::CallByName => if *f is Abs {
                    Some(self.beta())
                } else {
                    match f.step(strategy) {
                        Some(f2) => Some(IndexTerm::App(Box::new(f2), a)),
                        None => None,
                    }
                },
                Strategy::ApplicativeOrder => match f.step(strategy) {
                    Some(f2) => Some(IndexTerm::App(Box::new(f2), a)),
                    None => match a.step(strategy) {
                        Some(a2) => Some(IndexTerm::App(f, Box::new(a2))),
                        None => if *f is Abs {
                            Some(self.beta())
                        } else {
                            None
                        },
                    },
                },
                Strategy::CallByValue => match a.step(strategy) {
                    Some(a2) => Some(IndexTerm::App(f, Box::new(a2))),
                    None => match f.step(strategy) {
                        Some(f2) => Some(IndexTerm::App(Box::new(f2), a)),
                        None => if *f is Abs {
                            Some(self.beta())
                        } else {
                            None
                        },
                    },
                },
            },
        }
    }

    /// The term after one step, or the term itself where there is none.
    pub open spec fn next(self, strategy: Strategy) -> IndexTerm {
        match self.step(strategy) {
            Some(t) => t,
            None => self,
        }
    }

    /// No step of `strategy` applies.
    pub open spec fn is_normal(self, strategy: Strategy) -> bool {
        self.step(strategy) is None
    }

    /// The term after `n` steps, staying where no step applies.
    pub open spec fn run(self, strategy: Strategy, n: nat) -> IndexTerm
        decreases n,
    {
        if n == 0 {
            self
        } else {
            self.next(strategy).run(strategy, (n - 1) as nat)
        }
    }

    /// At most `n` steps lead to a term on which no step applies.
    pub open spec fn halts_within(self, strategy: Strategy, n: nat) -> bool {
        self.run(strategy, n).is_normal(strategy)
    }

    /// Reduction under `strategy` comes to an end.
    pub open spec fn normalizes(self, strategy: Strategy) -> bool {
        exists|n: nat| self.halts_within(strategy, n)
    }

    /// The term on which reduction under `strategy` ends, where it ends.
    pub open spec fn normal_form(self, strategy: Strategy) -> IndexTerm {
        self.run(strategy, choose|n: nat| self.halts_within(strategy, n))
    }

    /// The terms of the first `n` steps fit the machine.
    pub open spec fn fits_for(self, strategy: Strategy, n: nat) -> bool {
        forall|k: nat| k <= n ==> (#[trigger] self.run(strategy, k)).fits()
    }

    /// Every term along the reduction fits the machine.
    pub open spec fn run_fits(self, strategy: Strategy) -> bool {
        forall|n: nat| (#[trigger] self.run(strategy, n)).fits()
    }

    /// Every index lies in `0 ..= max`.
    pub open spec fn within(self, max: int) -> bool
        decreases self,
    {
        match self {
            IndexTerm::Var(x) => 0 <= x <= max,
            IndexTerm::Abs(h, b) => b.within(max),
            IndexTerm::App(f, a) => f.within(max) && a.within(max),
        }
    }

    /// Every index fits the machine representation of an index.
    pub open spec fn fits(self) -> bool {
        self.within(u32::MAX as int)
    }
}

impl IndexTerm {
    /// With a depth above every index, instantiating changes nothing.
    pub proof fn lemma_instantiate_above(self, arg: IndexTerm, c: int, max: int)
        requires
            self.within(max),
            max < c,
        ensures
            self.instantiate(arg, c) == self,
        decreases self,
    {
        match self {
            IndexTerm::Var(x) => {},
            IndexTerm::Abs(h, b) => { b.lemma_instantiate_above(arg, c + 1, max); },
            IndexTerm::App(f, a) => {
                f.lemma_instantiate_above(arg, c, max);
                a.lemma_instantiate_above(arg, c, max);
            },
        }
    }

    /// Lifting by one, then by `c`, then lowering by one above `c`, is
    /// lifting by `c`.
    pub proof fn lemma_lift_lower(self, c: int, e: int)
        requires
            c >= 0,
        ensures
            self.shift(1, e).shift(c, e).shift(-1, c + e) == self.shift(c, e),
        decreases self,
    {
        match self {
            IndexTerm::Var(x) => {},
            IndexTerm::Abs(h, b) => { b.lemma_lift_lower(c, e + 1); },
            IndexTerm::App(f, a) => {
                f.lemma_lift_lower(c, e);
                a.lemma_lift_lower(c, e);
            },
        }
    }

    /// The one-pass form agrees with substituting the lifted argument and
    /// lowering the result.
    pub proof fn lemma_instantiate_is_subst(self, arg: IndexTerm, c: int)
        requires
            c >= 0,
        ensures
            self.instantiate(arg, c) == self.subst(0, arg.shift(1, 0), c).shift(-1, c),
        decreases self,
    {
        match self {
            IndexTerm::Var(x) => {
                if x == c {
                    arg.lemma_lift_lower(c, 0);
                }
            },
            IndexTerm::Abs(h, b) => { b.lemma_instantiate_is_subst(arg, c + 1); },
            IndexTerm::App(f, a) => {
                f.lemma_instantiate_is_subst(arg, c);
                a.lemma_instantiate_is_subst(arg, c);
            },
        }
    }

    /// Substituting for an index above every index changes nothing.
    pub proof fn lemma_subst_above(self, y: int, s: IndexTerm, c: int, max: int)
        requires
            self.within(max),
            max < y + c,
        ensures
            self.subst(y, s, c) == self,
        decreases self,
    {
        match self {
            IndexTerm::Var(x) => {},
            IndexTerm::Abs(h, b) => { b.lemma_subst_above(y, s, c + 1, max); },
            IndexTerm::App(f, a) => {
                f.lemma_subst_above(y, s, c, max);
                a.lemma_subst_above(y, s, c, max);
            },
        }
    }

    /// The one-pass form computes the beta step.
    pub proof fn lemma_beta_is_instantiate(self)
        ensures
            self.beta() == match self {
                IndexTerm::App(f, a) => match *f {
                    IndexTerm::Abs(_, b) => b.instantiate(*a, 0),
                    _ => self,
                },
                _ => self,
            },
    {
        match self {
            IndexTerm::App(f, a) => match *f {
                IndexTerm::Abs(_, b) => { b.lemma_instantiate_is_subst(*a, 0); },
                _ => {},
            },
            _ => {},
        }
    }

    /// One more step at the end is one more step at the start.
    pub proof fn lemma_run_next(self, strategy: Strategy, n: nat)
        ensures
            self.run(strategy, n + 1) == self.run(strategy, n).next(strategy),
        decreases n,
    {
        if n > 0 {
            self.next(strategy).lemma_run_next(strategy, (n - 1) as nat);
        } else {
            assert(self.run(strategy, 1) == self.next(strategy).run(strategy, 0));
        }
    }

    /// Once no step applies, further steps change nothing.
    pub proof fn lemma_run_stable(self, strategy: Strategy, n: nat, m: nat)
        requires
            self.halts_within(strategy, n),
            n <= m,
        ensures
            self.run(strategy, m) == self.run(strategy, n),
        decreases m,
    {
        if n < m {
            self.lemma_run_stable(strategy, n, (m - 1) as nat);
            self.lemma_run_next(strategy, (m - 1) as nat);
        }
    }

    /// Whatever number of steps brings reduction to an end, it ends on the
    /// normal form.
    pub proof fn lemma_normal_form(self, strategy: Strategy, n: nat)
        requires
            self.halts_within(strategy, n),
        ensures
            self.normalizes(strategy),
            self.normal_form(strategy) == self.run(strategy, n),
            self.normal_form(strategy).is_normal(strategy),
    {
        let k = choose|k: nat| self.halts_within(strategy, k);
        if k <= n {
            self.lemma_run_stable(strategy, k, n);
        } else {
            self.lemma_run_stable(strategy, n, k);
        }
    }

    /// Shifting with a cutoff above every index changes nothing.
    pub proof fn lemma_shift_above(self, d: int, cutoff: int, max: int)
        requires
            self.within(max),
            max < cutoff,
        ensures
            self.shift(d, cutoff) == self,
        decreases self,
    {
        match self {
            IndexTerm::Var(x) => {},
            IndexTerm::Abs(h, b) => { b.lemma_shift_above(d, cutoff + 1, max); },
            IndexTerm::App(f, a) => {
                f.lemma_shift_above(d, cutoff, max);
                a.lemma_shift_above(d, cutoff, max);
            },
        }
    }
}

impl IndexTerm {
    /// The term can be written with names when it stands below `depth`
    /// binders: every hint is an offset in an alphabet of `names` names, and
    /// every free index stands for one of them.
    pub open spec fn nameable(self, depth: int, names: int) -> bool
        decreases self,
    {
        match self {
            IndexTerm::Var(k) => 0 <= k < depth || depth < k <= depth + names,
            IndexTerm::Abs(h, b) => 0 <= h < names && b.nameable(depth + 1, names),
            IndexTerm::App(f, a) => f.nameable(depth, names) && a.nameable(depth, names),
        }
    }

    /// Below more binders than any index can reach, the depth does not
    /// matter.
    pub proof fn lemma_nameable_deep(self, d1: int, d2: int, names: int)
        requires
            self.fits(),
            u32::MAX < d1,
            u32::MAX < d2,
        ensures
            self.nameable(d1, names) == self.nameable(d2, names),
        decreases self,
    {
        match self {
            IndexTerm::Var(_) => {},
            IndexTerm::Abs(_, b) => { b.lemma_nameable_deep(d1 + 1, d2 + 1, names); },
            IndexTerm::App(f, a) => {
                f.lemma_nameable_deep(d1, d2, names);
                a.lemma_nameable_deep(d1, d2, names);
            },
        }
    }

    /// Lifting a term over `c` more binders keeps it nameable.
    pub proof fn lemma_shift_nameable(self, c: int, e: int, depth: int, names: int)
        requires
            c >= 0,
            e >= 0,
            depth >= 0,
            self.nameable(depth + e, names),
        ensures
            self.shift(c, e).nameable(depth + c + e, names),
        decreases self,
    {
        match self {
            IndexTerm::Var(x) => {},
            IndexTerm::Abs(h, b) => { b.lemma_shift_nameable(c, e + 1, depth, names); },
            IndexTerm::App(f, a) => {
                f.lemma_shift_nameable(c, e, depth, names);
                a.lemma_shift_nameable(c, e, depth, names);
            },
        }
    }

    /// Instantiating a nameable body with a nameable argument gives a
    /// nameable term.
    pub proof fn lemma_instantiate_nameable(self, arg: IndexTerm, c: int, depth: int, names: int)
        requires
            c >= 0,
            depth >= 0,
            self.nameable(depth + 1 + c, names),
            arg.nameable(depth, names),
        ensures
            self.instantiate(arg, c).nameable(depth + c, names),
        decreases self,
    {
        match self {
            IndexTerm::Var(x) => {
                if x == c {
                    arg.lemma_shift_nameable(c, 0, depth, names);
                }
            },
            IndexTerm::Abs(h, b) => { b.lemma_instantiate_nameable(arg, c + 1, depth, names); },
            IndexTerm::App(f, a) => {
                f.lemma_instantiate_nameable(arg, c, depth, names);
                a.lemma_instantiate_nameable(arg, c, depth, names);
            },
        }
    }

    /// A step keeps a term nameable.
    pub proof fn lemma_step_nameable(self, strategy: Strategy, depth: int, names: int)
        requires
            depth >= 0,
            self.nameable(depth, names),
        ensures
            self.next(strategy).nameable(depth, names),
        decreases self,
    {
        match self {
            IndexTerm::Var(_) => {},
            IndexTerm::Abs(h, b) => { b.lemma_step_nameable(strategy, depth + 1, names); },
            IndexTerm::App(f, a) => {
                f.lemma_step_nameable(strategy, depth, names);
                a.lemma_step_nameable(strategy, depth, names);
                self.lemma_beta_is_instantiate();
                match *f {
                    IndexTerm::Abs(_, b) => {
                        assert(f.nameable(depth, names));
                        b.lemma_instantiate_nameable(*a, 0, depth, names);
                    },
                    _ => {},
                }
            },
        }
    }

    /// Any number of steps keeps a term nameable.
    pub proof fn lemma_run_nameable(self, strategy: Strategy, n: nat, depth: int, names: int)
        requires
            depth >= 0,
            self.nameable(depth, names),
        ensures
            self.run(strategy, n).nameable(depth, names),
        decreases n,
    {
        if n > 0 {
            self.lemma_step_nameable(strategy, depth, names);
            self.next(strategy).lemma_run_nameable(strategy, (n - 1) as nat, depth, names);
        }
    }
}

} // verus!
