//! Reduction of a term through the reduction of its parts.
//!
//! A step of a strategy inside an application or an abstraction is a step
//! on one of its parts, for as long as that part is not done. The lemmas
//! here carry a run of steps on a part over to the whole, which is what
//! lets a recursive evaluator agree with the step-by-step one.

use vstd::prelude::*;
use crate::evaluate::Strategy;
use crate::model::IndexTerm;

verus! {

/// A term with one part left open.
pub enum Frame {
    /// An application whose function side is open; the argument is given.
    Fun(IndexTerm),
    /// An application whose argument is open; the function side is given.
    Arg(IndexTerm),
    /// An abstraction whose body is open; the hint is given.
    Body(int),
}

impl Frame {
    /// The whole term, with `x` for the open part.
    pub open spec fn plug(self, x: IndexTerm) -> IndexTerm {
        match self {
            Frame::Fun(a) => IndexTerm::App(Box::new(x), Box::new(a)),
            Frame::Arg(f) => IndexTerm::App(Box::new(f), Box::new(x)),
            Frame::Body(h) => IndexTerm::Abs(h, Box::new(x)),
        }
    }

    /// The steps of `strategy` on the whole go into the open part, for as
    /// long as that part is not done.
    pub open spec fn admits(self, strategy: Strategy) -> bool {
        match self {
            Frame::Fun(a) => strategy is CallByValue ==> a.is_normal(strategy),
            Frame::Arg(f) => match strategy {
                Strategy::NormalOrder => f.is_normal(strategy) && !(f is Abs),
                Strategy::ApplicativeOrder => f.is_normal(strategy),
                Strategy::CallByName => false,
                Strategy::CallByValue => true,
            },
            Frame::Body(_) => strategy.under_binders(),
        }
    }

    /// The open part is done as soon as it is an abstraction: the whole is
    /// then a redex that `strategy` contracts at once.
    pub open spec fn head(self, strategy: Strategy) -> bool {
        self is Fun && (strategy is NormalOrder || strategy is CallByName)
    }
}

impl IndexTerm {
    /// Nothing is left to do on the term: no step applies, or, where `head`
    /// is set, the term is an abstraction.
    pub open spec fn done(self, strategy: Strategy, head: bool) -> bool {
        self.is_normal(strategy) || (head && self is Abs)
    }

    /// The term is not done before `k` steps are taken.
    pub open spec fn goes(self, strategy: Strategy, head: bool, k: nat) -> bool {
        forall|j: nat| j < k ==> !(#[trigger] self.run(strategy, j)).done(strategy, head)
    }

    /// The term is done after `n` steps at most.
    pub open spec fn stops_within(self, strategy: Strategy, head: bool, n: nat) -> bool {
        exists|j: nat| j <= n && (#[trigger] self.run(strategy, j)).done(strategy, head)
    }

    /// Every term on the way fits the machine, up to the first that is
    /// done.
    pub open spec fn fits_while(self, strategy: Strategy, head: bool) -> bool {
        forall|j: nat| self.goes(strategy, head, j) ==> (#[trigger] self.run(strategy, j)).fits()
    }

    /// Steps add up.
    pub proof fn lemma_run_add(self, strategy: Strategy, j: nat, k: nat)
        ensures
            self.run(strategy, j + k) == self.run(strategy, j).run(strategy, k),
        decreases j,
    {
        if j > 0 {
            self.next(strategy).lemma_run_add(strategy, (j - 1) as nat, k);
            assert(self.run(strategy, j + k) == self.next(strategy).run(
                strategy,
                (j + k - 1) as nat,
            ));
        }
    }

    /// A term that goes for `j` steps, and from there for `k` more, goes
    /// for `j + k`.
    pub proof fn lemma_goes_add(self, strategy: Strategy, head: bool, j: nat, k: nat)
        requires
            self.goes(strategy, head, j),
            self.run(strategy, j).goes(strategy, head, k),
        ensures
            self.goes(strategy, head, j + k),
    {
        assert forall|i: nat| i < j + k implies !(#[trigger] self.run(strategy, i)).done(
            strategy,
            head,
        ) by {
            if i >= j {
                self.lemma_run_add(strategy, j, (i - j) as nat);
                assert(!self.run(strategy, j).run(strategy, (i - j) as nat).done(strategy, head));
            }
        }
    }

    /// A term that goes for `k` steps and stops within `n` stops, from
    /// where it is after the `k`, within `n - k`.
    pub proof fn lemma_goes_stops(self, strategy: Strategy, head: bool, k: nat, n: nat)
        requires
            self.goes(strategy, head, k),
            self.stops_within(strategy, head, n),
        ensures
            k <= n,
            self.run(strategy, k).stops_within(strategy, head, (n - k) as nat),
    {
        let j = choose|j: nat| j <= n && (#[trigger] self.run(strategy, j)).done(strategy, head);
        assert(j >= k);
        self.lemma_run_add(strategy, k, (j - k) as nat);
        assert(self.run(strategy, k).run(strategy, (j - k) as nat).done(strategy, head));
    }

    /// A term whose way fits goes on fitting from a point on its way.
    pub proof fn lemma_fits_from(self, strategy: Strategy, head: bool, k: nat)
        requires
            self.goes(strategy, head, k),
            self.fits_while(strategy, head),
        ensures
            self.run(strategy, k).fits(),
            self.run(strategy, k).fits_while(strategy, head),
    {
        assert forall|j: nat| self.run(strategy, k).goes(strategy, head, j) implies (
        #[trigger] self.run(strategy, k).run(strategy, j)).fits() by {
            self.lemma_goes_add(strategy, head, k, j);
            self.lemma_run_add(strategy, k, j);
            assert(self.run(strategy, k + j).fits());
        }
    }

    /// A term that is done after `k` steps, with no head to stop at, has
    /// reached its normal form.
    pub proof fn lemma_done_is_normal_form(self, strategy: Strategy, k: nat)
        requires
            self.run(strategy, k).done(strategy, false),
        ensures
            self.normalizes(strategy),
            self.normal_form(strategy) == self.run(strategy, k),
    {
        self.lemma_normal_form(strategy, k);
    }

    /// A term whose reduction ends and fits meets what the recursive
    /// evaluator asks for.
    pub proof fn lemma_stops_of_halts(self, strategy: Strategy, n: nat)
        requires
            self.halts_within(strategy, n),
            self.run_fits(strategy),
        ensures
            self.stops_within(strategy, false, n),
            self.fits_while(strategy, false),
    {
        assert(self.run(strategy, n).done(strategy, false));
    }
}

impl Frame {
    /// One step on the whole is one step on the open part.
    pub proof fn lemma_step(self, x: IndexTerm, strategy: Strategy)
        requires
            self.admits(strategy),
            !x.done(strategy, self.head(strategy)),
        ensures
            self.plug(x).step(strategy) == Some(self.plug(x.next(strategy))),
    {
    }

    /// A run on the open part is a run on the whole.
    pub proof fn lemma_run(self, x: IndexTerm, strategy: Strategy, k: nat)
        requires
            self.admits(strategy),
            x.goes(strategy, self.head(strategy), k),
        ensures
            self.plug(x).run(strategy, k) == self.plug(x.run(strategy, k)),
            self.plug(x).goes(strategy, false, k),
            !(self is Body) ==> self.plug(x).goes(strategy, true, k),
        decreases k,
    {
        if k > 0 {
            let m = (k - 1) as nat;
            let y = x.next(strategy);
            assert(!x.run(strategy, 0).done(strategy, self.head(strategy)));
            self.lemma_step(x, strategy);
            assert forall|j: nat| j < m implies !(#[trigger] y.run(strategy, j)).done(
                strategy,
                self.head(strategy),
            ) by {
                assert(x.run(strategy, j + 1) == y.run(strategy, j));
            }
            self.lemma_run(y, strategy, m);
            assert forall|j: nat| j < k implies !(#[trigger] self.plug(x).run(
                strategy,
                j,
            )).is_normal(strategy) && (!(self is Body) ==> !(self.plug(x).run(strategy, j)
                is Abs)) by {
                if j > 0 {
                    assert(self.plug(x).run(strategy, j) == self.plug(y).run(
                        strategy,
                        (j - 1) as nat,
                    ));
                    self.lemma_run_prefix(y, strategy, m, (j - 1) as nat);
                }
            }
        }
    }

    /// Within a run on the open part, the whole is at every point the
    /// frame around the part, and no step is the last.
    pub proof fn lemma_run_prefix(self, x: IndexTerm, strategy: Strategy, k: nat, j: nat)
        requires
            self.admits(strategy),
            x.goes(strategy, self.head(strategy), k),
            j < k,
        ensures
            self.plug(x).run(strategy, j) == self.plug(x.run(strategy, j)),
            !self.plug(x).run(strategy, j).is_normal(strategy),
            !(self is Body) ==> !(self.plug(x).run(strategy, j) is Abs),
        decreases j,
    {
        assert(!x.run(strategy, 0).done(strategy, self.head(strategy)));
        self.lemma_step(x, strategy);
        if j > 0 {
            let y = x.next(strategy);
            let m = (k - 1) as nat;
            assert forall|i: nat| i < m implies !(#[trigger] y.run(strategy, i)).done(
                strategy,
                self.head(strategy),
            ) by {
                assert(x.run(strategy, i + 1) == y.run(strategy, i));
            }
            self.lemma_run_prefix(y, strategy, m, (j - 1) as nat);
        }
    }

    /// Where the whole stops within `n` steps, so does the open part.
    pub proof fn lemma_stops(self, x: IndexTerm, strategy: Strategy, head: bool, n: nat)
        requires
            self.admits(strategy),
            !(head && self is Body),
            self.plug(x).stops_within(strategy, head, n),
        ensures
            x.stops_within(strategy, self.head(strategy), n),
        decreases n,
    {
        if x.done(strategy, self.head(strategy)) {
            assert(x.run(strategy, 0).done(strategy, self.head(strategy)));
        } else {
            self.lemma_step(x, strategy);
            let whole = self.plug(x);
            let j = choose|j: nat| j <= n && (#[trigger] whole.run(strategy, j)).done(
                strategy,
                head,
            );
            assert(!whole.run(strategy, 0).done(strategy, head));
            assert(j > 0);
            let y = x.next(strategy);
            assert(whole.run(strategy, j) == self.plug(y).run(strategy, (j - 1) as nat));
            assert(self.plug(y).stops_within(strategy, head, (n - 1) as nat));
            self.lemma_stops(y, strategy, head, (n - 1) as nat);
            let i = choose|i: nat| i <= (n - 1) as nat && (#[trigger] y.run(strategy, i)).done(
                strategy,
                self.head(strategy),
            );
            assert(x.run(strategy, i + 1) == y.run(strategy, i));
        }
    }

    /// Where the way of the whole fits, so does the way of the open part.
    pub proof fn lemma_fits(self, x: IndexTerm, strategy: Strategy, head: bool)
        requires
            self.admits(strategy),
            !(head && self is Body),
            self.plug(x).fits_while(strategy, head),
        ensures
            x.fits_while(strategy, self.head(strategy)),
    {
        assert forall|j: nat| x.goes(strategy, self.head(strategy), j) implies (
        #[trigger] x.run(strategy, j)).fits() by {
            self.lemma_run(x, strategy, j);
            assert(self.plug(x).goes(strategy, head, j));
            assert(self.plug(x).run(strategy, j).fits());
        }
    }
}

} // verus!
