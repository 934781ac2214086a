//! Index terms as they are held in memory, and the reduction engine.

use vstd::prelude::*;
use crate::bigstep::Frame;
use crate::evaluate::Strategy;
use crate::model::IndexTerm;
use crate::term::{name_at, Term, ALPHABET};

verus! {

/// A de Bruijn term. `Abs` keeps the offset of its binder's name from `'a'`
/// so that the term can be rendered with names again.
#[derive(Debug, PartialEq, Eq)]
pub enum DBTerm {
    Var(u32),
    Abs(u32, Box<DBTerm>),
    App(Box<DBTerm>, Box<DBTerm>),
}

impl DBTerm {
    /// The term as a term over mathematical integers.
    pub open spec fn model(self) -> IndexTerm
        decreases self,
    {
        match self {
            DBTerm::Var(x) => IndexTerm::Var(x as int),
            DBTerm::Abs(h, b) => IndexTerm::Abs(h as int, Box::new(b.model())),
            DBTerm::App(f, a) => IndexTerm::App(Box::new(f.model()), Box::new(a.model())),
        }
    }
}

impl View for DBTerm {
    type V = IndexTerm;

    open spec fn view(&self) -> IndexTerm {
        self.model()
    }
}

impl Clone for DBTerm {
    fn clone(&self) -> (r: Self)
        ensures
            r == *self,
        decreases self,
    {
        match self {
            DBTerm::Var(x) => DBTerm::Var(*x),
            DBTerm::Abs(h, b) => DBTerm::Abs(*h, Box::new((&**b).clone())),
            DBTerm::App(f, a) => DBTerm::App(Box::new((&**f).clone()), Box::new((&**a).clone())),
        }
    }
}

/// The name at offset `i` from `'a'`.
fn to_char(i: u32) -> (r: char)
    requires
        i < ALPHABET,
    ensures
        r == name_at(i as int),
{
    (i as u8 + 'a' as u8) as char
}

impl DBTerm {
    /// The view of a term in memory always fits the machine.
    pub proof fn lemma_view_fits(self)
        ensures
            self@.fits(),
        decreases self,
    {
        match self {
            DBTerm::Var(x) => {},
            DBTerm::Abs(h, b) => { b.lemma_view_fits(); },
            DBTerm::App(f, a) => { f.lemma_view_fits(); a.lemma_view_fits(); },
        }
    }

    /// Whether the term is an abstraction.
    pub fn is_abs(&self) -> (r: bool)
        ensures
            r == (self@ is Abs),
    {
        match self {
            DBTerm::Abs(_, _) => true,
            _ => false,
        }
    }

    /// Reduces to the end under `strategy`, part by part: the parts of an
    /// application in the order of the strategy, then the redex they leave,
    /// then what it contracts to.
    pub fn reduce(self, strategy: Strategy) -> (r: DBTerm)
        requires
            self@.normalizes(strategy),
            self@.run_fits(strategy),
        ensures
            r@ == self@.normal_form(strategy),
            r@.is_normal(strategy),
    {
        let ghost fuel = choose|n: nat| self@.halts_within(strategy, n);
        proof {
            self@.lemma_stops_of_halts(strategy, fuel);
        }
        let (r, Ghost(taken)) = self._reduce(false, strategy, Ghost(fuel));
        proof {
            self@.lemma_done_is_normal_form(strategy, taken);
        }
        r
    }

    /// Reduces until the term is done: until no step of `strategy` applies
    /// or, where `head` is set, the term is an abstraction. Hands out the
    /// term and the number of steps that lead to it.
    fn _reduce(self, head: bool, strategy: Strategy, Ghost(fuel): Ghost<nat>) -> (r: (
        DBTerm,
        Ghost<nat>,
    ))
        requires
            self@.stops_within(strategy, head, fuel),
            self@.fits_while(strategy, head),
        ensures
            r.0@ == self@.run(strategy, r.1@),
            r.0@.done(strategy, head),
            self@.goes(strategy, head, r.1@),
        decreases fuel, self,
    {
        let ghost whole = self@;
        match self {
            DBTerm::Var(x) => (DBTerm::Var(x), Ghost(0)),
            DBTerm::Abs(h, b) => {
                let under = match strategy {
                    Strategy::NormalOrder | Strategy::ApplicativeOrder => true,
                    Strategy::CallByName | Strategy::CallByValue => false,
                };
                if head || !under {
                    return (DBTerm::Abs(h, b), Ghost(0));
                }
                let ghost frame = Frame::Body(h as int);
                let ghost b0 = b@;
                proof {
                    frame.lemma_stops(b0, strategy, head, fuel);
                    frame.lemma_fits(b0, strategy, head);
                }
                let (b, Ghost(k)) = (*b)._reduce(false, strategy, Ghost(fuel));
                proof {
                    frame.lemma_run(b0, strategy, k);
                }
                (DBTerm::Abs(h, Box::new(b)), Ghost(k))
            },
            DBTerm::App(f, a) => {
                let ghost f0 = f@;
                let ghost a0 = a@;
                let (f, a, Ghost(k)) = match strategy {
                    Strategy::NormalOrder | Strategy::CallByName => {
                        let ghost outer = Frame::Fun(a0);
                        proof {
                            outer.lemma_stops(f0, strategy, head, fuel);
                            outer.lemma_fits(f0, strategy, head);
                        }
                        let (f, Ghost(k1)) = (*f)._reduce(true, strategy, Ghost(fuel));
                        proof {
                            outer.lemma_run(f0, strategy, k1);
                        }
                        let stuck = !f.is_abs();
                        let full = match strategy {
                            Strategy::NormalOrder => true,
                            _ => false,
                        };
                        if stuck && full {
                            let ghost inner = Frame::Arg(f@);
                            proof {
                                whole.lemma_goes_stops(strategy, head, k1, fuel);
                                whole.lemma_fits_from(strategy, head, k1);
                                inner.lemma_stops(a0, strategy, head, (fuel - k1) as nat);
                                inner.lemma_fits(a0, strategy, head);
                            }
                            let (a, Ghost(k2)) = (*a)._reduce(
                                false,
                                strategy,
                                Ghost((fuel - k1) as nat),
                            );
                            proof {
                                inner.lemma_run(a0, strategy, k2);
                                whole.lemma_run_add(strategy, k1, k2);
                                whole.lemma_goes_add(strategy, head, k1, k2);
                            }
                            (f, a, Ghost(k1 + k2))
                        } else {
                            (f, *a, Ghost(k1))
                        }
                    },
                    Strategy::ApplicativeOrder => {
                        let ghost outer = Frame::Fun(a0);
                        proof {
                            outer.lemma_stops(f0, strategy, head, fuel);
                            outer.lemma_fits(f0, strategy, head);
                        }
                        let (f, Ghost(k1)) = (*f)._reduce(false, strategy, Ghost(fuel));
                        let ghost inner = Frame::Arg(f@);
                        proof {
                            outer.lemma_run(f0, strategy, k1);
                            whole.lemma_goes_stops(strategy, head, k1, fuel);
                            whole.lemma_fits_from(strategy, head, k1);
                            inner.lemma_stops(a0, strategy, head, (fuel - k1) as nat);
                            inner.lemma_fits(a0, strategy, head);
                        }
                        let (a, Ghost(k2)) = (*a)._reduce(
                            false,
                            strategy,
                            Ghost((fuel - k1) as nat),
                        );
                        proof {
                            inner.lemma_run(a0, strategy, k2);
                            whole.lemma_run_add(strategy, k1, k2);
                            whole.lemma_goes_add(strategy, head, k1, k2);
                        }
                        (f, a, Ghost(k1 + k2))
                    },
                    Strategy::CallByValue => {
                        let ghost outer = Frame::Arg(f0);
                        proof {
                            outer.lemma_stops(a0, strategy, head, fuel);
                            outer.lemma_fits(a0, strategy, head);
                        }
                        let (a, Ghost(k1)) = (*a)._reduce(false, strategy, Ghost(fuel));
                        let ghost inner = Frame::Fun(a@);
                        proof {
                            outer.lemma_run(a0, strategy, k1);
                            whole.lemma_goes_stops(strategy, head, k1, fuel);
                            whole.lemma_fits_from(strategy, head, k1);
                            inner.lemma_stops(f0, strategy, head, (fuel - k1) as nat);
                            inner.lemma_fits(f0, strategy, head);
                        }
                        let (f, Ghost(k2)) = (*f)._reduce(
                            false,
                            strategy,
                            Ghost((fuel - k1) as nat),
                        );
                        proof {
                            inner.lemma_run(f0, strategy, k2);
                            whole.lemma_run_add(strategy, k1, k2);
                            whole.lemma_goes_add(strategy, head, k1, k2);
                        }
                        (f, a, Ghost(k1 + k2))
                    },
                };
                let ghost mid = IndexTerm::App(Box::new(f@), Box::new(a@));
                assert(mid == whole.run(strategy, k));
                assert(whole.goes(strategy, head, k));
                if !f.is_abs() {
                    assert(mid.is_normal(strategy));
                    return (DBTerm::App(Box::new(f), Box::new(a)), Ghost(k));
                }
                proof {
                    assert(mid.step(strategy) == Some(mid.beta()));
                    assert(mid.run(strategy, 1) == mid.next(strategy).run(strategy, 0));
                    assert forall|j: nat| j < 1 implies !(#[trigger] mid.run(strategy, j)).done(
                        strategy,
                        head,
                    ) by {}
                    whole.lemma_run_add(strategy, k, 1);
                    whole.lemma_goes_add(strategy, head, k, 1);
                    whole.lemma_goes_stops(strategy, head, k + 1, fuel);
                    whole.lemma_fits_from(strategy, head, k + 1);
                }
                let contracted = DBTerm::App(Box::new(f), Box::new(a)).beta();
                let (r, Ghost(k3)) = contracted._reduce(
                    head,
                    strategy,
                    Ghost((fuel - k - 1) as nat),
                );
                proof {
                    whole.lemma_run_add(strategy, k + 1, k3);
                    whole.lemma_goes_add(strategy, head, k + 1, k3);
                }
                (r, Ghost(k + 1 + k3))
            },
        }
    }

    /// Contracts one redex, the one that `strategy` picks. The flag tells
    /// whether there was one.
    pub fn one_step(self, strategy: Strategy) -> (r: (DBTerm, bool))
        requires
            self@.next(strategy).fits(),
        ensures
            r.0@ == self@.next(strategy),
            r.1 == !self@.is_normal(strategy),
        decreases self,
    {
        match self {
            DBTerm::Var(x) => (DBTerm::Var(x), false),
            DBTerm::Abs(h, b) => match strategy {
                Strategy::NormalOrder | Strategy::ApplicativeOrder => {
                    proof { b.lemma_view_fits(); }
                    let (t, progressed) = (*b).one_step(strategy);
                    (DBTerm::Abs(h, Box::new(t)), progressed)
                },
                Strategy::CallByValue | Strategy::CallByName => (DBTerm::Abs(h, b), false),
            },
            DBTerm::App(f, a) => {
                proof {
                    f.lemma_view_fits();
                    a.lemma_view_fits();
                }
                match strategy {
                    Strategy::NormalOrder => {
                        if f.is_abs() {
                            return (DBTerm::App(f, a).beta(), true);
                        }
                        let (f, progressed) = (*f).one_step(strategy);
                        if progressed {
                            return (DBTerm::App(Box::new(f), a), true);
                        }
                        let (a, progressed) = (*a).one_step(strategy);
                        (DBTerm::App(Box::new(f), Box::new(a)), progressed)
                    },
                    Strategy::CallByName => {
                        if f.is_abs() {
                            return (DBTerm::App(f, a).beta(), true);
                        }
                        let (f, progressed) = (*f).one_step(strategy);
                        (DBTerm::App(Box::new(f), a), progressed)
                    },
                    Strategy::ApplicativeOrder => {
                        let (f, progressed) = (*f).one_step(strategy);
                        if progressed {
                            return (DBTerm::App(Box::new(f), a), true);
                        }
                        let (a, progressed) = (*a).one_step(strategy);
                        if progressed {
                            return (DBTerm::App(Box::new(f), Box::new(a)), true);
                        }
                        if f.is_abs() {
                            return (DBTerm::App(Box::new(f), Box::new(a)).beta(), true);
                        }
                        (DBTerm::App(Box::new(f), Box::new(a)), false)
                    },
                    Strategy::CallByValue => {
                        let (a, progressed) = (*a).one_step(strategy);
                        if progressed {
                            return (DBTerm::App(f, Box::new(a)), true);
                        }
                        let (f, progressed) = (*f).one_step(strategy);
                        if progressed {
                            return (DBTerm::App(Box::new(f), Box::new(a)), true);
                        }
                        if f.is_abs() {
                            return (DBTerm::App(Box::new(f), Box::new(a)).beta(), true);
                        }
                        (DBTerm::App(Box::new(f), Box::new(a)), false)
                    },
                }
            },
        }
    }

    /// Takes at most `limit` steps under `strategy`. The flag tells whether
    /// the last step asked for was taken, so that more may follow.
    pub fn steps(self, strategy: Strategy, limit: u64) -> (r: (DBTerm, bool))
        requires
            self@.fits_for(strategy, limit as nat),
        ensures
            r.0@ == self@.run(strategy, limit as nat),
            r.1 == (limit > 0 && !self@.halts_within(strategy, (limit - 1) as nat)),
    {
        let ghost start = self@;
        let mut cur = self;
        let mut taken: u64 = 0;
        let mut progressed = false;
        while taken < limit
            invariant_except_break
                progressed == (taken > 0),
            invariant
                taken <= limit,
                start.fits_for(strategy, limit as nat),
                cur@ == start.run(strategy, taken as nat),
                taken > 0 ==> !start.halts_within(strategy, (taken - 1) as nat),
            ensures
                progressed ==> taken == limit && taken > 0,
                !progressed ==> limit == 0 || (taken < limit && cur@.is_normal(strategy)),
            decreases limit - taken,
        {
            proof {
                start.lemma_run_next(strategy, taken as nat);
                assert(start.run(strategy, (taken + 1) as nat).fits());
            }
            let (t, p) = cur.one_step(strategy);
            cur = t;
            progressed = p;
            if !p {
                break;
            }
            taken = taken + 1;
        }
        proof {
            if !progressed && limit > 0 {
                start.lemma_run_stable(strategy, taken as nat, limit as nat);
                start.lemma_run_stable(strategy, taken as nat, (limit - 1) as nat);
            }
        }
        (cur, progressed)
    }

    /// Steps under `strategy` until no step applies.
    pub fn many_steps(self, strategy: Strategy) -> (r: DBTerm)
        requires
            self@.normalizes(strategy),
            self@.run_fits(strategy),
        ensures
            r@ == self@.normal_form(strategy),
            r@.is_normal(strategy),
    {
        let ghost start = self@;
        let ghost mut fuel: nat = choose|n: nat| start.halts_within(strategy, n);
        let ghost mut done: nat = 0;
        let mut cur = self;
        loop
            invariant_except_break
                cur@.halts_within(strategy, fuel),
            invariant
                start.run_fits(strategy),
                cur@ == start.run(strategy, done),
            ensures
                cur@.is_normal(strategy),
            decreases fuel,
        {
            proof {
                start.lemma_run_next(strategy, done);
                assert(start.run(strategy, done + 1).fits());
            }
            let (t, progressed) = cur.one_step(strategy);
            cur = t;
            if !progressed {
                break;
            }
            proof {
                fuel = (fuel - 1) as nat;
                done = done + 1;
            }
        }
        proof {
            start.lemma_normal_form(strategy, done);
        }
        cur
    }

    /// Contracts the redex at the root; any other term comes back as it is.
    pub fn beta(self) -> (r: DBTerm)
        requires
            self@.beta().fits(),
        ensures
            r@ == self@.beta(),
            !self@.is_redex() ==> r@ == self@,
    {
        proof {
            self@.lemma_beta_is_instantiate();
        }
        match self {
            DBTerm::App(f, a) => match *f {
                DBTerm::Abs(h, b) => {
                    assert(f@ == IndexTerm::Abs(h as int, Box::new(b@)));
                    (*b)._instantiate(&*a, 0)
                },
                g => DBTerm::App(Box::new(g), a),
            },
            t => t,
        }
    }

    fn _instantiate(self, arg: &DBTerm, c: u32) -> (r: DBTerm)
        requires
            self@.instantiate(arg@, c as int).fits(),
        ensures
            r@ == self@.instantiate(arg@, c as int),
        decreases self,
    {
        match self {
            DBTerm::Var(x) => if x < c {
                DBTerm::Var(x)
            } else if x == c {
                arg.clone()._shift(c as i64, 0)
            } else {
                DBTerm::Var(x - 1)
            },
            DBTerm::Abs(h, b) => if c == u32::MAX {
                proof {
                    b.lemma_view_fits();
                    b@.lemma_instantiate_above(arg@, c as int + 1, u32::MAX as int);
                }
                DBTerm::Abs(h, b)
            } else {
                DBTerm::Abs(h, Box::new((*b)._instantiate(arg, c + 1)))
            },
            DBTerm::App(f, a) => DBTerm::App(
                Box::new((*f)._instantiate(arg, c)),
                Box::new((*a)._instantiate(arg, c)),
            ),
        }
    }

    /// Puts `s` in place of every free occurrence of index `y`.
    pub fn sub(self, y: u32, s: &DBTerm) -> (r: DBTerm)
        requires
            self@.subst(y as int, s@, 0).fits(),
        ensures
            r@ == self@.subst(y as int, s@, 0),
    {
        self._sub(y, s, 0)
    }

    fn _sub(self, y: u32, s: &DBTerm, c: u32) -> (r: DBTerm)
        requires
            self@.subst(y as int, s@, c as int).fits(),
        ensures
            r@ == self@.subst(y as int, s@, c as int),
        decreases self,
    {
        match self {
            DBTerm::Var(x) => if x as u64 == y as u64 + c as u64 {
                s.clone()._shift(c as i64, 0)
            } else {
                DBTerm::Var(x)
            },
            DBTerm::Abs(h, b) => if c == u32::MAX {
                proof {
                    b.lemma_view_fits();
                    b@.lemma_subst_above(y as int, s@, c as int + 1, u32::MAX as int);
                }
                DBTerm::Abs(h, b)
            } else {
                DBTerm::Abs(h, Box::new((*b)._sub(y, s, c + 1)))
            },
            DBTerm::App(f, a) => DBTerm::App(
                Box::new((*f)._sub(y, s, c)),
                Box::new((*a)._sub(y, s, c)),
            ),
        }
    }

    /// Whether the term, standing alone, can be written with names.
    pub fn is_nameable(&self) -> (r: bool)
        ensures
            r == self@.nameable(0, ALPHABET as int),
    {
        self._is_nameable(0)
    }

    fn _is_nameable(&self, depth: u64) -> (r: bool)
        requires
            depth <= 0x1_0000_0000,
        ensures
            r == self@.nameable(depth as int, ALPHABET as int),
        decreases self,
    {
        match self {
            DBTerm::Var(k) => {
                let k = *k as u64;
                k < depth || (depth < k && k <= depth + ALPHABET as u64)
            },
            DBTerm::Abs(h, b) => {
                if depth == 0x1_0000_0000 {
                    proof {
                        b.lemma_view_fits();
                        b@.lemma_nameable_deep(depth as int, depth as int + 1, ALPHABET as int);
                    }
                    *h < ALPHABET && b._is_nameable(depth)
                } else {
                    *h < ALPHABET && b._is_nameable(depth + 1)
                }
            },
            DBTerm::App(f, a) => f._is_nameable(depth) && a._is_nameable(depth),
        }
    }

    /// The term with names: each binder named by its hint, each bound
    /// variable by its binder, each free variable by its offset.
    pub fn to_term(self) -> (r: Term)
        requires
            self@.nameable(0, ALPHABET as int),
        ensures
            r == self@.named_form(),
    {
        let mut vec: Vec<char> = Vec::new();
        self._to_term(&mut vec)
    }

    fn _to_term(self, vec: &mut Vec<char>) -> (r: Term)
        requires
            self@.nameable(old(vec)@.len() as int, ALPHABET as int),
        ensures
            r == self@.render(old(vec)@),
            final(vec)@ == old(vec)@,
        decreases self,
    {
        match self {
            DBTerm::Var(x) => {
                let c = vec.len();
                if x as usize >= c {
                    Term::Var(to_char((x as usize - c - 1) as u32))
                } else {
                    Term::Var(vec[c - 1 - x as usize])
                }
            },
            DBTerm::Abs(h, b) => {
                let name = to_char(h);
                vec.push(name);
                let t = (*b)._to_term(vec);
                vec.pop();
                assert(vec@ =~= old(vec)@);
                Term::Abs(name, Box::new(t))
            },
            DBTerm::App(f, a) => {
                let f = (*f)._to_term(vec);
                let a = (*a)._to_term(vec);
                Term::App(Box::new(f), Box::new(a))
            },
        }
    }

    /// Adds `d` to every free index.
    pub fn shift(self, d: i32) -> (r: DBTerm)
        requires
            self@.shift(d as int, 0).fits(),
        ensures
            r@ == self@.shift(d as int, 0),
    {
        self._shift(d as i64, 0)
    }

    fn _shift(self, d: i64, cutoff: u32) -> (r: DBTerm)
        requires
            self@.shift(d as int, cutoff as int).fits(),
        ensures
            r@ == self@.shift(d as int, cutoff as int),
        decreases self,
    {
        match self {
            DBTerm::Var(x) => if x >= cutoff {
                DBTerm::Var((x as i64 + d) as u32)
            } else {
                DBTerm::Var(x)
            },
            DBTerm::Abs(h, b) => if cutoff == u32::MAX {
                proof {
                    b.lemma_view_fits();
                    b@.lemma_shift_above(d as int, cutoff as int + 1, u32::MAX as int);
                }
                DBTerm::Abs(h, b)
            } else {
                DBTerm::Abs(h, Box::new(b._shift(d, cutoff + 1)))
            },
            DBTerm::App(f, a) => DBTerm::App(
                Box::new(f._shift(d, cutoff)),
                Box::new(a._shift(d, cutoff)),
            ),
        }
    }
}

} // verus!
