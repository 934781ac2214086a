//! Named terms, and their conversion to index terms.

use vstd::prelude::*;
use std::collections::HashMap;
use crate::debruijn::DBTerm;
use crate::evaluate::Strategy;
use crate::model::IndexTerm;

verus! {

/// A lambda term whose variables are single characters.
#[derive(Debug, PartialEq, Eq)]
pub enum Term {
    Var(char),
    Abs(char, Box<Term>),
    App(Box<Term>, Box<Term>),
}

/// The number of names: the characters from `'a'` up to `'\u{ff}'`, those
/// whose offset from `'a'` fits one byte.
pub const ALPHABET: u32 = 159;

/// The offset of `c` from `'a'`.
pub open spec fn name_index(c: char) -> int {
    c as int - 'a' as int
}

/// The name at offset `i` from `'a'`.
pub open spec fn name_at(i: int) -> char {
    (i + 'a' as int) as char
}

/// Whether `c` is a name of the alphabet.
pub open spec fn is_name(c: char) -> bool {
    0 <= name_index(c) < ALPHABET
}

/// Whether `c` is a name of the alphabet.
pub fn is_name_char(c: char) -> (r: bool)
    ensures
        r == is_name(c),
{
    'a' <= c && c <= '\u{ff}'
}

/// The number of binders between an occurrence of `x` and the nearest
/// binder of that name, where `binders` lists the enclosing binders from the
/// outermost to the innermost; `None` where no enclosing binder has the name.
pub open spec fn distance(binders: Seq<char>, x: char) -> Option<int>
    decreases binders.len(),
{
    if binders.len() == 0 {
        None
    } else if binders.last() == x {
        Some(0)
    } else {
        match distance(binders.drop_last(), x) {
            Some(k) => Some(k + 1),
            None => None,
        }
    }
}

impl Term {
    /// Every name in the term belongs to the alphabet.
    pub open spec fn well_formed(self) -> bool
        decreases self,
    {
        match self {
            Term::Var(x) => is_name(x),
            Term::Abs(x, b) => is_name(x) && b.well_formed(),
            Term::App(f, a) => f.well_formed() && a.well_formed(),
        }
    }

    /// The greatest number of binders around any point of the term.
    pub open spec fn binder_depth(self) -> nat
        decreases self,
    {
        match self {
            Term::Var(_) => 0,
            Term::Abs(_, b) => b.binder_depth() + 1,
            Term::App(f, a) => if f.binder_depth() >= a.binder_depth() {
                f.binder_depth()
            } else {
                a.binder_depth()
            },
        }
    }

    /// The index term for the term, read below the binders `binders`.
    ///
    /// A bound variable becomes its distance to its binder. A free one
    /// becomes its offset in the alphabet, put above every binder around it
    /// and one more, so that a free name has the same identity at every
    /// depth.
    pub open spec fn resolve(self, binders: Seq<char>) -> IndexTerm
        decreases self,
    {
        match self {
            Term::Var(x) => match distance(binders, x) {
                Some(k) => IndexTerm::Var(k),
                None => IndexTerm::Var(name_index(x) + binders.len() + 1),
            },
            Term::Abs(x, b) => IndexTerm::Abs(name_index(x), Box::new(b.resolve(binders.push(x)))),
            Term::App(f, a) => IndexTerm::App(
                Box::new(f.resolve(binders)),
                Box::new(a.resolve(binders)),
            ),
        }
    }

    /// The index term for the term standing alone.
    pub open spec fn index_form(self) -> IndexTerm {
        self.resolve(Seq::empty())
    }
}

impl IndexTerm {
    /// The named term for the index term, written below the binders
    /// `binders`: a bound index becomes the name of its binder, a free one
    /// the name at its offset, and each binder takes the name of its hint.
    pub open spec fn render(self, binders: Seq<char>) -> Term
        decreases self,
    {
        match self {
            IndexTerm::Var(k) => if k >= binders.len() {
                Term::Var(name_at(k - binders.len() - 1))
            } else {
                Term::Var(binders[binders.len() - 1 - k])
            },
            IndexTerm::Abs(h, b) => Term::Abs(
                name_at(h),
                Box::new(b.render(binders.push(name_at(h)))),
            ),
            IndexTerm::App(f, a) => Term::App(
                Box::new(f.render(binders)),
                Box::new(a.render(binders)),
            ),
        }
    }

    /// The named term for the index term standing alone.
    pub open spec fn named_form(self) -> Term {
        self.render(Seq::empty())
    }
}

impl Clone for Term {
    fn clone(&self) -> (r: Self)
        ensures
            r == *self,
        decreases self,
    {
        match self {
            Term::Var(x) => Term::Var(*x),
            Term::Abs(x, b) => Term::Abs(*x, Box::new((&**b).clone())),
            Term::App(f, a) => Term::App(Box::new((&**f).clone()), Box::new((&**a).clone())),
        }
    }
}

/// What the table of visible binders holds while a term is read below
/// `binders`: for each name among them, keyed by its code point, the depth
/// of its innermost binder.
pub open spec fn tracks(table: Map<u32, u32>, binders: Seq<char>) -> bool {
    forall|x: char|
        match #[trigger] distance(binders, x) {
            Some(k) => table.contains_key(x as u32) && table[x as u32] == binders.len() - 1 - k,
            None => !table.contains_key(x as u32),
        }
}

/// A found distance lies among the binders.
pub proof fn lemma_distance_bound(binders: Seq<char>, x: char)
    ensures
        match distance(binders, x) {
            Some(k) => 0 <= k < binders.len() && binders[binders.len() - 1 - k] == x,
            None => !binders.contains(x),
        },
    decreases binders.len(),
{
    if binders.len() > 0 {
        lemma_distance_bound(binders.drop_last(), x);
        if binders.last() != x && distance(binders.drop_last(), x) is None {
            assert forall|i: int| 0 <= i < binders.len() implies binders[i] != x by {
                if i < binders.len() - 1 {
                    assert(binders.drop_last()[i] == binders[i]);
                }
            }
        }
    }
}

impl Term {
    /// The index form of a well-formed term is nameable.
    pub proof fn lemma_resolve_nameable(self, binders: Seq<char>)
        requires
            self.well_formed(),
        ensures
            self.resolve(binders).nameable(binders.len() as int, ALPHABET as int),
        decreases self,
    {
        match self {
            Term::Var(x) => { lemma_distance_bound(binders, x); },
            Term::Abs(x, b) => { b.lemma_resolve_nameable(binders.push(x)); },
            Term::App(f, a) => {
                f.lemma_resolve_nameable(binders);
                a.lemma_resolve_nameable(binders);
            },
        }
    }

    /// The Church numeral of `nr`: `f` applied `nr` times to `x`, under the
    /// binders of `f` and `x`.
    pub fn from_nr(nr: u64) -> (r: Term)
        ensures
            r == Term::numeral(nr as nat),
    {
        Term::Abs('f', Box::new(Term::Abs('x', Box::new(Self::_from_nr(nr)))))
    }

    /// The Church numeral of `n`.
    pub open spec fn numeral(n: nat) -> Term {
        Term::Abs('f', Box::new(Term::Abs('x', Box::new(Term::iterate(n)))))
    }

    /// `f` applied `n` times to `x`.
    pub open spec fn iterate(n: nat) -> Term
        decreases n,
    {
        if n == 0 {
            Term::Var('x')
        } else {
            Term::App(Box::new(Term::Var('f')), Box::new(Term::iterate((n - 1) as nat)))
        }
    }

    fn _from_nr(nr: u64) -> (r: Term)
        ensures
            r == Term::iterate(nr as nat),
    {
        let mut t = Term::Var('x');
        let mut i: u64 = 0;
        while i < nr
            invariant
                i <= nr,
                t == Term::iterate(i as nat),
            decreases nr - i,
        {
            t = Term::App(Box::new(Term::Var('f')), Box::new(t));
            i = i + 1;
        }
        t
    }

    /// Whether every name in the term belongs to the alphabet.
    pub fn is_well_formed(&self) -> (r: bool)
        ensures
            r == self.well_formed(),
        decreases self,
    {
        match self {
            Term::Var(x) => is_name_char(*x),
            Term::Abs(x, b) => is_name_char(*x) && b.is_well_formed(),
            Term::App(f, a) => f.is_well_formed() && a.is_well_formed(),
        }
    }

    /// Reduces the term under `strategy` and gives the result its names
    /// back.
    pub fn reduce(self, strategy: Strategy) -> (r: Term)
        requires
            self.convertible(),
            self.index_form().normalizes(strategy),
            self.index_form().run_fits(strategy),
        ensures
            r == self.index_form().normal_form(strategy).named_form(),
    {
        proof {
            let start = self.index_form();
            self.lemma_resolve_nameable(Seq::empty());
            let n = choose|n: nat| start.halts_within(strategy, n);
            start.lemma_run_nameable(strategy, n, 0, ALPHABET as int);
        }
        self.to_de_bruijn().reduce(strategy).to_term()
    }

    /// The term can be held in de Bruijn form on this machine: its names
    /// are of the alphabet, its binders are no deeper than an index can
    /// count, and every index of its index form fits.
    pub open spec fn convertible(self) -> bool {
        &&& self.well_formed()
        &&& self.binder_depth() <= u32::MAX
        &&& self.index_form().fits()
    }

    /// The term in de Bruijn form.
    pub fn to_de_bruijn(self) -> (r: DBTerm)
        requires
            self.convertible(),
        ensures
            r@ == self.index_form(),
    {
        match self.try_to_de_bruijn() {
            Some(r) => r,
            None => vstd::pervasive::unreached(),
        }
    }

    /// The term in de Bruijn form, where it can be held in that form.
    pub fn try_to_de_bruijn(self) -> (r: Option<DBTerm>)
        ensures
            match r {
                Some(d) => self.convertible() && d@ == self.index_form(),
                None => !self.convertible(),
            },
    {
        let mut map: HashMap<u32, u32> = HashMap::new();
        self._to_de_bruijn(&mut map, 0, Ghost(Seq::empty()))
    }

    /// Whether the term can be held in de Bruijn form.
    pub fn is_convertible(&self) -> (r: bool)
        ensures
            r == self.convertible(),
    {
        self.clone().try_to_de_bruijn().is_some()
    }

    /// The term can be read below `c` binders on this machine.
    pub open spec fn readable(self, binders: Seq<char>) -> bool {
        &&& self.well_formed()
        &&& binders.len() + self.binder_depth() <= u32::MAX
        &&& self.resolve(binders).fits()
    }

    fn _to_de_bruijn(self, map: &mut HashMap<u32, u32>, c: u32, Ghost(binders): Ghost<Seq<char>>) -> (r: Option<DBTerm>)
        requires
            binders.len() == c,
            tracks(old(map)@, binders),
        ensures
            match r {
                Some(d) => self.readable(binders) && d@ == self.resolve(binders),
                None => !self.readable(binders),
            },
            final(map)@ == old(map)@,
        decreases self,
    {
        match self {
            Term::Var(x) => {
                proof {
                    lemma_distance_bound(binders, x);
                }
                if !is_name_char(x) {
                    return None;
                }
                match map.get(&(x as u32)) {
                    Some(i) => Some(DBTerm::Var(c - *i - 1)),
                    None => {
                        let offset = x as u32 - 'a' as u32;
                        if c > u32::MAX - offset - 1 {
                            None
                        } else {
                            Some(DBTerm::Var(offset + c + 1))
                        }
                    },
                }
            },
            Term::Abs(x, b) => {
                if !is_name_char(x) || c == u32::MAX {
                    return None;
                }
                let key = x as u32;
                let before = match map.get(&key) {
                    Some(i) => Some(*i),
                    None => None,
                };
                map.insert(key, c);
                proof {
                    assert forall|y: char| true implies match #[trigger] distance(binders.push(x), y) {
                        Some(k) => map@.contains_key(y as u32) && map@[y as u32] == binders.push(x).len() - 1 - k,
                        None => !map@.contains_key(y as u32),
                    } by {
                        assert(binders.push(x).drop_last() == binders);
                        vstd::utf8::char_u32_cast(y, y as u32);
                        vstd::utf8::char_u32_cast(x, x as u32);
                        if x != y {
                            assert(y as u32 != key);
                            assert(distance(binders.push(x), y) == match distance(binders, y) {
                                Some(k) => Some(k + 1),
                                None => None,
                            });
                        }
                    }
                }
                let body = (*b)._to_de_bruijn(map, c + 1, Ghost(binders.push(x)));
                match before {
                    None => { map.remove(&key); },
                    Some(u) => { map.insert(key, u); },
                };
                assert(map@ =~= old(map)@);
                match body {
                    Some(body) => Some(DBTerm::Abs(x as u32 - 'a' as u32, Box::new(body))),
                    None => None,
                }
            },
            Term::App(f, a) => {
                let f = match (*f)._to_de_bruijn(map, c, Ghost(binders)) {
                    Some(f) => f,
                    None => { return None; },
                };
                let a = match (*a)._to_de_bruijn(map, c, Ghost(binders)) {
                    Some(a) => a,
                    None => { return None; },
                };
                Some(DBTerm::App(Box::new(f), Box::new(a)))
            },
        }
    }
}

} // verus!
