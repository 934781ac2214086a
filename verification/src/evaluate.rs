//! Evaluation strategies and the environment of named definitions.

use vstd::prelude::*;
use vstd::string::StringExecFns;
use crate::error::LambError;
use crate::parser;
use crate::parser::ast::{Statement, StatementModel};
use crate::parser::grammar;
use crate::term::Term;

verus! {

/// The order in which redexes are contracted.
#[derive(Copy, Clone, Debug, PartialEq, Eq)]
pub enum Strategy {
    /// Leftmost-outermost, to full normal form.
    NormalOrder,
    /// Function and argument first, to full normal form.
    ApplicativeOrder,
    /// Head reduction only: nothing under a binder, no argument.
    CallByName,
    /// Argument before function, nothing under a binder.
    CallByValue,
}

impl Strategy {
    /// Whether the strategy reduces the body of an abstraction.
    pub open spec fn under_binders(self) -> bool {
        self is NormalOrder || self is ApplicativeOrder
    }

    /// The strategy that goes by the name `name`, long or short.
    pub open spec fn by_name(name: Seq<char>) -> Option<Strategy> {
        if name == "normal"@ || name == "n"@ {
            Some(Strategy::NormalOrder)
        } else if name == "applicative"@ || name == "a"@ {
            Some(Strategy::ApplicativeOrder)
        } else if name == "call_by_name"@ || name == "cbn"@ {
            Some(Strategy::CallByName)
        } else if name == "call_by_value"@ || name == "cbv"@ {
            Some(Strategy::CallByValue)
        } else {
            None
        }
    }

    /// The strategy that goes by the name `name`, if any does.
    pub fn named(name: &str) -> (r: Option<Strategy>)
        ensures
            r == Strategy::by_name(name@),
    {
        let name = String::from_str(name);
        if name == String::from_str("normal") || name == String::from_str("n") {
            Some(Strategy::NormalOrder)
        } else if name == String::from_str("applicative") || name == String::from_str("a") {
            Some(Strategy::ApplicativeOrder)
        } else if name == String::from_str("call_by_name") || name == String::from_str("cbn") {
            Some(Strategy::CallByName)
        } else if name == String::from_str("call_by_value") || name == String::from_str("cbv") {
            Some(Strategy::CallByValue)
        } else {
            None
        }
    }
}

impl std::str::FromStr for Strategy {
    type Err = &'static str;

    fn from_str(s: &str) -> (r: Result<Strategy, Self::Err>)
        ensures
            match Strategy::by_name(s@) {
                Some(strategy) => r == Ok::<Strategy, &'static str>(strategy),
                None => r matches Err(message) && message@ == "No match for Strategy"@,
            },
    {
        match Strategy::named(s) {
            Some(strategy) => Ok(strategy),
            None => Err("No match for Strategy"),
        }
    }
}

/// The definitions made so far: a mapping with one term for each defined
/// name.
pub struct Environment {
    entries: Vec<(String, Term)>,
}

impl View for Environment {
    type V = Map<Seq<char>, Term>;

    closed spec fn view(&self) -> Map<Seq<char>, Term> {
        Map::new(
            |name: Seq<char>| exists|i: int| self.holds_at(name, i),
            |name: Seq<char>| self.entries[choose|i: int| self.holds_at(name, i)].1,
        )
    }
}

impl Environment {
    /// No entry is for `name`.
    closed spec fn lacks(self, name: Seq<char>) -> bool {
        forall|j: int| 0 <= j < self.entries.len() ==> (#[trigger] self.entries[j]).0@ != name
    }

    /// The entry at `i` is the first one for `name`, the one that counts.
    closed spec fn holds_at(self, name: Seq<char>, i: int) -> bool {
        &&& 0 <= i < self.entries.len()
        &&& self.entries[i].0@ == name
        &&& forall|j: int| 0 <= j < i ==> (#[trigger] self.entries[j]).0@ != name
    }

    /// An environment without definitions.
    pub fn new() -> (r: Environment)
        ensures
            r@ == Map::<Seq<char>, Term>::empty(),
    {
        let r = Environment { entries: Vec::new() };
        assert(r@ =~= Map::<Seq<char>, Term>::empty());
        r
    }

    fn find(&self, name: &String) -> (r: Option<usize>)
        ensures
            match r {
                Some(i) => self.holds_at(name@, i as int),
                None => self.lacks(name@),
            },
    {
        let mut i: usize = 0;
        while i < self.entries.len()
            invariant
                i <= self.entries.len(),
                forall|j: int| 0 <= j < i ==> (#[trigger] self.entries[j]).0@ != name@,
            decreases self.entries.len() - i,
        {
            if self.entries[i].0 == *name {
                return Some(i);
            }
            i = i + 1;
        }
        None
    }

    /// The definition of `name`, if there is one.
    pub fn lookup(&self, name: &str) -> (r: Option<Term>)
        ensures
            r == if self@.contains_key(name@) {
                Some(self@[name@])
            } else {
                None
            },
    {
        let key = String::from_str(name);
        match self.find(&key) {
            Some(i) => {
                proof {
                    self.lemma_first_is_unique(name@, i as int);
                }
                Some(self.entries[i].1.clone())
            },
            None => None,
        }
    }

    /// Defines `name` as `term`, in place of any earlier definition.
    pub fn define(&mut self, name: &str, term: Term)
        ensures
            final(self)@ == old(self)@.insert(name@, term),
    {
        let key = String::from_str(name);
        let found = self.find(&key);
        match found {
            Some(i) => {
                self.entries.set(i, (key, term));
            },
            None => {
                self.entries.push((key, term));
            },
        }
        proof {
            let before = *old(self);
            let after = *self;
            assert forall|k: Seq<char>, i: int| k != name@ implies (before.holds_at(k, i)
                <==> after.holds_at(k, i)) by {
                if before.holds_at(k, i) {
                    assert forall|j: int| 0 <= j < i implies (#[trigger] after.entries[j]).0@
                        != k by {
                        assert(before.entries[j].0@ != k);
                    }
                }
                if after.holds_at(k, i) {
                    assert forall|j: int| 0 <= j < i implies (#[trigger] before.entries[j]).0@
                        != k by {
                        assert(after.entries[j].0@ != k);
                    }
                }
            }
            let at = match found {
                Some(i) => i as int,
                None => before.entries.len() as int,
            };
            assert forall|j: int| 0 <= j < at implies (#[trigger] after.entries[j]).0@
                != name@ by {
                assert(before.entries[j].0@ != name@);
            }
            assert(after.holds_at(name@, at));
            after.lemma_first_is_unique(name@, at);
            assert(after@ =~= before@.insert(name@, term));
        }
    }

    /// At most one entry counts for a name.
    proof fn lemma_first_is_unique(self, name: Seq<char>, i: int)
        requires
            self.holds_at(name, i),
        ensures
            forall|j: int| self.holds_at(name, j) ==> j == i,
            (choose|j: int| self.holds_at(name, j)) == i,
    {
    }
}

/// What a statement leaves to do.
#[derive(Debug, PartialEq, Eq)]
pub enum Outcome {
    /// Nothing: a definition was made.
    Defined,
    /// The file at the path, given as written, is to be loaded.
    Import(String),
    /// The value of an expression is to be shown.
    Value(Term),
}

/// What is left of a file when reading it stops at an import: the path,
/// given as written, and the statements behind it.
#[derive(Debug, PartialEq, Eq)]
pub struct Pending {
    pub path: String,
    pub rest: Vec<Statement>,
}

/// The term can be reduced under `strategy` on this machine: its names are
/// of the alphabet, its reduction ends, and every term on the way fits.
pub open spec fn reducible(t: Term, strategy: Strategy) -> bool {
    &&& t.convertible()
    &&& t.index_form().normalizes(strategy)
    &&& t.index_form().run_fits(strategy)
}

/// The term whose value a line of the interactive loop asks for under the
/// definitions `defs`, where the line is an expression that names defined
/// identifiers only.
pub open spec fn asked_term(line: Seq<char>, defs: Map<Seq<char>, Term>) -> Option<Term> {
    match grammar::repl(line) {
        Ok(StatementModel::Expr(e)) => match e.expand(defs) {
            Ok(t) => Some(t),
            Err(_) => None,
        },
        _ => None,
    }
}

/// What the statements of a file do to the definitions `defs`, one after
/// the other: the definitions at the end, and either the import at which
/// reading stops with the statements behind it, or the first identifier
/// that has no definition. Expressions are passed over.
pub open spec fn absorb(defs: Map<Seq<char>, Term>, stmts: Seq<StatementModel>) -> (
    Map<Seq<char>, Term>,
    Result<Option<(Seq<char>, Seq<StatementModel>)>, Seq<char>>,
)
    decreases stmts.len(),
{
    if stmts.len() == 0 {
        (defs, Ok(None))
    } else {
        match stmts[0] {
            StatementModel::Import(path) => (defs, Ok(Some((path, stmts.skip(1))))),
            StatementModel::Let(name, e) => match e.expand(defs) {
                Ok(t) => absorb(defs.insert(name, t), stmts.skip(1)),
                Err(missing) => (defs, Err(missing)),
            },
            StatementModel::Expr(_) => absorb(defs, stmts.skip(1)),
        }
    }
}

/// What was handed back agrees with the outcome `expected` of absorbing
/// statements.
pub open spec fn absorbed(
    r: Result<Option<Pending>, LambError>,
    expected: Result<Option<(Seq<char>, Seq<StatementModel>)>, Seq<char>>,
) -> bool {
    match expected {
        Ok(None) => r matches Ok(None),
        Ok(Some((path, rest))) => r matches Ok(Some(pending)) && pending.path@ == path
            && parser::statement_models(pending.rest@) == rest,
        Err(missing) => r matches Err(LambError::NotDefined(name)) && name@ == missing,
    }
}

/// The statements in the opposite order.
fn reversed(list: Vec<Statement>) -> (r: Vec<Statement>)
    ensures
        r@ == list@.reverse(),
{
    let mut from = list;
    let mut to: Vec<Statement> = Vec::new();
    let ghost all = from@;
    while from.len() > 0
        invariant
            from@.len() <= all.len(),
            from@ == all.take(from@.len() as int),
            to@.len() == all.len() - from@.len(),
            forall|k: int| 0 <= k < to@.len() ==> to@[k] == all[all.len() - 1 - k],
        decreases from@.len(),
    {
        let last = from.pop().unwrap();
        to.push(last);
    }
    assert(to@ =~= all.reverse());
    to
}

/// Evaluates statements against the definitions made so far.
pub struct Evaluator {
    pub env: Environment,
}

impl Evaluator {
    /// An evaluator without definitions.
    pub fn new() -> (r: Evaluator)
        ensures
            r.env@ == Map::<Seq<char>, Term>::empty(),
    {
        Evaluator { env: Environment::new() }
    }

    /// Defines `name` as `term`.
    pub fn add(&mut self, name: &str, term: Term)
        ensures
            final(self).env@ == old(self).env@.insert(name@, term),
    {
        self.env.define(name, term);
    }

    /// The definition of `name`, or the failure that names it.
    pub fn get(&self, name: &str) -> (r: Result<Term, LambError>)
        ensures
            match r {
                Ok(t) => self.env@.contains_key(name@) && t == self.env@[name@],
                Err(LambError::NotDefined(n)) => !self.env@.contains_key(name@) && n@ == name@,
                Err(_) => false,
            },
    {
        match self.env.lookup(name) {
            Some(t) => Ok(t),
            None => Err(LambError::NotDefined(String::from_str(name))),
        }
    }

    /// Reads an expression that names no definition and reduces it in
    /// normal order.
    pub fn eval(expr: &str) -> (r: Result<Term, LambError>)
        requires
            match grammar::term(expr@) {
                Ok(e) => match e.expand(Map::empty()) {
                    Ok(t) => reducible(t, Strategy::NormalOrder),
                    Err(_) => true,
                },
                Err(_) => true,
            },
        ensures
            match grammar::term(expr@) {
                Ok(e) => match e.expand(Map::empty()) {
                    Ok(t) => r == Ok::<Term, LambError>(
                        t.index_form().normal_form(Strategy::NormalOrder).named_form(),
                    ),
                    Err(missing) => r matches Err(LambError::NotDefined(n)) && n@ == missing,
                },
                Err((expected, at)) => r matches Err(LambError::Parse(message)) && message@
                    == grammar::opening(expected) + at,
            },
    {
        let e = match parser::parse(parser::term, expr) {
            Ok((_, e)) => e,
            Err(e) => { return Err(e); },
        };
        match e.to_term(&Environment::new()) {
            Ok(t) => Ok(t.reduce(Strategy::NormalOrder)),
            Err(e) => Err(e),
        }
    }

    /// The term whose value `line` asks for, if it asks for one: what
    /// `eval_repl` is going to reduce.
    pub fn asked(&self, line: &str) -> (r: Option<Term>)
        ensures
            r == asked_term(line@, self.env@),
    {
        match parser::repl(line) {
            Ok((_, Statement::Expr(e))) => match e.to_term(&self.env) {
                Ok(t) => Some(t),
                Err(_) => None,
            },
            _ => None,
        }
    }

    /// Evaluates one line of the interactive loop: makes the definition, or
    /// says which file to load, or reduces the expression under `strategy`
    /// and hands out its value.
    pub fn eval_repl(&mut self, line: &str, strategy: Strategy) -> (r: Result<Outcome, LambError>)
        requires
            match asked_term(line@, old(self).env@) {
                Some(t) => reducible(t, strategy),
                None => true,
            },
        ensures
            match grammar::repl(line@) {
                Ok(StatementModel::Import(path)) => r matches Ok(Outcome::Import(p)) && p@ == path
                    && final(self).env@ == old(self).env@,
                Ok(StatementModel::Let(name, e)) => match e.expand(old(self).env@) {
                    Ok(t) => r matches Ok(Outcome::Defined) && final(self).env@ == old(
                        self,
                    ).env@.insert(name, t),
                    Err(missing) => r matches Err(LambError::NotDefined(n)) && n@ == missing
                        && final(self).env@ == old(self).env@,
                },
                Ok(StatementModel::Expr(e)) => match e.expand(old(self).env@) {
                    Ok(t) => r matches Ok(Outcome::Value(v)) && v == t.index_form().normal_form(
                        strategy,
                    ).named_form() && final(self).env@ == old(self).env@,
                    Err(missing) => r matches Err(LambError::NotDefined(n)) && n@ == missing
                        && final(self).env@ == old(self).env@,
                },
                Err((expected, at)) => r matches Err(LambError::Parse(message)) && message@
                    == grammar::opening(expected) + at && final(self).env@ == old(self).env@,
            },
    {
        let stmt = match parser::parse(parser::repl, line) {
            Ok((_, stmt)) => stmt,
            Err(e) => { return Err(e); },
        };
        match stmt {
            Statement::Import(path) => Ok(Outcome::Import(path)),
            Statement::Let(name, e) => match e.to_term(&self.env) {
                Ok(t) => {
                    self.add(name.as_str(), t);
                    Ok(Outcome::Defined)
                },
                Err(e) => Err(e),
            },
            Statement::Expr(e) => match e.to_term(&self.env) {
                Ok(t) => Ok(Outcome::Value(t.reduce(strategy))),
                Err(e) => Err(e),
            },
        }
    }

    /// Evaluates the text of a file: makes its definitions in order, up to
    /// the first import, which is handed back with the statements behind it.
    pub fn eval_file(&mut self, contents: &str) -> (r: Result<Option<Pending>, LambError>)
        ensures
            match grammar::file(contents@) {
                Ok(list) => final(self).env@ == absorb(old(self).env@, list).0 && absorbed(
                    r,
                    absorb(old(self).env@, list).1,
                ),
                Err((expected, at)) => r matches Err(LambError::Parse(message)) && message@
                    == grammar::opening(expected) + at && final(self).env@ == old(self).env@,
            },
    {
        match parser::parse(parser::file, contents) {
            Ok((_, list)) => self.eval_statements(list),
            Err(e) => Err(e),
        }
    }

    /// Makes the definitions of `stmts` in order, up to the first import,
    /// which is handed back with the statements behind it.
    pub fn eval_statements(&mut self, stmts: Vec<Statement>) -> (r: Result<Option<Pending>, LambError>)
        ensures
            final(self).env@ == absorb(old(self).env@, parser::statement_models(stmts@)).0,
            absorbed(r, absorb(old(self).env@, parser::statement_models(stmts@)).1),
    {
        let ghost all = parser::statement_models(stmts@);
        let ghost start = self.env@;
        let mut stack = reversed(stmts);
        assert(parser::statement_models(stack@.reverse()) =~= all);
        loop
            invariant
                start == old(self).env@,
                all == parser::statement_models(stmts@),
                absorb(start, all) == absorb(
                    self.env@,
                    parser::statement_models(stack@.reverse()),
                ),
            decreases stack@.len(),
        {
            let ghost before = parser::statement_models(stack@.reverse());
            let next = match stack.pop() {
                Some(next) => next,
                None => {
                    assert(before.len() == 0);
                    return Ok(None);
                },
            };
            proof {
                let after = parser::statement_models(stack@.reverse());
                assert(before[0] == next@);
                assert(after =~= before.skip(1));
            }
            match next {
                Statement::Import(path) => {
                    let rest = reversed(stack);
                    return Ok(Some(Pending { path, rest }));
                },
                Statement::Let(name, e) => match e.to_term(&self.env) {
                    Ok(t) => {
                        self.add(name.as_str(), t);
                    },
                    Err(e) => { return Err(e); },
                },
                Statement::Expr(_) => {},
            }
        }
    }
}

} // verus!
