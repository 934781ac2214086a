//! Expressions and statements as they are written.

use vstd::prelude::*;
use crate::error::LambError;
use crate::evaluate::Environment;
use crate::term::Term;

verus! {

/// An expression of the surface language: a term that may also name
/// definitions and write numerals.
#[derive(Debug, PartialEq, Eq)]
pub enum Expr {
    Var(char),
    Ident(String),
    Num(u64),
    Abs(char, Box<Expr>),
    App(Box<Expr>, Box<Expr>),
}

/// One statement of a file or of an interactive line.
#[derive(Debug, PartialEq, Eq)]
pub enum Statement {
    /// Load the definitions of the file at the path, given as written.
    Import(String),
    /// Bind the name to the expression.
    Let(String, Expr),
    /// Evaluate the expression.
    Expr(Expr),
}

/// An expression as a mathematical value: identifiers are sequences of
/// characters.
pub enum ExprModel {
    Var(char),
    Ident(Seq<char>),
    Num(u64),
    Abs(char, Box<ExprModel>),
    App(Box<ExprModel>, Box<ExprModel>),
}

/// A statement as a mathematical value.
pub enum StatementModel {
    Import(Seq<char>),
    Let(Seq<char>, ExprModel),
    Expr(ExprModel),
}

impl Expr {
    /// The expression as a mathematical value.
    pub open spec fn model(self) -> ExprModel
        decreases self,
    {
        match self {
            Expr::Var(x) => ExprModel::Var(x),
            Expr::Ident(name) => ExprModel::Ident(name@),
            Expr::Num(n) => ExprModel::Num(n),
            Expr::Abs(x, e) => ExprModel::Abs(x, Box::new(e.model())),
            Expr::App(f, a) => ExprModel::App(Box::new(f.model()), Box::new(a.model())),
        }
    }
}

impl View for Expr {
    type V = ExprModel;

    open spec fn view(&self) -> ExprModel {
        self.model()
    }
}

impl View for Statement {
    type V = StatementModel;

    open spec fn view(&self) -> StatementModel {
        match self {
            Statement::Import(path) => StatementModel::Import(path@),
            Statement::Let(name, e) => StatementModel::Let(name@, e@),
            Statement::Expr(e) => StatementModel::Expr(e@),
        }
    }
}

impl Clone for Expr {
    fn clone(&self) -> (r: Self)
        ensures
            r@ == self@,
        decreases self,
    {
        match self {
            Expr::Var(x) => Expr::Var(*x),
            Expr::Ident(name) => Expr::Ident(name.clone()),
            Expr::Num(n) => Expr::Num(*n),
            Expr::Abs(x, e) => Expr::Abs(*x, Box::new((&**e).clone())),
            Expr::App(f, a) => Expr::App(Box::new((&**f).clone()), Box::new((&**a).clone())),
        }
    }
}

impl ExprModel {
    /// The term that the expression stands for under the definitions
    /// `defs`, or the first identifier, in reading order, that has none.
    pub open spec fn expand(self, defs: Map<Seq<char>, Term>) -> Result<Term, Seq<char>>
        decreases self,
    {
        match self {
            ExprModel::Var(x) => Ok(Term::Var(x)),
            ExprModel::Ident(name) => if defs.contains_key(name) {
                Ok(defs[name])
            } else {
                Err(name)
            },
            ExprModel::Num(n) => Ok(Term::numeral(n as nat)),
            ExprModel::Abs(x, e) => match e.expand(defs) {
                Ok(t) => Ok(Term::Abs(x, Box::new(t))),
                Err(name) => Err(name),
            },
            ExprModel::App(f, a) => match f.expand(defs) {
                Ok(t) => match a.expand(defs) {
                    Ok(u) => Ok(Term::App(Box::new(t), Box::new(u))),
                    Err(name) => Err(name),
                },
                Err(name) => Err(name),
            },
        }
    }
}

impl Expr {
    /// Replaces every identifier by its definition and every numeral by its
    /// Church numeral. Fails on the first identifier without a definition,
    /// and names it.
    pub fn to_term(self, env: &Environment) -> (r: Result<Term, LambError>)
        ensures
            match self@.expand(env@) {
                Ok(t) => r == Ok::<Term, LambError>(t),
                Err(name) => r matches Err(LambError::NotDefined(n)) && n@ == name,
            },
        decreases self,
    {
        match self {
            Expr::Var(x) => Ok(Term::Var(x)),
            Expr::Ident(name) => match env.lookup(name.as_str()) {
                Some(t) => Ok(t),
                None => Err(LambError::NotDefined(name)),
            },
            Expr::Num(n) => Ok(Term::from_nr(n)),
            Expr::Abs(x, e) => match (*e).to_term(env) {
                Ok(t) => Ok(Term::Abs(x, Box::new(t))),
                Err(e) => Err(e),
            },
            Expr::App(f, a) => match (*f).to_term(env) {
                Ok(t) => match (*a).to_term(env) {
                    Ok(u) => Ok(Term::App(Box::new(t), Box::new(u))),
                    Err(e) => Err(e),
                },
                Err(e) => Err(e),
            },
        }
    }
}

} // verus!

