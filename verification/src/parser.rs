//! The surface syntax: reading expressions and statements off a text.

pub mod ast;
pub mod scan;
pub mod grammar;

use vstd::prelude::*;
use vstd::string::{StrSliceExecFns, StringExecFns};
use crate::error::LambError;
use crate::parser::grammar::Expected;
use crate::parser::ast::{Expr, ExprModel, Statement, StatementModel};
use crate::parser::scan::{
    alphanumeric1, anychar, char_, digit1, is_lowercase, is_whitespace, lemma_leading_bound,
    lemma_leading_run, multispace0, multispace1, tag, Class, Split,
};

verus! {

/// What a parser hands back agrees with what the grammar reads: the value
/// and the text left, or neither.
pub open spec fn reads<T: View>(r: Option<(&str, T)>, expected: Option<(T::V, Seq<char>)>) -> bool {
    match expected {
        Some((value, rest)) => r matches Some((a, b)) && a@ == rest && b@ == value,
        None => r is None,
    }
}

/// Skips the blanks at the front of the text.
fn space<'a>(i: &'a str) -> (r: &'a str)
    ensures
        r@ == grammar::skip_blanks(i@),
{
    match multispace0(i) {
        Some((rest, _)) => rest,
        None => vstd::pervasive::unreached(),
    }
}

/// A variable: one lowercase character.
fn var<'a>(i: &'a str) -> (r: Option<(&'a str, Expr)>)
    ensures
        reads(r, grammar::var(i@)),
{
    proof {
        reveal_strlit("let");
        assert("let"@ =~= grammar::word_let());
    }
    if tag("let", i).is_some() {
        return None;
    }
    match anychar(space(i)) {
        Some(Split { first, rest }) => if is_lowercase(first) {
            Some((rest, Expr::Var(first)))
        } else {
            None
        },
        None => None,
    }
}

/// Whether `name` may be defined: it is not the word `let`, and it is a
/// lowercase letter followed by more, or begins with an uppercase letter.
fn verify_name(name: &str) -> (r: bool)
    ensures
        r == grammar::is_identifier(name@),
{
    proof {
        reveal_strlit("let");
        assert("let"@ =~= grammar::word_let());
    }
    if let Some(rest) = tag("let", name) {
        if rest.is_empty() {
            assert(name@ =~= grammar::word_let());
            return false;
        }
    }
    assert(name@ != grammar::word_let()) by {
        if name@ == grammar::word_let() {
            assert(name@.take(3) =~= name@);
            assert(name@.skip(3).len() == 0);
        }
    }
    match anychar(name) {
        Some(Split { first, rest }) => {
            ('a' <= first && first <= 'z' && !rest.is_empty()) || ('A' <= first && first <= 'Z')
        },
        None => false,
    }
}

/// An identifier: a run of letters and digits that may be defined.
fn identifier<'a>(i: &'a str) -> (r: Option<(&'a str, String)>)
    ensures
        reads(r, grammar::identifier(i@)),
{
    proof {
        reveal_strlit("let");
        assert("let"@ =~= grammar::word_let());
        lemma_leading_run(i@, Class::Alphanumeric);
    }
    if tag("let", i).is_some() {
        return None;
    }
    match alphanumeric1(i) {
        Some((rest, name)) => if verify_name(name) {
            Some((rest, name.to_owned()))
        } else {
            None
        },
        None => {
            assert(i@.take(0).len() == 0);
            None
        },
    }
}

/// The number that a run of decimal digits writes, where it fits 64 bits.
fn decimal(digits: &str) -> (r: Option<u64>)
    requires
        forall|i: int| 0 <= i < digits@.len() ==> scan::is_digit(#[trigger] digits@[i]),
    ensures
        r == if grammar::decimal(digits@) <= u64::MAX {
            Some(grammar::decimal(digits@) as u64)
        } else {
            None
        },
{
    let mut cur = digits;
    let mut value: u64 = 0;
    let ghost mut done: int = 0;
    assert(digits@.take(0) =~= Seq::<char>::empty());
    loop
        invariant
            0 <= done <= digits@.len(),
            cur@ == digits@.skip(done),
            value == grammar::decimal(digits@.take(done)),
            forall|i: int| 0 <= i < digits@.len() ==> scan::is_digit(#[trigger] digits@[i]),
        decreases digits@.len() - done,
    {
        match anychar(cur) {
            None => {
                assert(digits@.take(done) =~= digits@);
                return Some(value);
            },
            Some(Split { first, rest }) => {
                assert(first == digits@[done]);
                let digit = (first as u32 - '0' as u32) as u64;
                proof {
                    assert(digits@.take(done + 1).drop_last() =~= digits@.take(done));
                    assert(digits@.take(done + 1).last() == first);
                    grammar::lemma_decimal_monotone(digits@, done + 1);
                    assert(rest@ =~= digits@.skip(done + 1));
                }
                if value > (u64::MAX - digit) / 10 {
                    return None;
                }
                value = value * 10 + digit;
                cur = rest;
                proof {
                    done = done + 1;
                }
            },
        }
    }
}

/// A numeral: a run of digits that fits 64 bits.
fn number<'a>(i: &'a str) -> (r: Option<(&'a str, u64)>)
    ensures
        reads(r, grammar::number(i@)),
{
    proof {
        lemma_leading_run(i@, Class::Digit);
    }
    match digit1(i) {
        Some((rest, digits)) => match decimal(digits) {
            Some(n) => Some((rest, n)),
            None => None,
        },
        None => None,
    }
}

/// A numeral, an identifier or a variable.
fn atom<'a>(i: &'a str) -> (r: Option<(&'a str, Expr)>)
    ensures
        reads(r, grammar::atom(i@)),
{
    if let Some((rest, n)) = number(i) {
        return Some((rest, Expr::Num(n)));
    }
    if let Some((rest, name)) = identifier(i) {
        return Some((rest, Expr::Ident(name)));
    }
    var(i)
}

/// An abstraction: a backslash, the bound variable, a dot and the body.
fn abs<'a>(i: &'a str) -> (r: Option<(&'a str, Expr)>)
    ensures
        reads(r, grammar::abs(i@)),
    decreases i@.len(), 0nat,
{
    proof {
        lemma_leading_bound(i@.skip(1), Class::Blank);
    }
    let i1 = match char_('\\', i) {
        Some(rest) => rest,
        None => { return None; },
    };
    let (i2, c) = match anychar(space(i1)) {
        Some(Split { first, rest }) => (rest, first),
        None => { return None; },
    };
    if !is_lowercase(c) {
        return None;
    }
    let i3 = match char_('.', i2) {
        Some(rest) => rest,
        None => { return None; },
    };
    assert(i3@ =~= grammar::skip_blanks(i@.skip(1)).skip(2));
    match expr(i3) {
        Some((rest, body)) => Some((rest, Expr::Abs(c, Box::new(body)))),
        None => None,
    }
}

/// An expression between parentheses; blanks before the closing one are
/// allowed where `loose` is set.
fn parenthesized<'a>(i: &'a str, loose: bool) -> (r: Option<(&'a str, Expr)>)
    ensures
        reads(r, grammar::parenthesized(i@, loose)),
    decreases i@.len(), 0nat,
{
    let i1 = match char_('(', i) {
        Some(rest) => rest,
        None => { return None; },
    };
    match expr(i1) {
        Some((rest, inner)) => {
            let t = if loose {
                space(rest)
            } else {
                rest
            };
            match char_(')', t) {
                Some(rest) => Some((rest, inner)),
                None => None,
            }
        },
        None => None,
    }
}

/// An expression that is not an application.
fn expr_no_app<'a>(i: &'a str) -> (r: Option<(&'a str, Expr)>)
    ensures
        reads(r, grammar::expr_no_app(i@)),
    decreases i@.len(), 1nat,
{
    proof {
        lemma_leading_bound(i@, Class::Blank);
    }
    let t = space(i);
    if let Some(found) = parenthesized(t, true) {
        return Some(found);
    }
    if let Some(found) = abs(t) {
        return Some(found);
    }
    atom(t)
}

/// The values that a list of expressions stands for.
pub open spec fn models(list: Seq<Expr>) -> Seq<ExprModel> {
    Seq::new(list.len(), |k: int| list[k]@)
}

/// Two or more expressions that are not applications, separated by blanks.
fn apps_vec<'a>(i: &'a str) -> (r: Option<(&'a str, Vec<Expr>)>)
    ensures
        match r {
            Some((rest, list)) => grammar::items(i@) == (models(list@), rest@) && list@.len() >= 2,
            None => grammar::items(i@).0.len() < 2,
        },
    decreases i@.len(), 3nat,
{
    let mut list: Vec<Expr> = Vec::new();
    let mut cur = i;
    match expr_no_app(i) {
        Some((rest, item)) => {
            proof {
                grammar::lemma_expr_no_app_consumes(i@);
            }
            list.push(item);
            cur = rest;
        },
        None => { return None; },
    }
    assert(models(list@) =~= seq![list@[0]@]);
    loop
        invariant_except_break
            grammar::items(i@) == grammar::more_items(cur@, models(list@)),
        invariant
            cur@.len() < i@.len(),
            list@.len() >= 1,
        ensures
            grammar::items(i@) == (models(list@), cur@),
        decreases cur@.len(),
    {
        proof {
            lemma_leading_bound(cur@, Class::Blank);
        }
        let after = match multispace1(cur) {
            Some((rest, _)) => rest,
            None => { break; },
        };
        match expr_no_app(after) {
            Some((rest, item)) => {
                proof {
                    grammar::lemma_expr_no_app_consumes(after@);
                    assert(models(list@.push(item)) =~= models(list@).push(item@));
                }
                list.push(item);
                cur = rest;
            },
            None => { break; },
        }
    }
    if list.len() >= 2 {
        Some((cur, list))
    } else {
        None
    }
}

/// An application: the first of two or more expressions applied to the
/// others in turn.
fn app<'a>(i: &'a str) -> (r: Option<(&'a str, Expr)>)
    ensures
        reads(r, grammar::app(i@)),
    decreases i@.len(), 4nat,
{
    match apps_vec(i) {
        Some((rest, list)) => {
            let mut acc = list[0].clone();
            let mut k: usize = 1;
            assert(models(list@).take(1) =~= seq![list@[0]@]);
            while k < list.len()
                invariant
                    1 <= k <= list@.len(),
                    acc@ == grammar::apply_all(models(list@).take(k as int)),
                decreases list@.len() - k,
            {
                proof {
                    let next = models(list@).take(k + 1);
                    assert(next.drop_last() =~= models(list@).take(k as int));
                    assert(next.last() == list@[k as int]@);
                }
                acc = Expr::App(Box::new(acc), Box::new(list[k].clone()));
                k = k + 1;
            }
            assert(models(list@).take(k as int) =~= models(list@));
            Some((rest, acc))
        },
        None => None,
    }
}

/// Reads an expression off the front of the text: an application, or else
/// an expression in parentheses, an abstraction, a numeral, an identifier
/// or a variable.
pub fn expr<'a>(i: &'a str) -> (r: Option<(&'a str, Expr)>)
    ensures
        reads(r, grammar::expr(i@)),
    decreases i@.len(), 5nat,
{
    proof {
        lemma_leading_bound(i@, Class::Blank);
    }
    let t = space(i);
    if let Some(found) = app(t) {
        return Some(found);
    }
    if let Some(found) = parenthesized(t, false) {
        return Some(found);
    }
    if let Some(found) = abs(t) {
        return Some(found);
    }
    atom(t)
}

/// The run of characters up to the next white space, and what follows it.
fn path<'a>(i: &'a str) -> (r: (&'a str, &'a str))
    ensures
        r.1@ == i@.take(grammar::leading_solid(i@) as int),
        r.0@ == i@.skip(grammar::leading_solid(i@) as int),
{
    let total = i.unicode_len();
    let mut cur = i;
    let mut n: usize = 0;
    assert(i@.skip(0) =~= i@);
    loop
        invariant_except_break
            grammar::leading_solid(i@) == n + grammar::leading_solid(cur@),
        invariant
            n <= i@.len() == total,
            cur@ == i@.skip(n as int),
        ensures
            grammar::leading_solid(i@) == n,
        decreases i@.len() - n,
    {
        match anychar(cur) {
            Some(Split { first, rest }) => {
                if is_whitespace(first) {
                    break;
                }
                assert(rest@ =~= i@.skip(n + 1));
                cur = rest;
                n = n + 1;
            },
            None => { break; },
        }
    }
    (cur, i.substring_char(0, n))
}

/// A definition: the word `let`, a name, an equals sign and an expression.
fn let_stmt<'a>(i: &'a str) -> (r: Option<(&'a str, Statement)>)
    ensures
        reads(r, grammar::let_stmt(i@)),
{
    proof {
        reveal_strlit("let");
        assert("let"@ =~= grammar::word_let());
    }
    let i1 = match tag("let", space(i)) {
        Some(rest) => rest,
        None => { return None; },
    };
    let i2 = match multispace1(i1) {
        Some((rest, _)) => rest,
        None => { return None; },
    };
    let (i3, name) = match identifier(i2) {
        Some(found) => found,
        None => { return None; },
    };
    let i4 = match char_('=', space(i3)) {
        Some(rest) => rest,
        None => { return None; },
    };
    match expr(i4) {
        Some((rest, e)) => Some((rest, Statement::Let(name, e))),
        None => None,
    }
}

/// An import: the word `import` and a path.
fn import_stmt<'a>(i: &'a str) -> (r: Option<(&'a str, Statement)>)
    ensures
        reads(r, grammar::import_stmt(i@)),
{
    proof {
        reveal_strlit("import");
        assert("import"@ =~= grammar::word_import());
    }
    let i1 = match tag("import", space(i)) {
        Some(rest) => rest,
        None => { return None; },
    };
    let i2 = match multispace1(i1) {
        Some((rest, _)) => rest,
        None => { return None; },
    };
    let (rest, written) = path(i2);
    Some((rest, Statement::Import(written.to_owned())))
}

/// An expression as a statement.
fn expr_stmt<'a>(i: &'a str) -> (r: Option<(&'a str, Statement)>)
    ensures
        reads(
            r,
            match grammar::expr(i@) {
                Some((e, rest)) => Some((StatementModel::Expr(e), rest)),
                None => None,
            },
        ),
{
    match expr(i) {
        Some((rest, e)) => Some((rest, Statement::Expr(e))),
        None => None,
    }
}

/// A statement: a definition, an import or an expression.
fn stmt<'a>(i: &'a str) -> (r: Option<(&'a str, Statement)>)
    ensures
        reads(r, grammar::stmt(i@)),
{
    if let Some(found) = let_stmt(i) {
        return Some(found);
    }
    if let Some(found) = import_stmt(i) {
        return Some(found);
    }
    expr_stmt(i)
}

/// Where reading stopped and what was expected there.
#[derive(Debug, PartialEq, Eq)]
pub struct ParseFailure<'a> {
    /// The text from the place at fault on.
    pub rest: &'a str,
    pub expected: Expected,
}

/// The values that a list of statements stands for.
pub open spec fn statement_models(list: Seq<Statement>) -> Seq<StatementModel> {
    Seq::new(list.len(), |k: int| list[k]@)
}

/// Reads one line of the interactive loop: a statement with nothing but
/// blanks behind it. On success nothing of the text is left.
pub fn repl<'a>(i: &'a str) -> (r: Result<(&'a str, Statement), ParseFailure<'a>>)
    ensures
        match grammar::repl(i@) {
            Ok(st) => r matches Ok((rest, found)) && rest@.len() == 0 && found@ == st,
            Err((expected, at)) => r matches Err(failure) && failure.expected == expected
                && failure.rest@ == at,
        },
{
    match stmt(i) {
        Some((rest, found)) => {
            let rest = space(rest);
            if rest.is_empty() {
                Ok((rest, found))
            } else {
                Err(ParseFailure { rest, expected: Expected::End })
            }
        },
        None => Err(ParseFailure { rest: space(i), expected: Expected::Statement }),
    }
}

/// Reads an expression with nothing but blanks behind it. On success
/// nothing of the text is left.
pub fn term<'a>(i: &'a str) -> (r: Result<(&'a str, Expr), ParseFailure<'a>>)
    ensures
        match grammar::term(i@) {
            Ok(e) => r matches Ok((rest, found)) && rest@.len() == 0 && found@ == e,
            Err((expected, at)) => r matches Err(failure) && failure.expected == expected
                && failure.rest@ == at,
        },
{
    match expr(i) {
        Some((rest, found)) => {
            let rest = space(rest);
            if rest.is_empty() {
                Ok((rest, found))
            } else {
                Err(ParseFailure { rest, expected: Expected::End })
            }
        },
        None => Err(ParseFailure { rest: space(i), expected: Expected::Expression }),
    }
}

/// Reads a file: definitions and imports with nothing but blanks behind
/// them. On success nothing of the text is left.
pub fn file<'a>(i: &'a str) -> (r: Result<(&'a str, Vec<Statement>), ParseFailure<'a>>)
    ensures
        match grammar::file(i@) {
            Ok(list) => r matches Ok((rest, found)) && rest@.len() == 0 && statement_models(found@)
                == list,
            Err((expected, at)) => r matches Err(failure) && failure.expected == expected
                && failure.rest@ == at,
        },
{
    let mut list: Vec<Statement> = Vec::new();
    let mut cur = i;
    assert(statement_models(list@) =~= Seq::<StatementModel>::empty());
    loop
        invariant_except_break
            grammar::file_stmts(i@, Seq::empty()) == grammar::file_stmts(
                cur@,
                statement_models(list@),
            ),
        ensures
            grammar::file_stmts(i@, Seq::empty()) == (statement_models(list@), cur@),
        decreases cur@.len(),
    {
        let found = match let_stmt(cur) {
            Some(found) => Some(found),
            None => import_stmt(cur),
        };
        match found {
            Some((rest, st)) => {
                proof {
                    grammar::lemma_file_stmt_consumes(cur@);
                    assert(statement_models(list@.push(st)) =~= statement_models(list@).push(st@));
                }
                list.push(st);
                cur = rest;
            },
            None => { break; },
        }
    }
    let rest = space(cur);
    if rest.is_empty() {
        Ok((rest, list))
    } else {
        Err(ParseFailure { rest, expected: Expected::Definition })
    }
}

/// Runs `parser` on `input` and turns a failure into the error that
/// reports it: the message says what was expected and quotes the text from
/// the place at fault on.
pub fn parse<'a, O>(
    parser: impl Fn(&'a str) -> Result<(&'a str, O), ParseFailure<'a>>,
    input: &'a str,
) -> (r: Result<(&'a str, O), LambError>)
    requires
        parser.requires((input,)),
    ensures
        match r {
            Ok(found) => parser.ensures((input,), Ok(found)),
            Err(LambError::Parse(message)) => exists|failure: ParseFailure<'a>|
                #![trigger parser.ensures((input,), Err(failure))]
                parser.ensures((input,), Err(failure)) && message@ == grammar::opening(
                    failure.expected,
                ) + failure.rest@,
            Err(_) => false,
        },
{
    match parser(input) {
        Ok(found) => Ok(found),
        Err(failure) => {
            let opening = match failure.expected {
                Expected::Statement => "expected a statement at: ",
                Expected::Expression => "expected an expression at: ",
                Expected::Definition => "expected a definition or an import at: ",
                Expected::End => "expected the end of the input at: ",
            };
            Err(LambError::Parse(String::from_str(opening).concat(failure.rest)))
        },
    }
}

} // verus!
