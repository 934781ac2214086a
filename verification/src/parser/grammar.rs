//! The grammar, as functions from the text to what is read and what is
//! left.
//!
//! Alternatives are tried in the order given and the first that applies
//! wins. `None` says that the construct is not at the front of the text.

use vstd::prelude::*;
use crate::parser::ast::{ExprModel, StatementModel};
use crate::parser::scan::{
    is_letter, leading, lemma_leading_bound, lowercase, starts_with, whitespace, Class,
};

verus! {

/// The text behind its leading blanks.
pub open spec fn skip_blanks(s: Seq<char>) -> Seq<char> {
    s.skip(leading(s, Class::Blank) as int)
}

/// The word that opens a definition.
pub open spec fn word_let() -> Seq<char> {
    seq!['l', 'e', 't']
}

/// The word that opens an import.
pub open spec fn word_import() -> Seq<char> {
    seq!['i', 'm', 'p', 'o', 'r', 't']
}

/// The number that the decimal digits `digits` write.
pub open spec fn decimal(digits: Seq<char>) -> nat
    decreases digits.len(),
{
    if digits.len() == 0 {
        0
    } else {
        10 * decimal(digits.drop_last()) + (digits.last() as nat - '0' as nat) as nat
    }
}

/// A longer run of digits writes no smaller number.
pub proof fn lemma_decimal_monotone(digits: Seq<char>, k: int)
    requires
        0 <= k <= digits.len(),
    ensures
        decimal(digits.take(k)) <= decimal(digits),
    decreases digits.len(),
{
    if k == digits.len() {
        assert(digits.take(k) =~= digits);
    } else {
        lemma_decimal_monotone(digits.drop_last(), k);
        assert(digits.drop_last().take(k) =~= digits.take(k));
    }
}

/// A name that may be defined: not the word `let`, and either a lowercase
/// letter followed by more, or beginning with an uppercase letter.
pub open spec fn is_identifier(name: Seq<char>) -> bool {
    &&& name.len() > 0
    &&& name != word_let()
    &&& ('a' <= name[0] <= 'z' && name.len() > 1) || 'A' <= name[0] <= 'Z'
}

/// A variable: one lowercase character, after any blanks, where the text
/// does not begin with the word `let`.
pub open spec fn var(s: Seq<char>) -> Option<(ExprModel, Seq<char>)> {
    let t = skip_blanks(s);
    if !starts_with(s, word_let()) && t.len() > 0 && lowercase(t[0]) {
        Some((ExprModel::Var(t[0]), t.skip(1)))
    } else {
        None
    }
}

/// An identifier: the leading run of letters and digits, where it is a name
/// that may be defined and the text does not begin with the word `let`.
pub open spec fn identifier(s: Seq<char>) -> Option<(Seq<char>, Seq<char>)> {
    let n = leading(s, Class::Alphanumeric) as int;
    if !starts_with(s, word_let()) && is_identifier(s.take(n)) {
        Some((s.take(n), s.skip(n)))
    } else {
        None
    }
}

/// A numeral: the leading run of digits, where the number fits 64 bits.
pub open spec fn number(s: Seq<char>) -> Option<(u64, Seq<char>)> {
    let n = leading(s, Class::Digit) as int;
    if n > 0 && decimal(s.take(n)) <= u64::MAX {
        Some((decimal(s.take(n)) as u64, s.skip(n)))
    } else {
        None
    }
}

/// A numeral, an identifier or a variable, the first of them that is at
/// the front of the text.
pub open spec fn atom(s: Seq<char>) -> Option<(ExprModel, Seq<char>)> {
    match number(s) {
        Some((n, rest)) => Some((ExprModel::Num(n), rest)),
        None => match identifier(s) {
            Some((name, rest)) => Some((ExprModel::Ident(name), rest)),
            None => var(s),
        },
    }
}

/// An abstraction: a backslash, the bound variable, a dot and the body,
/// with blanks allowed before the variable and before the body.
pub open spec fn abs(s: Seq<char>) -> Option<(ExprModel, Seq<char>)>
    decreases s.len(), 0nat,
{
    if s.len() > 0 && s[0] == '\\' {
        let t = skip_blanks(s.skip(1));
        if t.len() > 1 && lowercase(t[0]) && t[1] == '.' {
            proof {
                lemma_leading_bound(s.skip(1), Class::Blank);
            }
            match expr(t.skip(2)) {
                Some((body, rest)) => Some((ExprModel::Abs(t[0], Box::new(body)), rest)),
                None => None,
            }
        } else {
            None
        }
    } else {
        None
    }
}

/// An expression between parentheses. Blanks before the closing one are
/// allowed where `loose` is set.
pub open spec fn parenthesized(s: Seq<char>, loose: bool) -> Option<(ExprModel, Seq<char>)>
    decreases s.len(), 0nat,
{
    if s.len() > 0 && s[0] == '(' {
        match expr(s.skip(1)) {
            Some((inner, rest)) => {
                let t = if loose {
                    skip_blanks(rest)
                } else {
                    rest
                };
                if t.len() > 0 && t[0] == ')' {
                    Some((inner, t.skip(1)))
                } else {
                    None
                }
            },
            None => None,
        }
    } else {
        None
    }
}

/// An expression that is not an application, after any blanks: in
/// parentheses, an abstraction, a numeral, an identifier or a variable.
pub open spec fn expr_no_app(s: Seq<char>) -> Option<(ExprModel, Seq<char>)>
    decreases s.len(), 1nat,
{
    let t = skip_blanks(s);
    proof {
        lemma_leading_bound(s, Class::Blank);
    }
    if parenthesized(t, true) is Some {
        parenthesized(t, true)
    } else if abs(t) is Some {
        abs(t)
    } else {
        atom(t)
    }
}

/// The items that follow the first of a list, each after at least one
/// blank, added to what was read so far. The list ends where no item
/// follows; it would also end before an item that took no text, which no
/// item does.
pub open spec fn more_items(s: Seq<char>, acc: Seq<ExprModel>) -> (Seq<ExprModel>, Seq<char>)
    decreases s.len(), 2nat,
{
    let n = leading(s, Class::Blank) as int;
    if n > 0 {
        proof {
            lemma_leading_bound(s, Class::Blank);
        }
        match expr_no_app(s.skip(n)) {
            Some((item, rest)) => if rest.len() < s.len() {
                more_items(rest, acc.push(item))
            } else {
                (acc, s)
            },
            None => (acc, s),
        }
    } else {
        (acc, s)
    }
}

/// A list of expressions that are not applications, separated by blanks.
pub open spec fn items(s: Seq<char>) -> (Seq<ExprModel>, Seq<char>)
    decreases s.len(), 3nat,
{
    match expr_no_app(s) {
        Some((item, rest)) => if rest.len() < s.len() {
            more_items(rest, seq![item])
        } else {
            (Seq::empty(), s)
        },
        None => (Seq::empty(), s),
    }
}

/// The application of the first of `items` to the others in turn.
pub open spec fn apply_all(items: Seq<ExprModel>) -> ExprModel
    recommends
        items.len() > 0,
    decreases items.len(),
{
    if items.len() <= 1 {
        items[0]
    } else {
        ExprModel::App(Box::new(apply_all(items.drop_last())), Box::new(items.last()))
    }
}

/// An application: two or more expressions that are not applications.
pub open spec fn app(s: Seq<char>) -> Option<(ExprModel, Seq<char>)>
    decreases s.len(), 4nat,
{
    let (list, rest) = items(s);
    if list.len() >= 2 {
        Some((apply_all(list), rest))
    } else {
        None
    }
}

/// An expression, after any blanks: an application, or else an expression
/// in parentheses, an abstraction, a numeral, an identifier or a variable.
pub open spec fn expr(s: Seq<char>) -> Option<(ExprModel, Seq<char>)>
    decreases s.len(), 5nat,
{
    let t = skip_blanks(s);
    proof {
        lemma_leading_bound(s, Class::Blank);
    }
    if app(t) is Some {
        app(t)
    } else if parenthesized(t, false) is Some {
        parenthesized(t, false)
    } else if abs(t) is Some {
        abs(t)
    } else {
        atom(t)
    }
}

/// How many characters at the front of `s` are no white space.
pub open spec fn leading_solid(s: Seq<char>) -> nat
    decreases s.len(),
{
    if s.len() > 0 && !whitespace(s[0]) {
        1 + leading_solid(s.skip(1))
    } else {
        0
    }
}

/// A definition: the word `let`, a name, an equals sign and an expression.
pub open spec fn let_stmt(s: Seq<char>) -> Option<(StatementModel, Seq<char>)> {
    let t = skip_blanks(s);
    if starts_with(t, word_let()) {
        let u = t.skip(3);
        if leading(u, Class::Blank) > 0 {
            match identifier(skip_blanks(u)) {
                Some((name, v)) => {
                    let w = skip_blanks(v);
                    if w.len() > 0 && w[0] == '=' {
                        match expr(w.skip(1)) {
                            Some((e, rest)) => Some((StatementModel::Let(name, e), rest)),
                            None => None,
                        }
                    } else {
                        None
                    }
                },
                None => None,
            }
        } else {
            None
        }
    } else {
        None
    }
}

/// An import: the word `import`, blanks, and a path that runs up to the
/// next white space.
pub open spec fn import_stmt(s: Seq<char>) -> Option<(StatementModel, Seq<char>)> {
    let t = skip_blanks(s);
    if starts_with(t, word_import()) {
        let u = t.skip(6);
        if leading(u, Class::Blank) > 0 {
            let v = skip_blanks(u);
            let n = leading_solid(v) as int;
            Some((StatementModel::Import(v.take(n)), v.skip(n)))
        } else {
            None
        }
    } else {
        None
    }
}

/// A statement: a definition, an import or an expression.
pub open spec fn stmt(s: Seq<char>) -> Option<(StatementModel, Seq<char>)> {
    if let_stmt(s) is Some {
        let_stmt(s)
    } else if import_stmt(s) is Some {
        import_stmt(s)
    } else {
        match expr(s) {
            Some((e, rest)) => Some((StatementModel::Expr(e), rest)),
            None => None,
        }
    }
}

/// A definition or an import.
pub open spec fn file_stmt(s: Seq<char>) -> Option<(StatementModel, Seq<char>)> {
    if let_stmt(s) is Some {
        let_stmt(s)
    } else {
        import_stmt(s)
    }
}

/// The definitions and imports at the front of the text, as many as there
/// are, added to `acc`. The list would also end before a statement that
/// took no text, which no statement does.
pub open spec fn file_stmts(s: Seq<char>, acc: Seq<StatementModel>) -> (
    Seq<StatementModel>,
    Seq<char>,
)
    decreases s.len(),
{
    match file_stmt(s) {
        Some((st, rest)) => if rest.len() < s.len() {
            file_stmts(rest, acc.push(st))
        } else {
            (acc, s)
        },
        None => (acc, s),
    }
}

/// What was expected where reading stopped.
#[derive(Clone, Copy, Debug, PartialEq, Eq)]
pub enum Expected {
    /// A definition, an import or an expression.
    Statement,
    /// An expression.
    Expression,
    /// A definition or an import.
    Definition,
    /// The end of the text.
    End,
}

/// One line of the interactive loop: a statement and nothing but blanks
/// behind it. Where there is no statement the text behind the leading
/// blanks is at fault, and where something follows the statement, that.
pub open spec fn repl(s: Seq<char>) -> Result<StatementModel, (Expected, Seq<char>)> {
    match stmt(s) {
        Some((st, rest)) => if skip_blanks(rest).len() == 0 {
            Ok(st)
        } else {
            Err((Expected::End, skip_blanks(rest)))
        },
        None => Err((Expected::Statement, skip_blanks(s))),
    }
}

/// An expression and nothing but blanks behind it.
pub open spec fn term(s: Seq<char>) -> Result<ExprModel, (Expected, Seq<char>)> {
    match expr(s) {
        Some((e, rest)) => if skip_blanks(rest).len() == 0 {
            Ok(e)
        } else {
            Err((Expected::End, skip_blanks(rest)))
        },
        None => Err((Expected::Expression, skip_blanks(s))),
    }
}

/// A file: definitions and imports and nothing but blanks behind them.
/// The text behind the last of them that can be read is at fault where it
/// is more than blanks.
pub open spec fn file(s: Seq<char>) -> Result<Seq<StatementModel>, (Expected, Seq<char>)> {
    let (list, rest) = file_stmts(s, Seq::empty());
    if skip_blanks(rest).len() == 0 {
        Ok(list)
    } else {
        Err((Expected::Definition, skip_blanks(rest)))
    }
}

/// The words that open the message for a failure.
pub open spec fn opening(expected: Expected) -> Seq<char> {
    match expected {
        Expected::Statement => "expected a statement at: "@,
        Expected::Expression => "expected an expression at: "@,
        Expected::Definition => "expected a definition or an import at: "@,
        Expected::End => "expected the end of the input at: "@,
    }
}

/// What is left behind a numeral, an identifier or a variable is shorter
/// than the text.
pub proof fn lemma_atom_consumes(s: Seq<char>)
    ensures
        atom(s) matches Some((_, rest)) ==> rest.len() < s.len(),
{
    lemma_leading_bound(s, Class::Digit);
    lemma_leading_bound(s, Class::Alphanumeric);
    lemma_leading_bound(s, Class::Blank);
}

/// What is left behind an abstraction is shorter than the text.
pub proof fn lemma_abs_consumes(s: Seq<char>)
    ensures
        abs(s) matches Some((_, rest)) ==> rest.len() < s.len(),
    decreases s.len(), 0nat,
{
    if s.len() > 0 && s[0] == '\\' {
        lemma_leading_bound(s.skip(1), Class::Blank);
        let t = skip_blanks(s.skip(1));
        if t.len() > 1 {
            lemma_expr_consumes(t.skip(2));
        }
    }
}

/// What is left behind an expression in parentheses is shorter than the
/// text.
pub proof fn lemma_parenthesized_consumes(s: Seq<char>, loose: bool)
    ensures
        parenthesized(s, loose) matches Some((_, rest)) ==> rest.len() < s.len(),
    decreases s.len(), 0nat,
{
    if s.len() > 0 && s[0] == '(' {
        lemma_expr_consumes(s.skip(1));
        match expr(s.skip(1)) {
            Some((_, rest)) => { lemma_leading_bound(rest, Class::Blank); },
            None => {},
        }
    }
}

/// What is left behind an expression that is not an application is shorter
/// than the text.
pub proof fn lemma_expr_no_app_consumes(s: Seq<char>)
    ensures
        expr_no_app(s) matches Some((_, rest)) ==> rest.len() < s.len(),
    decreases s.len(), 1nat,
{
    lemma_leading_bound(s, Class::Blank);
    let t = skip_blanks(s);
    lemma_parenthesized_consumes(t, true);
    lemma_abs_consumes(t);
    lemma_atom_consumes(t);
}

/// What is left behind further items is no longer than the text.
pub proof fn lemma_more_items_consume(s: Seq<char>, acc: Seq<ExprModel>)
    ensures
        more_items(s, acc).1.len() <= s.len(),
        more_items(s, acc).0.len() >= acc.len(),
    decreases s.len(), 2nat,
{
    let n = leading(s, Class::Blank) as int;
    if n > 0 {
        lemma_leading_bound(s, Class::Blank);
        match expr_no_app(s.skip(n)) {
            Some((item, rest)) => {
                if rest.len() < s.len() {
                    lemma_more_items_consume(rest, acc.push(item));
                }
            },
            None => {},
        }
    }
}

/// What is left behind an application is shorter than the text.
pub proof fn lemma_app_consumes(s: Seq<char>)
    ensures
        app(s) matches Some((_, rest)) ==> rest.len() < s.len(),
    decreases s.len(), 4nat,
{
    match expr_no_app(s) {
        Some((item, rest)) => {
            lemma_expr_no_app_consumes(s);
            lemma_more_items_consume(rest, seq![item]);
        },
        None => {},
    }
}

/// What is left behind an expression is shorter than the text.
pub proof fn lemma_expr_consumes(s: Seq<char>)
    ensures
        expr(s) matches Some((_, rest)) ==> rest.len() < s.len(),
    decreases s.len(), 5nat,
{
    lemma_leading_bound(s, Class::Blank);
    let t = skip_blanks(s);
    lemma_app_consumes(t);
    lemma_parenthesized_consumes(t, false);
    lemma_abs_consumes(t);
    lemma_atom_consumes(t);
}

/// What is left behind a definition or an import is shorter than the text.
pub proof fn lemma_file_stmt_consumes(s: Seq<char>)
    ensures
        file_stmt(s) matches Some((_, rest)) ==> rest.len() < s.len(),
{
    lemma_leading_bound(s, Class::Blank);
    let t = skip_blanks(s);
    if starts_with(t, word_let()) {
        let u = t.skip(3);
        lemma_leading_bound(u, Class::Blank);
        lemma_leading_bound(skip_blanks(u), Class::Alphanumeric);
        match identifier(skip_blanks(u)) {
            Some((_, v)) => {
                lemma_leading_bound(v, Class::Blank);
                let w = skip_blanks(v);
                if w.len() > 0 {
                    lemma_expr_consumes(w.skip(1));
                }
            },
            None => {},
        }
    }
    if starts_with(t, word_import()) {
        let u = t.skip(6);
        lemma_leading_bound(u, Class::Blank);
        lemma_leading_solid_bound(skip_blanks(u));
    }
}

/// The leading run of characters that are no white space is no longer than
/// the text.
pub proof fn lemma_leading_solid_bound(s: Seq<char>)
    ensures
        leading_solid(s) <= s.len(),
    decreases s.len(),
{
    if s.len() > 0 && !whitespace(s[0]) {
        lemma_leading_solid_bound(s.skip(1));
    }
}

} // verus!
