//! Writing terms and failures as text.

use vstd::prelude::*;
use vstd::string::StringExecFns;
use crate::debruijn::DBTerm;
use crate::error::LambError;
use crate::model::IndexTerm;
use crate::term::Term;

verus! {

/// `String::push` of the standard library: the character is added at the
/// end.
#[verifier::external_body]
fn push_char(s: &mut String, c: char)
    ensures
        final(s)@ == old(s)@.push(c),
{
    s.push(c)
}

/// The digit that writes `d`.
pub open spec fn digit_char(d: int) -> char {
    (d + '0' as int) as char
}

/// The decimal digits of `n`, without leading zeros.
pub open spec fn decimal_text(n: nat) -> Seq<char>
    decreases n,
{
    if n < 10 {
        seq![digit_char(n as int)]
    } else {
        decimal_text(n / 10).push(digit_char((n % 10) as int))
    }
}

impl Term {
    /// The term as it is written: a variable by its name, an abstraction as
    /// `(λx. t)` and an application as `(t u)`.
    pub open spec fn text(self) -> Seq<char>
        decreases self,
    {
        match self {
            Term::Var(x) => seq![x],
            Term::Abs(x, b) => seq!['(', '\u{3bb}', x, '.', ' '] + b.text() + seq![')'],
            Term::App(f, a) => seq!['('] + f.text() + seq![' '] + a.text() + seq![')'],
        }
    }

    fn write(&self, out: &mut String)
        ensures
            final(out)@ == old(out)@ + self.text(),
        decreases self,
    {
        match self {
            Term::Var(x) => {
                push_char(out, *x);
            },
            Term::Abs(x, b) => {
                push_char(out, '(');
                push_char(out, '\u{3bb}');
                push_char(out, *x);
                push_char(out, '.');
                push_char(out, ' ');
                b.write(out);
                push_char(out, ')');
            },
            Term::App(f, a) => {
                push_char(out, '(');
                f.write(out);
                push_char(out, ' ');
                a.write(out);
                push_char(out, ')');
            },
        }
        assert(out@ =~= old(out)@ + self.text());
    }

    /// The term as text.
    pub fn to_string(&self) -> (r: String)
        ensures
            r@ == self.text(),
    {
        let mut out = String::new();
        self.write(&mut out);
        assert(out@ =~= self.text());
        out
    }
}

impl IndexTerm {
    /// The term as it is written: a variable by its index, an abstraction
    /// as `(λ t)` and an application as `(t u)`.
    pub open spec fn text(self) -> Seq<char>
        decreases self,
    {
        match self {
            IndexTerm::Var(x) => decimal_text(x as nat),
            IndexTerm::Abs(_, b) => seq!['(', '\u{3bb}', ' '] + b.text() + seq![')'],
            IndexTerm::App(f, a) => seq!['('] + f.text() + seq![' '] + a.text() + seq![')'],
        }
    }
}

/// Writes `n` in decimal digits.
fn write_decimal(n: u32, out: &mut String)
    ensures
        final(out)@ == old(out)@ + decimal_text(n as nat),
    decreases n,
{
    if n >= 10 {
        write_decimal(n / 10, out);
    }
    let digit = ((n % 10) as u8 + '0' as u8) as char;
    push_char(out, digit);
    assert(out@ =~= old(out)@ + decimal_text(n as nat));
}

impl DBTerm {
    fn write(&self, out: &mut String)
        ensures
            final(out)@ == old(out)@ + self@.text(),
        decreases self,
    {
        match self {
            DBTerm::Var(x) => {
                write_decimal(*x, out);
            },
            DBTerm::Abs(_, b) => {
                push_char(out, '(');
                push_char(out, '\u{3bb}');
                push_char(out, ' ');
                b.write(out);
                push_char(out, ')');
            },
            DBTerm::App(f, a) => {
                push_char(out, '(');
                f.write(out);
                push_char(out, ' ');
                a.write(out);
                push_char(out, ')');
            },
        }
        assert(out@ =~= old(out)@ + self@.text());
    }

    /// The term as text.
    pub fn to_string(&self) -> (r: String)
        ensures
            r@ == self@.text(),
    {
        let mut out = String::new();
        self.write(&mut out);
        assert(out@ =~= self@.text());
        out
    }
}

impl LambError {
    /// The failure as it is reported.
    pub open spec fn text(self) -> Seq<char> {
        match self {
            LambError::Parse(message) => "Parsing error:\n"@ + message@,
            LambError::NotDefined(name) => name@ + " not defined"@,
            LambError::FileNotFound(path) => "File not found: "@ + path@,
        }
    }

    /// The failure as text.
    pub fn to_string(&self) -> (r: String)
        ensures
            r@ == self.text(),
    {
        match self {
            LambError::Parse(message) => String::from_str("Parsing error:\n").concat(
                message.as_str(),
            ),
            LambError::NotDefined(name) => name.clone().concat(" not defined"),
            LambError::FileNotFound(path) => String::from_str("File not found: ").concat(
                path.as_str(),
            ),
        }
    }
}

} // verus!
