//! Reading characters off the front of a string.
//!
//! The functions of this file are the only ones that look into a string.
//! They call the character parsers of `nom` and the character classes of
//! the standard library; what is stated of them here is taken on trust.

use vstd::prelude::*;
use nom::error::ErrorKind;

verus! {

/// Whether the standard library counts `c` as a lowercase character.
pub uninterp spec fn lowercase(c: char) -> bool;

/// Whether the standard library counts `c` as white space.
pub uninterp spec fn whitespace(c: char) -> bool;

/// A blank: space, tab, carriage return or line feed.
pub open spec fn is_blank(c: char) -> bool {
    c == ' ' || c == '\t' || c == '\r' || c == '\n'
}

/// A decimal digit.
pub open spec fn is_digit(c: char) -> bool {
    '0' <= c <= '9'
}

/// A letter of the basic Latin alphabet.
pub open spec fn is_letter(c: char) -> bool {
    'a' <= c <= 'z' || 'A' <= c <= 'Z'
}

/// A letter of the basic Latin alphabet or a decimal digit.
pub open spec fn is_alphanumeric(c: char) -> bool {
    is_letter(c) || is_digit(c)
}

/// The classes of characters that are read in runs.
pub enum Class {
    Blank,
    Digit,
    Alphanumeric,
}

impl Class {
    /// `c` belongs to the class.
    pub open spec fn holds(self, c: char) -> bool {
        match self {
            Class::Blank => is_blank(c),
            Class::Digit => is_digit(c),
            Class::Alphanumeric => is_alphanumeric(c),
        }
    }
}

/// How many characters at the front of `s` belong to the class `class`.
pub open spec fn leading(s: Seq<char>, class: Class) -> nat
    decreases s.len(),
{
    if s.len() > 0 && class.holds(s[0]) {
        1 + leading(s.skip(1), class)
    } else {
        0
    }
}

/// `s` begins with `t`.
pub open spec fn starts_with(s: Seq<char>, t: Seq<char>) -> bool {
    t.len() <= s.len() && s.take(t.len() as int) == t
}

/// What a scanner of a class returns for the input `s`: the rest and the
/// leading run, split where the class ends.
pub open spec fn splits_at_class(
    s: Seq<char>,
    class: Class,
    rest: Seq<char>,
    taken: Seq<char>,
) -> bool {
    taken == s.take(leading(s, class) as int) && rest == s.skip(leading(s, class) as int)
}

/// `char::is_lowercase` of the standard library.
///
/// The result is the library's verdict on the character, which depends on
/// the character alone.
#[verifier::external_body]
pub(crate) fn is_lowercase(c: char) -> (r: bool)
    ensures
        r == lowercase(c),
{
    c.is_lowercase()
}

/// `char::is_whitespace` of the standard library.
///
/// The result is the library's verdict on the character, which depends on
/// the character alone.
#[verifier::external_body]
pub(crate) fn is_whitespace(c: char) -> (r: bool)
    ensures
        r == whitespace(c),
{
    c.is_whitespace()
}

/// A string split behind its first character.
pub struct Split<'a> {
    pub first: char,
    pub rest: &'a str,
}

/// `nom::character::complete::anychar` on a string.
///
/// It fails on the empty string only, and otherwise hands out the first
/// character and the string behind it.
#[verifier::external_body]
pub(crate) fn anychar<'a>(i: &'a str) -> (r: Option<Split<'a>>)
    ensures
        match r {
            Some(split) => i@.len() > 0 && split.first == i@[0] && split.rest@ == i@.skip(1),
            None => i@.len() == 0,
        },
{
    match nom::character::complete::anychar::<&str, (&str, ErrorKind)>(i) {
        Ok((rest, first)) => Some(Split { first, rest }),
        Err(_) => None,
    }
}

/// `nom::character::complete::char` on a string.
///
/// It succeeds where the string begins with `c`, and hands out the string
/// behind that character.
#[verifier::external_body]
pub(crate) fn char_<'a>(c: char, i: &'a str) -> (r: Option<&'a str>)
    ensures
        match r {
            Some(rest) => i@.len() > 0 && i@[0] == c && rest@ == i@.skip(1),
            None => !(i@.len() > 0 && i@[0] == c),
        },
{
    match nom::character::complete::char::<&str, (&str, ErrorKind)>(c)(i) {
        Ok((rest, _)) => Some(rest),
        Err(_) => None,
    }
}

/// `nom::bytes::complete::tag` on strings.
///
/// It succeeds where the input begins with `word`, and hands out the input
/// behind it.
#[verifier::external_body]
pub(crate) fn tag<'a>(word: &str, i: &'a str) -> (r: Option<&'a str>)
    ensures
        match r {
            Some(rest) => starts_with(i@, word@) && rest@ == i@.skip(word@.len() as int),
            None => !starts_with(i@, word@),
        },
{
    match nom::bytes::complete::tag::<&str, &str, (&str, ErrorKind)>(word)(i) {
        Ok((rest, _)) => Some(rest),
        Err(_) => None,
    }
}

/// `nom::character::complete::multispace0` on a string.
///
/// It never fails: it splits the string behind its leading blanks, of which
/// there may be none, and hands out the rest and the blanks.
#[verifier::external_body]
pub(crate) fn multispace0<'a>(i: &'a str) -> (r: Option<(&'a str, &'a str)>)
    ensures
        match r {
            Some((rest, taken)) => splits_at_class(i@, Class::Blank, rest@, taken@),
            None => false,
        },
{
    match nom::character::complete::multispace0::<&str, (&str, ErrorKind)>(i) {
        Ok(found) => Some(found),
        Err(_) => None,
    }
}

/// `nom::character::complete::multispace1` on a string.
///
/// It fails where the string does not begin with a blank, and otherwise
/// splits it behind its leading blanks.
#[verifier::external_body]
pub(crate) fn multispace1<'a>(i: &'a str) -> (r: Option<(&'a str, &'a str)>)
    ensures
        match r {
            Some((rest, taken)) => leading(i@, Class::Blank) > 0 && splits_at_class(
                i@,
                Class::Blank,
                rest@,
                taken@,
            ),
            None => leading(i@, Class::Blank) == 0,
        },
{
    match nom::character::complete::multispace1::<&str, (&str, ErrorKind)>(i) {
        Ok(found) => Some(found),
        Err(_) => None,
    }
}

/// `nom::character::complete::digit1` on a string.
///
/// It fails where the string does not begin with a decimal digit, and
/// otherwise splits it behind its leading digits.
#[verifier::external_body]
pub(crate) fn digit1<'a>(i: &'a str) -> (r: Option<(&'a str, &'a str)>)
    ensures
        match r {
            Some((rest, taken)) => leading(i@, Class::Digit) > 0 && splits_at_class(
                i@,
                Class::Digit,
                rest@,
                taken@,
            ),
            None => leading(i@, Class::Digit) == 0,
        },
{
    match nom::character::complete::digit1::<&str, (&str, ErrorKind)>(i) {
        Ok(found) => Some(found),
        Err(_) => None,
    }
}

/// `nom::character::complete::alphanumeric1` on a string.
///
/// It fails where the string does not begin with a basic Latin letter or a
/// decimal digit, and otherwise splits it behind the leading run of them.
#[verifier::external_body]
pub(crate) fn alphanumeric1<'a>(i: &'a str) -> (r: Option<(&'a str, &'a str)>)
    ensures
        match r {
            Some((rest, taken)) => leading(i@, Class::Alphanumeric) > 0
                && splits_at_class(i@, Class::Alphanumeric, rest@, taken@),
            None => leading(i@, Class::Alphanumeric) == 0,
        },
{
    match nom::character::complete::alphanumeric1::<&str, (&str, ErrorKind)>(i) {
        Ok(found) => Some(found),
        Err(_) => None,
    }
}

/// The leading run of a class is no longer than the string.
pub proof fn lemma_leading_bound(s: Seq<char>, class: Class)
    ensures
        leading(s, class) <= s.len(),
    decreases s.len(),
{
    if s.len() > 0 && class.holds(s[0]) {
        lemma_leading_bound(s.skip(1), class);
    }
}

/// Every character of the leading run of a class belongs to the class, and
/// the one behind the run does not.
pub proof fn lemma_leading_run(s: Seq<char>, class: Class)
    ensures
        leading(s, class) <= s.len(),
        forall|i: int| 0 <= i < leading(s, class) ==> class.holds(#[trigger] s[i]),
        leading(s, class) < s.len() ==> !class.holds(s[leading(s, class) as int]),
        leading(s.skip(leading(s, class) as int), class) == 0,
    decreases s.len(),
{
    if s.len() > 0 && class.holds(s[0]) {
        let t = s.skip(1);
        lemma_leading_run(t, class);
        assert forall|i: int| 0 <= i < leading(s, class) implies class.holds(#[trigger] s[i]) by {
            if i > 0 {
                assert(s[i] == t[i - 1]);
            }
        }
        assert(s.skip(leading(s, class) as int) =~= t.skip(leading(t, class) as int));
    } else {
        assert(s.skip(0) =~= s);
    }
}

} // verus!
