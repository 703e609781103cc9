//! The parts of std's Unicode and text handling that the library relies on.
//!
//! Each trusted item here calls one std function. Where std's documentation
//! describes the result in a few lines, the contract says it; where the result
//! follows Unicode tables, it is given a name.

use vstd::prelude::*;

verus! {

/// Whether `c` has a Unicode numeric general category (the result of `char::is_numeric`).
pub uninterp spec fn char_is_numeric(c: char) -> bool;

/// Whether `c` has the Unicode `Alphabetic` property (the result of `char::is_alphabetic`).
pub uninterp spec fn char_is_alphabetic(c: char) -> bool;

/// Whether `c` has the Unicode `White_Space` property (the result of `char::is_whitespace`).
pub uninterp spec fn char_is_whitespace(c: char) -> bool;

/// Whether `c` has the Unicode `Uppercase` property (the result of `char::is_uppercase`).
pub uninterp spec fn char_is_uppercase(c: char) -> bool;

/// The characters that `char::to_uppercase` yields for `c`.
pub uninterp spec fn char_uppercase(c: char) -> Seq<char>;

/// The characters of `str::to_uppercase` applied to a string with characters `s`.
pub uninterp spec fn str_uppercase(s: Seq<char>) -> Seq<char>;

/// The characters of `str::to_lowercase` applied to a string with characters `s`.
pub uninterp spec fn str_lowercase(s: Seq<char>) -> Seq<char>;

/// Calls `char::is_numeric`; the result is named, not described.
#[verifier::external_body]
pub(crate) fn is_numeric(c: char) -> (b: bool)
    ensures
        b == char_is_numeric(c),
{
    c.is_numeric()
}

/// Calls `char::is_alphabetic`; the result is named, not described.
#[verifier::external_body]
pub(crate) fn is_alphabetic(c: char) -> (b: bool)
    ensures
        b == char_is_alphabetic(c),
{
    c.is_alphabetic()
}

/// Calls `char::is_whitespace`; the result is named, not described.
#[verifier::external_body]
pub(crate) fn is_whitespace(c: char) -> (b: bool)
    ensures
        b == char_is_whitespace(c),
{
    c.is_whitespace()
}

/// Calls `char::is_uppercase`; the result is named, not described.
#[verifier::external_body]
pub(crate) fn is_uppercase(c: char) -> (b: bool)
    ensures
        b == char_is_uppercase(c),
{
    c.is_uppercase()
}

/// Calls `char::to_uppercase` and collects what it yields into a `String`.
#[verifier::external_body]
pub(crate) fn char_to_uppercase(c: char) -> (r: String)
    ensures
        r@ == char_uppercase(c),
{
    c.to_uppercase().collect::<String>()
}

/// Calls `str::to_uppercase`; the result is named, not described.
#[verifier::external_body]
pub(crate) fn to_uppercase(s: &str) -> (r: String)
    ensures
        r@ == str_uppercase(s@),
{
    s.to_uppercase()
}

/// Calls `str::to_lowercase`; the result is named, not described.
#[verifier::external_body]
pub(crate) fn to_lowercase(s: &str) -> (r: String)
    ensures
        r@ == str_lowercase(s@),
{
    s.to_lowercase()
}

/// Calls `str::chars` and collects the characters into a vector: the vector
/// holds the string's characters in order.
#[verifier::external_body]
pub(crate) fn chars_of(s: &str) -> (r: Vec<char>)
    ensures
        r@ == s@,
{
    s.chars().collect::<Vec<char>>()
}

/// Calls `String::from_iter` on the characters of `cs`: the string holds them in order.
#[verifier::external_body]
pub(crate) fn string_from_chars(cs: &Vec<char>) -> (r: String)
    ensures
        r@ == cs@,
{
    cs.iter().collect::<String>()
}

} // verus!
