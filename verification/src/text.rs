//! The few places where the library leans on the standard library for
//! things Verus gives no specification for: Unicode character classes
//! and two small string-building operations.  Everything trusted in
//! the crate lives in this module.

use vstd::prelude::*;

verus! {

/// Name for the result of `char::is_alphabetic`: whether the character
/// has the Unicode `Alphabetic` property.  The result is a function of
/// the character alone.
pub uninterp spec fn char_alpha(c: char) -> bool;

/// Name for the result of `char::is_numeric`: whether the character is
/// a Unicode numeric character.  The result is a function of the
/// character alone.
pub uninterp spec fn char_numeric(c: char) -> bool;

/// The characters that may continue an identifier, short of `_`:
/// `char::is_alphanumeric` is documented as
/// `is_alphabetic() || is_numeric()`.
pub open spec fn char_alnum(c: char) -> bool {
    char_alpha(c) || char_numeric(c)
}

/// Relies on `char::is_alphabetic`: whether the character has the
/// Unicode `Alphabetic` property, a function of the character alone.
#[verifier::external_body]
pub fn is_alpha_char(c: char) -> (r: bool)
    ensures
        r == char_alpha(c),
{
    c.is_alphabetic()
}

/// Relies on `char::is_alphanumeric`, documented as returning
/// `is_alphabetic() || is_numeric()`.
#[verifier::external_body]
pub fn is_alnum_char(c: char) -> (r: bool)
    ensures
        r == (char_alpha(c) || char_numeric(c)),
{
    c.is_alphanumeric()
}

/// Relies on `str::chars`: the iterator yields exactly the characters
/// of the string, in order, which are the string's view in Verus.
#[verifier::external_body]
pub fn chars_of(s: &str) -> (v: Vec<char>)
    ensures
        v@ == s@,
{
    s.chars().collect()
}

/// Relies on `String::push`: appends the given character to the end of
/// the string.
#[verifier::external_body]
pub fn push_char(s: &mut String, c: char)
    ensures
        final(s)@ == old(s)@.push(c),
{
    s.push(c);
}

} // verus!
