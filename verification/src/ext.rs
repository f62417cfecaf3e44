//! Trusted wrappers around std string functions that carry no
//! specification in vstd.

use vstd::prelude::*;

verus! {

/// Relies on `<str as PartialEq>::eq`: string slices are equal exactly
/// when their character sequences are equal.
#[verifier::external_body]
pub(crate) fn str_eq(a: &str, b: &str) -> (r: bool)
    ensures
        r == (a@ == b@),
{
    a == b
}

/// Relies on `String::push`: appends the given character to the end of
/// the string.
#[verifier::external_body]
pub(crate) fn push_char(s: &mut String, c: char)
    ensures
        final(s)@ == old(s)@.push(c),
{
    s.push(c)
}

/// Relies on `char::from_u32`: returns the character with the given
/// code, or `None` exactly when the code is a surrogate or above the
/// Unicode maximum.
#[verifier::external_body]
pub(crate) fn char_from_u32(u: u32) -> (r: Option<char>)
    ensures
        (0xD800 <= u < 0xE000 || u > 0x10FFFF) <==> r is None,
        r matches Some(c) ==> c as u32 == u,
{
    char::from_u32(u)
}

} // verus!
