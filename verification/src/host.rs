//! Conversions between host strings and character vectors, and decoding a
//! code point. These are the only places where the library trusts the host.
use vstd::prelude::*;

use crate::grammar::valid_scalar;

verus! {

/// Relies on str::chars with Iterator::collect: the characters of a string
/// slice, in order, which is what the view of `str` already denotes.
#[verifier::external_body]
pub(crate) fn str_to_chars(s: &str) -> (r: Vec<char>)
    ensures
        r@ == s@,
{
    s.chars().collect()
}

/// Relies on Iterator::collect for String: the string holding exactly the
/// given characters, in order.
#[verifier::external_body]
pub(crate) fn chars_to_string(v: &Vec<char>) -> (r: String)
    ensures
        r@ == v@,
{
    v.iter().collect()
}

/// Relies on char::from_u32: `Some` exactly on Unicode scalar values (all
/// code points but the surrogate range), and the returned character carries
/// the given code point.
pub assume_specification[ char::from_u32 ](u: u32) -> (r: Option<char>)
    ensures
        r matches Some(c) ==> valid_scalar(u) && c as u32 == u,
        r is None ==> !valid_scalar(u),
;

/// The one-character string of `c`.
pub(crate) fn char_string(c: char) -> (r: String)
    ensures
        r@ == seq![c],
{
    let mut v: Vec<char> = Vec::new();
    v.push(c);
    chars_to_string(&v)
}

} // verus!
