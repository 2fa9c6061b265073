//! Conversions between `String` and `Vec<char>`, and UTF-8 decoding of raw
//! bytes.  These lean on the standard library through trusted declarations;
//! everything built on top of them is verified against the views stated here.

use vstd::prelude::*;

use vstd::utf8::{decode_utf8, valid_utf8};

verus! {

/// Relies on `str::chars`: it yields exactly the characters of the string,
/// in order.
#[verifier::external_body]
pub(crate) fn str_chars_vec(s: &str) -> (r: Vec<char>)
    ensures
        r@ == s@,
{
    s.chars().collect()
}

/// Relies on `String`'s `FromIterator<char>` impl: collecting characters
/// builds the string with exactly those characters, in order.
#[verifier::external_body]
pub(crate) fn chars_to_string(v: &Vec<char>) -> (r: String)
    ensures
        r@ == v@,
{
    v.iter().collect()
}

/// Relies on `String::from_utf8`: it succeeds exactly on valid UTF-8 input
/// and then returns the decoded text of those bytes.
#[verifier::external_body]
pub(crate) fn bytes_to_string(v: Vec<u8>) -> (r: Option<String>)
    ensures
        match r {
            Some(s) => valid_utf8(v@) && s@ == decode_utf8(v@),
            None => !valid_utf8(v@),
        },
{
    match String::from_utf8(v) {
        Ok(s) => Some(s),
        Err(_) => None,
    }
}

} // verus!
