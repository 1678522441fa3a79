//! Trusted bridges to std's text primitives: UTF-8 validation, scalar
//! conversion, and appending to a `String`. Each wrapper's contract is
//! stated over vstd's own UTF-8 model.

use vstd::prelude::*;
use vstd::utf8::{decode_utf8, is_scalar, valid_utf8};

verus! {

/// Relies on String::from_utf8: it returns `Ok` exactly on valid UTF-8
/// input, and the resulting string holds the decoded scalars.
#[verifier::external_body]
pub(crate) fn utf8_to_string(bytes: Vec<u8>) -> (r: Option<String>)
    ensures
        r is Some <==> valid_utf8(bytes@),
        r matches Some(s) ==> s@ == decode_utf8(bytes@),
{
    match String::from_utf8(bytes) {
        Ok(s) => Some(s),
        Err(_) => None,
    }
}

/// Relies on char::from_u32: it returns `Some` exactly on Unicode
/// scalar values, and the char carries the given value.
#[verifier::external_body]
pub(crate) fn char_from_u32(u: u32) -> (r: Option<char>)
    ensures
        r is Some <==> is_scalar(u),
        r matches Some(c) ==> c == u as char,
{
    char::from_u32(u)
}

/// Relies on String::push: it appends the given char to the string.
#[verifier::external_body]
pub(crate) fn push_char(s: &mut String, c: char)
    ensures
        final(s)@ == old(s)@.push(c),
{
    s.push(c)
}

} // verus!
