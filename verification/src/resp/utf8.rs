//! Conversions between bytes and text.

use vstd::prelude::*;
use vstd::utf8::{encode_utf8, valid_utf8};
use super::types::bytes_of;

verus! {

/// `std::str::from_utf8`: the bytes read as a string slice when, and only
/// when, they are well-formed UTF-8; the slice's bytes are the given ones.
#[verifier::external_body]
fn str_from_utf8(bytes: &[u8]) -> (res: Option<&str>)
    ensures
        res is Some <==> valid_utf8(bytes@),
        res matches Some(s) ==> encode_utf8(s@) == bytes@,
{
    std::str::from_utf8(bytes).ok()
}

/// `String::from_utf8`: the bytes taken as a string when, and only when,
/// they are well-formed UTF-8; the string's bytes are the given ones.
#[verifier::external_body]
fn string_from_utf8(bytes: Vec<u8>) -> (res: Option<String>)
    ensures
        res is Some <==> valid_utf8(bytes@),
        res matches Some(s) ==> bytes_of(s) == bytes@,
{
    String::from_utf8(bytes).ok()
}

/// A slice of bytes as a borrowed string, when it is well-formed UTF-8.
pub fn as_text(bytes: &[u8]) -> (res: Option<&str>)
    ensures
        res is Some <==> valid_utf8(bytes@),
        res matches Some(s) ==> encode_utf8(s@) == bytes@,
{
    str_from_utf8(bytes)
}

/// A copy of a slice of bytes as an owned string, when it is well-formed UTF-8.
pub fn text_of(bytes: &[u8]) -> (res: Option<String>)
    ensures
        res is Some <==> valid_utf8(bytes@),
        res matches Some(t) ==> bytes_of(t) == bytes@,
{
    match str_from_utf8(bytes) {
        Some(s) => Some(s.to_owned()),
        None => None,
    }
}

/// Bytes taken as a string, when they are well-formed UTF-8.
pub fn into_text(bytes: Vec<u8>) -> (res: Option<String>)
    ensures
        res is Some <==> valid_utf8(bytes@),
        res matches Some(t) ==> bytes_of(t) == bytes@,
{
    string_from_utf8(bytes)
}

} // verus!
