//! The public operations on RESP values: reading, writing, comparing.

use vstd::prelude::*;
use vstd::utf8::encode_utf8;
use super::decode::{decode_value, suffix};
use super::encode::{encode_into, lemma_value_utf8};
use super::equality::values_equal;
use super::frame::frame_eq;
use super::types::{MultiBulk, ParseError, RESPValue, bytes_of};
use super::utf8::into_text;
use super::wire::{parse_frame, serialize};

verus! {

impl RESPValue {
    /// Reads the value at the start of `input`; what follows it is left
    /// unread. Gives the value and the number of bytes it takes.
    pub fn decode(input: &[u8]) -> (res: Result<(RESPValue, usize), ParseError>)
        ensures
            match parse_frame(input@, false) {
                Ok((f, c)) => res matches Ok((v, n)) && v@ == f && n == c,
                Err(e) => res matches Err(e2) && e2 == e,
            },
    {
        assert(suffix(input@, 0) =~= input@);
        decode_value(input, 0, false)
    }

    /// Reads the value at the start of `s` (the `FromStr` of the type).
    pub fn parse_str(s: &str) -> (res: Result<RESPValue, ParseError>)
        ensures
            match parse_frame(encode_utf8(s@), false) {
                Ok((f, _)) => res matches Ok(v) && v@ == f,
                Err(e) => res matches Err(e2) && e2 == e,
            },
    {
        match RESPValue::decode(s.as_bytes()) {
            Ok((v, _)) => Ok(v),
            Err(e) => Err(e),
        }
    }

    /// The wire form of this value.
    pub fn encode(&self) -> (res: Vec<u8>)
        ensures
            res@ == serialize(self@),
    {
        let mut out: Vec<u8> = Vec::new();
        encode_into(self, &mut out);
        assert(out@ =~= serialize(self@));
        out
    }

    /// The wire form of this value, as text (the `Display` of the type).
    pub fn to_string(&self) -> (res: String)
        ensures
            bytes_of(res) == serialize(self@),
    {
        let bytes = self.encode();
        proof {
            lemma_value_utf8(*self);
        }
        match into_text(bytes) {
            Some(t) => t,
            None => {
                assert(false);
                String::new()
            },
        }
    }
}

impl std::str::FromStr for RESPValue {
    type Err = ParseError;

    fn from_str(s: &str) -> (res: Result<RESPValue, ParseError>)
        ensures
            match parse_frame(encode_utf8(s@), false) {
                Ok((f, _)) => res matches Ok(v) && v@ == f,
                Err(e) => res matches Err(e2) && e2 == e,
            },
    {
        RESPValue::parse_str(s)
    }
}

impl PartialEq for RESPValue {
    fn eq(&self, other: &RESPValue) -> (r: bool) {
        values_equal(self, other)
    }
}

impl vstd::std_specs::cmp::PartialEqSpecImpl for RESPValue {
    open spec fn obeys_eq_spec() -> bool {
        true
    }

    open spec fn eq_spec(&self, other: &RESPValue) -> bool {
        frame_eq(self@, other@)
    }
}

impl MultiBulk {
    /// The number of values.
    pub fn len(&self) -> (res: usize)
        ensures
            res == self.0@.len(),
    {
        self.0.len()
    }

    /// Whether there is no value.
    pub fn is_empty(&self) -> (res: bool)
        ensures
            res == (self.0@.len() == 0),
    {
        self.0.len() == 0
    }

    /// Bulk strings holding the given texts, in order.
    pub fn from_strings(value: Vec<String>) -> (res: MultiBulk)
        ensures
            res.0@.len() == value@.len(),
            forall|i: int|
                0 <= i < value@.len() ==> #[trigger] res.0@[i] == RESPValue::BulkString(value@[i]),
    {
        let mut out: Vec<RESPValue> = Vec::new();
        let mut i: usize = 0;
        while i < value.len()
            invariant
                0 <= i <= value@.len(),
                out@.len() == i,
                forall|j: int| 0 <= j < i ==> #[trigger] out@[j] == RESPValue::BulkString(value@[j]),
            decreases value.len() - i,
        {
            out.push(RESPValue::BulkString(value[i].clone()));
            i = i + 1;
        }
        MultiBulk(out)
    }
}

} // verus!
