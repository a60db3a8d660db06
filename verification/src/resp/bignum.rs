//! Big-number payloads, read by `num_bigint`.

use vstd::prelude::*;
use vstd::utf8::{encode_utf8, is_leading_byte_width_1, partial_valid_utf8_extend_ascii_block, valid_utf8};

use super::lexical::{bignum_canonical, bignum_split, bignum_syntax, digit_or_underscore};
use super::types::bytes_of;
use super::utf8::as_text;
use std::str::FromStr;

verus! {

/// `num_bigint::BigInt::from_str`, with the parsed integer rendered back by
/// its `Display` (`to_string`). The parse succeeds exactly on the texts of
/// `bignum_syntax` (an optional sign, then digits and underscores, the first
/// being a digit), and the rendering is the canonical decimal text of the
/// value: a `-` for negative values, then the digits without leading zeros.
#[verifier::external_body]
fn bigint_decimal(text: &str) -> (res: Option<String>)
    ensures
        res is Some <==> bignum_syntax(encode_utf8(text@)),
        res matches Some(d) ==> bignum_canonical(encode_utf8(text@)) == Some(bytes_of(d)),
{
    match num_bigint::BigInt::from_str(text) {
        Ok(n) => Some(n.to_string()),
        Err(_) => None,
    }
}

/// Text that `bignum_syntax` accepts is ASCII, hence UTF-8.
proof fn lemma_bignum_syntax_utf8(s: Seq<u8>)
    requires
        bignum_syntax(s),
    ensures
        valid_utf8(s),
{
    let u = bignum_split(s).1;
    assert forall|i: int| 0 <= i < s.len() implies #[trigger] is_leading_byte_width_1(s[i]) by {
        if s.len() > u.len() {
            if i > 0 {
                assert(s[i] == u[i - 1]);
                assert(digit_or_underscore(u[i - 1]));
            }
        } else {
            assert(s[i] == u[i]);
            assert(digit_or_underscore(u[i]));
        }
    }
    assert(s.subrange(0, 0) =~= Seq::<u8>::empty());
    assert(valid_utf8(Seq::<u8>::empty()));
    partial_valid_utf8_extend_ascii_block(s, 0, s.len() as int);
    assert(s.subrange(0, s.len() as int) =~= s);
}

/// The canonical decimal text of the big integer that `bytes` denote.
pub fn parse_bignum(bytes: &[u8]) -> (res: Option<String>)
    ensures
        match bignum_canonical(bytes@) {
            Some(d) => res matches Some(t) && bytes_of(t) == d,
            None => res is None,
        },
{
    match as_text(bytes) {
        Some(text) => bigint_decimal(text),
        None => {
            proof {
                if bignum_syntax(bytes@) {
                    lemma_bignum_syntax_utf8(bytes@);
                }
            }
            None
        },
    }
}

} // verus!
