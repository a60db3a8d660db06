//! What reading gives when more bytes follow: a read that found a value,
//! or found the bytes broken, gives the same whatever is appended. Only
//! `Incomplete` can change as input arrives.

use vstd::prelude::*;
use super::decimal::{isize_text_value, usize_text_value};
use super::frame::Frame;
use super::resp_prefix::{ARRAY, ATTRIBUTE, BULK_STRING, MAP, PUSH};
use super::lexical::{crlf_at, first_crlf, lemma_crlf_from, lemma_first_crlf_at};
use super::types::ParseError;
use super::wire::{
    body_at, is_line_type, is_type_byte, is_sized_type, parse_aggregate, parse_frame, parse_list, parse_pairs,
    parse_sized_value, text_body_at,
};

verus! {

/// A read that is settled: it gave a result, or found the bytes broken.
pub open spec fn settled<T>(r: Result<T, ParseError>) -> bool {
    !(r matches Err(e) && e == ParseError::Incomplete)
}

/// A line end found in `s` is still the first one with bytes appended.
proof fn lemma_first_crlf_extends(s: Seq<u8>, t: Seq<u8>)
    requires
        first_crlf(s) is Some,
    ensures
        first_crlf(s + t) == first_crlf(s),
        first_crlf(s)->0 + 2 <= s.len(),
{
    lemma_crlf_from(s, 0);
    let e = first_crlf(s)->0;
    let st = s + t;
    assert(crlf_at(st, e));
    assert forall|j: int| 0 <= j < e implies !crlf_at(st, j) by {
        assert(!crlf_at(s, j));
    }
    lemma_first_crlf_at(st, e);
}

/// A settled payload reads the same with bytes appended.
proof fn lemma_body_extends(s: Seq<u8>, t: Seq<u8>, start: int, len: int)
    requires
        0 <= start,
        0 <= len,
        settled(body_at(s, start, len)),
    ensures
        body_at(s + t, start, len) == body_at(s, start, len),
        text_body_at(s + t, start, len) == text_body_at(s, start, len),
        body_at(s, start, len) is Ok ==> start + len + 2 <= s.len(),
{
    let st = s + t;
    let end = start + len;
    if end + 2 > s.len() {
        if end < s.len() {
            assert(st[end] == s[end]);
        }
    } else {
        assert(st[end] == s[end] && st[end + 1] == s[end + 1]);
        if body_at(s, start, len) is Ok {
            assert(st.subrange(start, end) =~= s.subrange(start, end));
        }
    }
}

/// A settled value of a sized kind reads the same with bytes appended, and
/// takes no more bytes than there are.
proof fn lemma_sized_extends(s: Seq<u8>, t: Seq<u8>, ty: u8, c: Seq<u8>, h: int)
    requires
        settled(parse_sized_value(s, ty, c, h)),
        is_sized_type(ty),
        0 <= h <= s.len(),
    ensures
        parse_sized_value(s + t, ty, c, h) == parse_sized_value(s, ty, c, h),
        parse_sized_value(s, ty, c, h) matches Ok((_, n)) ==> n <= s.len(),
{
    if ty == BULK_STRING {
        if let Some(n) = isize_text_value(c) {
            if n >= 0 {
                lemma_body_extends(s, t, h, n as int);
            }
        }
    } else if let Some(n) = usize_text_value(c) {
        lemma_body_extends(s, t, h, n as int);
    }
}

/// A settled value reads the same with bytes appended, and takes at least
/// one byte and no more than there are.
proof fn lemma_frame_extends(s: Seq<u8>, t: Seq<u8>, nested: bool)
    requires
        settled(parse_frame(s, nested)),
    ensures
        parse_frame(s + t, nested) == parse_frame(s, nested),
        parse_frame(s, nested) matches Ok((_, n)) ==> 0 < n <= s.len(),
    decreases s.len(), 1int,
{
    let st = s + t;
    if s.len() > 0 {
        assert(st[0] == s[0]);
    }
    if s.len() > 0 && is_type_byte(s[0]) && !(s[0] == PUSH && nested) && first_crlf(s) is Some {
        lemma_first_crlf_extends(s, t);
        lemma_crlf_from(s, 0);
        let e = first_crlf(s)->0;
        assert(e >= 1) by {
            if e == 0 {
                assert(crlf_at(s, 0));
            }
        }
        assert(st.subrange(1, e) =~= s.subrange(1, e));
        let ty = s[0];
        let c = s.subrange(1, e);
        if is_line_type(ty) {
        } else if is_sized_type(ty) {
            lemma_sized_extends(s, t, ty, c, e + 2);
        } else {
            lemma_aggregate_extends(s, t, ty, c, e + 2);
        }
    }
}

/// A settled aggregate reads the same with bytes appended.
proof fn lemma_aggregate_extends(s: Seq<u8>, t: Seq<u8>, ty: u8, c: Seq<u8>, h: int)
    requires
        settled(parse_aggregate(s, ty, c, h)),
        0 < h <= s.len(),
    ensures
        parse_aggregate(s + t, ty, c, h) == parse_aggregate(s, ty, c, h),
        parse_aggregate(s, ty, c, h) matches Ok((_, n)) ==> 0 < n <= s.len(),
    decreases s.len(), 0int,
{
    let st = s + t;
    let rest = s.subrange(h, s.len() as int);
    assert(st.subrange(h, st.len() as int) =~= rest + t);
    if ty == ARRAY {
        if let Some(n) = isize_text_value(c) {
            if n >= 0 {
                lemma_list_extends(rest, t, n as int);
            }
        }
    } else if let Some(n) = usize_text_value(c) {
        if ty == MAP || ty == ATTRIBUTE {
            lemma_pairs_extends(rest, t, n as int);
            if ty == ATTRIBUTE {
                if let Ok((_, u)) = parse_pairs(rest, n as int) {
                    let tail = rest.subrange(u, rest.len() as int);
                    assert((rest + t).subrange(u, (rest + t).len() as int) =~= tail + t);
                    lemma_frame_extends(tail, t, true);
                }
            }
        } else {
            lemma_list_extends(rest, t, n as int);
        }
    }
}

/// `n` settled values in a row read the same with bytes appended.
proof fn lemma_list_extends(s: Seq<u8>, t: Seq<u8>, n: int)
    requires
        settled(parse_list(s, n)),
    ensures
        parse_list(s + t, n) == parse_list(s, n),
        parse_list(s, n) matches Ok((_, u)) ==> 0 <= u <= s.len(),
    decreases s.len(), n + 2,
{
    if n > 0 {
        lemma_frame_extends(s, t, true);
        if let Ok((f, c)) = parse_frame(s, true) {
            let rest = s.subrange(c, s.len() as int);
            assert((s + t).subrange(c, (s + t).len() as int) =~= rest + t);
            lemma_list_extends(rest, t, n - 1);
        }
    }
}

/// `n` settled key/value pairs in a row read the same with bytes appended.
proof fn lemma_pairs_extends(s: Seq<u8>, t: Seq<u8>, n: int)
    requires
        settled(parse_pairs(s, n)),
    ensures
        parse_pairs(s + t, n) == parse_pairs(s, n),
        parse_pairs(s, n) matches Ok((_, u)) ==> 0 <= u <= s.len(),
    decreases s.len(), n + 2,
{
    if n > 0 {
        lemma_frame_extends(s, t, true);
        if let Ok((k, c1)) = parse_frame(s, true) {
            let s1 = s.subrange(c1, s.len() as int);
            assert((s + t).subrange(c1, (s + t).len() as int) =~= s1 + t);
            lemma_frame_extends(s1, t, true);
            if let Ok((v, c2)) = parse_frame(s1, true) {
                let s2 = s1.subrange(c2, s1.len() as int);
                assert((s1 + t).subrange(c2, (s1 + t).len() as int) =~= s2 + t);
                lemma_pairs_extends(s2, t, n - 1);
            }
        }
    }
}

/// A complete value reads the same whatever bytes follow it, and the bytes
/// that follow are not taken.
pub proof fn law_complete_value_extends(s: Seq<u8>, t: Seq<u8>, nested: bool)
    requires
        parse_frame(s, nested) is Ok,
    ensures
        parse_frame(s + t, nested) == parse_frame(s, nested),
        parse_frame(s, nested) matches Ok((_, n)) && 0 < n <= s.len(),
{
    lemma_frame_extends(s, t, nested);
}

/// Broken syntax stays broken whatever bytes are appended: only
/// `Incomplete` can be cured by more input.
pub proof fn law_invalid_extends(s: Seq<u8>, t: Seq<u8>, nested: bool)
    requires
        parse_frame(s, nested) == Err::<(Frame, int), ParseError>(ParseError::Invalid),
    ensures
        parse_frame(s + t, nested) == Err::<(Frame, int), ParseError>(ParseError::Invalid),
{
    lemma_frame_extends(s, t, nested);
}

} // verus!
