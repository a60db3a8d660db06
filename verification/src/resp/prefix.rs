//! What reading a cut-off value gives: every proper prefix of the encoding
//! of a well-formed value reads as `Incomplete`, so a reader that waits for
//! more bytes on `Incomplete` never refuses a value that is still arriving.

use vstd::prelude::*;
use super::decimal::{int_decimal, is_digit, isize_text_value, nat_decimal, usize_text_value};
use super::frame::Frame;
use super::lexical::{CR, crlf_at, first_crlf, lemma_crlf_from};
use super::resp_prefix::{
    ARRAY, ATTRIBUTE, BIG_NUM, BOOLEAN, BULK_ERROR, BULK_STRING, DOUBLE, INTEGER, MAP, NULL, PUSH,
    SET, SIMPLE_ERROR, SIMPLE_STRING, VERBATIM_STRING,
};
use super::roundtrip::{
    all_well_formed, lemma_decimal_text, lemma_header, lemma_minus_one_text, lemma_no_cr_no_crlf,
    lemma_parse_serialize, lemma_parse_serialize_pairs, no_crlf, pairs_well_formed, well_formed,
};
use super::types::ParseError;
use super::wire::{
    body_at, is_type_byte, line, minus_one, parse_frame, parse_list, parse_pairs, serialize,
    serialize_all, serialize_pairs, sized,
};

verus! {

/// A header line cut before its line end is complete reads as
/// `Incomplete`.
proof fn lemma_header_cut(t: u8, c: Seq<u8>, tail: Seq<u8>, k: int, nested: bool)
    requires
        is_type_byte(t),
        t != CR,
        no_crlf(c),
        !(t == PUSH && nested),
        0 <= k < c.len() + 3,
    ensures
        parse_frame((line(t, c) + tail).take(k), nested) == Err::<(Frame, int), ParseError>(
            ParseError::Incomplete,
        ),
{
    let full = line(t, c) + tail;
    let s = full.take(k);
    if k > 0 {
        assert(s[0] == t);
        lemma_header(t, c, tail);
        lemma_crlf_from(s, 0);
        if let Some(e) = first_crlf(s) {
            assert(crlf_at(s, e));
            assert(s[e] == full[e] && s[e + 1] == full[e + 1]);
            assert(crlf_at(full, e));
            lemma_crlf_from(full, 0);
            assert(e >= c.len() + 1);
            assert(false);
        }
    }
}

/// A header line that is complete, followed by a cut-off tail.
proof fn lemma_header_whole(t: u8, c: Seq<u8>, tail: Seq<u8>, k: int)
    requires
        t != CR,
        no_crlf(c),
        c.len() + 3 <= k <= c.len() + 3 + tail.len(),
    ensures
        (line(t, c) + tail).take(k) == line(t, c) + tail.take(k - c.len() - 3),
{
    assert((line(t, c) + tail).take(k) =~= line(t, c) + tail.take(k - c.len() - 3));
}

/// The type byte and header content of a value that is a single line.
proof fn line_parts(f: Frame, nested: bool) -> (tc: (u8, Seq<u8>))
    requires
        well_formed(f, nested),
        f is SimpleString || f is SimpleError || f is Integer || f is Null || f is Boolean
            || f is Double || f is BigNum || f is NullBulkString || f is NullArray,
    ensures
        serialize(f) == line(tc.0, tc.1),
        no_crlf(tc.1),
        is_type_byte(tc.0),
        tc.0 != CR,
        tc.0 != PUSH,
{
    match f {
        Frame::SimpleString(x) => (SIMPLE_STRING, x),
        Frame::SimpleError(x) => (SIMPLE_ERROR, x),
        Frame::Integer(i) => {
            let c = int_decimal(i);
            super::decimal::lemma_int_decimal_roundtrip(i);
            assert forall|k: int| 0 <= k < c.len() implies c[k] != CR by {
                let b = c[k];
                assert(b == 45u8 || is_digit(b));
            }
            lemma_no_cr_no_crlf(c);
            (INTEGER, c)
        },
        Frame::Null => {
            lemma_no_cr_no_crlf(Seq::<u8>::empty());
            (NULL, Seq::empty())
        },
        Frame::Boolean(b) => {
            let c = if b {
                seq![116u8]
            } else {
                seq![102u8]
            };
            lemma_no_cr_no_crlf(c);
            (BOOLEAN, c)
        },
        Frame::Double(x) => (DOUBLE, x),
        Frame::BigNum(x) => (BIG_NUM, x),
        Frame::NullBulkString => {
            lemma_minus_one_text();
            (BULK_STRING, minus_one())
        },
        _ => {
            lemma_minus_one_text();
            (ARRAY, minus_one())
        },
    }
}

/// Every proper prefix of the encoding of a well-formed value reads as
/// `Incomplete`.
pub proof fn law_prefix_incomplete(f: Frame, nested: bool, k: int)
    requires
        well_formed(f, nested),
        0 <= k < serialize(f).len(),
    ensures
        parse_frame(serialize(f).take(k), nested) == Err::<(Frame, int), ParseError>(
            ParseError::Incomplete,
        ),
    decreases f, 6int,
{
    if f is SimpleString || f is SimpleError || f is Integer || f is Null || f is Boolean
        || f is Double || f is BigNum || f is NullBulkString || f is NullArray {
        let (t, c) = line_parts(f, nested);
        assert(line(t, c) + Seq::<u8>::empty() =~= line(t, c));
        lemma_header_cut(t, c, Seq::empty(), k, nested);
    } else if f is BulkString || f is BulkError || f is VerbatimString {
        lemma_sized_cut(f, nested, k);
    } else if f is Array || f is SetValue || f is Push {
        lemma_list_cut(f, nested, k);
    } else {
        lemma_map_cut(f, nested, k);
    }
}

proof fn lemma_sized_cut(f: Frame, nested: bool, k: int)
    requires
        well_formed(f, nested),
        f is BulkString || f is BulkError || f is VerbatimString,
        0 <= k < serialize(f).len(),
    ensures
        parse_frame(serialize(f).take(k), nested) == Err::<(Frame, int), ParseError>(
            ParseError::Incomplete,
        ),
{
    let (t, x) = match f {
        Frame::BulkString(x) => (BULK_STRING, x),
        Frame::BulkError(x) => (BULK_ERROR, x),
        Frame::VerbatimString(e, d) => (VERBATIM_STRING, e + seq![58u8] + d),
        _ => (BULK_STRING, Seq::empty()),
    };
    let nd = nat_decimal(x.len());
    lemma_decimal_text(x.len());
    let tail = x + seq![CR, 10u8];
    assert(serialize(f) == sized(t, x));
    assert(sized(t, x) =~= line(t, nd) + tail);
    let h = nd.len() as int + 3;
    if k < h {
        lemma_header_cut(t, nd, tail, k, nested);
    } else {
        lemma_header_whole(t, nd, tail, k);
        let s = serialize(f).take(k);
        let tk = tail.take(k - h);
        lemma_header(t, nd, tk);
        assert(s == line(t, nd) + tk);
        let end = h + x.len() as int;
        assert(body_at(s, h, x.len() as int) == Err::<Seq<u8>, ParseError>(ParseError::Incomplete))
            by {
            if end < s.len() {
                assert(s[end] == tail[x.len() as int]);
            }
        }
        if t == BULK_STRING {
            assert(isize_text_value(nd) == Some(x.len() as isize));
        } else {
            assert(usize_text_value(nd) == Some(x.len() as usize));
        }
    }
}

proof fn lemma_list_cut(f: Frame, nested: bool, k: int)
    requires
        well_formed(f, nested),
        f is Array || f is SetValue || f is Push,
        0 <= k < serialize(f).len(),
    ensures
        parse_frame(serialize(f).take(k), nested) == Err::<(Frame, int), ParseError>(
            ParseError::Incomplete,
        ),
    decreases f, 5int,
{
    let (t, xs) = match f {
        Frame::Array(xs) => (ARRAY, xs),
        Frame::SetValue(xs) => (SET, xs),
        Frame::Push(xs) => (PUSH, xs),
        _ => (ARRAY, Seq::empty()),
    };
    let nd = nat_decimal(xs.len());
    lemma_decimal_text(xs.len());
    let tail = serialize_all(xs);
    assert(serialize(f) == line(t, nd) + tail);
    let h = nd.len() as int + 3;
    if k < h {
        lemma_header_cut(t, nd, tail, k, nested);
    } else {
        lemma_header_whole(t, nd, tail, k);
        let tk = tail.take(k - h);
        lemma_header(t, nd, tk);
        lemma_all_cut(xs, k - h);
        if t == ARRAY {
            assert(isize_text_value(nd) == Some(xs.len() as isize));
        } else {
            assert(usize_text_value(nd) == Some(xs.len() as usize));
        }
    }
}

proof fn lemma_map_cut(f: Frame, nested: bool, k: int)
    requires
        well_formed(f, nested),
        f is MapValue || f is Attribute,
        0 <= k < serialize(f).len(),
    ensures
        parse_frame(serialize(f).take(k), nested) == Err::<(Frame, int), ParseError>(
            ParseError::Incomplete,
        ),
    decreases f, 5int,
{
    match f {
        Frame::MapValue(ps) => {
            let nd = nat_decimal(ps.len());
            lemma_decimal_text(ps.len());
            let tail = serialize_pairs(ps);
            assert(serialize(f) == line(MAP, nd) + tail);
            let h = nd.len() as int + 3;
            if k < h {
                lemma_header_cut(MAP, nd, tail, k, nested);
            } else {
                lemma_header_whole(MAP, nd, tail, k);
                lemma_header(MAP, nd, tail.take(k - h));
                lemma_pairs_cut(ps, k - h);
                assert(usize_text_value(nd) == Some(ps.len() as usize));
            }
        },
        Frame::Attribute(ps, v) => {
            let nd = nat_decimal(ps.len());
            lemma_decimal_text(ps.len());
            let sp = serialize_pairs(ps);
            let tail = sp + serialize(*v);
            assert(serialize(f) =~= line(ATTRIBUTE, nd) + tail);
            let h = nd.len() as int + 3;
            if k < h {
                lemma_header_cut(ATTRIBUTE, nd, tail, k, nested);
            } else {
                lemma_header_whole(ATTRIBUTE, nd, tail, k);
                let j = k - h;
                let rest = tail.take(j);
                lemma_header(ATTRIBUTE, nd, rest);
                assert(usize_text_value(nd) == Some(ps.len() as usize));
                if j < sp.len() {
                    assert(rest =~= sp.take(j));
                    lemma_pairs_cut(ps, j);
                } else {
                    let vk = serialize(*v).take(j - sp.len());
                    assert(rest =~= sp + vk);
                    lemma_parse_serialize_pairs(ps, vk);
                    assert(rest.subrange(sp.len() as int, rest.len() as int) =~= vk);
                    law_prefix_incomplete(*v, true, j - sp.len());
                }
            }
        },
        _ => {},
    }
}

/// A cut-off run of well-formed values reads as `Incomplete`.
proof fn lemma_all_cut(xs: Seq<Frame>, j: int)
    requires
        all_well_formed(xs),
        0 <= j < serialize_all(xs).len(),
    ensures
        parse_list(serialize_all(xs).take(j), xs.len() as int) == Err::<
            (Seq<Frame>, int),
            ParseError,
        >(ParseError::Incomplete),
    decreases xs, 1int,
{
    let a = serialize(xs[0]);
    let tail = xs.subrange(1, xs.len() as int);
    let s = serialize_all(xs).take(j);
    assert(serialize_all(xs) == a + serialize_all(tail));
    assert(well_formed(xs[0], true));
    if j < a.len() {
        assert(s =~= a.take(j));
        law_prefix_incomplete(xs[0], true, j);
    } else {
        let r = serialize_all(tail).take(j - a.len());
        assert(s =~= a + r);
        lemma_parse_serialize(xs[0], true, r);
        assert(s.subrange(a.len() as int, s.len() as int) =~= r);
        lemma_all_cut(tail, j - a.len());
    }
}

/// A cut-off run of well-formed entries reads as `Incomplete`.
proof fn lemma_pairs_cut(ps: Seq<(Frame, Frame)>, j: int)
    requires
        pairs_well_formed(ps),
        0 <= j < serialize_pairs(ps).len(),
    ensures
        parse_pairs(serialize_pairs(ps).take(j), ps.len() as int) == Err::<
            (Seq<(Frame, Frame)>, int),
            ParseError,
        >(ParseError::Incomplete),
    decreases ps, 1int,
{
    let a = serialize(ps[0].0);
    let b = serialize(ps[0].1);
    let tail = ps.subrange(1, ps.len() as int);
    let s = serialize_pairs(ps).take(j);
    assert(serialize_pairs(ps) == a + b + serialize_pairs(tail));
    assert(well_formed(ps[0].0, true) && well_formed(ps[0].1, true));
    if j < a.len() {
        assert(s =~= a.take(j));
        law_prefix_incomplete(ps[0].0, true, j);
    } else {
        let r1 = (b + serialize_pairs(tail)).take(j - a.len());
        assert(s =~= a + r1);
        lemma_parse_serialize(ps[0].0, true, r1);
        let s1 = s.subrange(a.len() as int, s.len() as int);
        assert(s1 =~= r1);
        if j - a.len() < b.len() {
            assert(s1 =~= b.take(j - a.len()));
            law_prefix_incomplete(ps[0].1, true, j - a.len());
        } else {
            let r2 = serialize_pairs(tail).take(j - a.len() - b.len());
            assert(s1 =~= b + r2);
            lemma_parse_serialize(ps[0].1, true, r2);
            assert(s1.subrange(b.len() as int, s1.len() as int) =~= r2);
            lemma_pairs_cut(tail, j - a.len() - b.len());
        }
    }
}

} // verus!
