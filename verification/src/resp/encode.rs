//! Writing RESP values as bytes.

use vstd::prelude::*;
use vstd::utf8::{is_leading_byte_width_1, partial_valid_utf8_extend_ascii_block, valid_utf8, valid_utf8_concat};
use super::decimal::{
    int_decimal, is_digit, lemma_int_decimal_roundtrip, lemma_nat_decimal, nat_decimal, push_decimal,
    push_int,
};
use super::frame::Frame;
use super::lexical::{CR, LF};
use super::resp_prefix::{
    ARRAY, ATTRIBUTE, BIG_NUM, BOOLEAN, BULK_ERROR, BULK_STRING, DOUBLE, INTEGER, MAP, NULL, PUSH,
    SET, SIMPLE_ERROR, SIMPLE_STRING, VERBATIM_STRING,
};
use super::types::{RESPValue, bytes_of, frames_of, pair_frames_of};
use super::wire::{
    crlf, line, lemma_serialize_all_push, lemma_serialize_pairs_push, minus_one, serialize,
    serialize_all, serialize_pairs, sized,
};

verus! {

fn push_bytes(out: &mut Vec<u8>, b: &[u8])
    ensures
        final(out)@ == old(out)@ + b@,
{
    let mut i: usize = 0;
    while i < b.len()
        invariant
            0 <= i <= b@.len(),
            out@ == old(out)@ + b@.subrange(0, i as int),
        decreases b.len() - i,
    {
        out.push(b[i]);
        i = i + 1;
        assert(out@ =~= old(out)@ + b@.subrange(0, i as int));
    }
    assert(b@.subrange(0, b@.len() as int) =~= b@);
}

fn push_text(out: &mut Vec<u8>, s: &String)
    ensures
        final(out)@ == old(out)@ + bytes_of(*s),
{
    push_bytes(out, s.as_str().as_bytes());
}

fn push_crlf(out: &mut Vec<u8>)
    ensures
        final(out)@ == old(out)@ + crlf(),
{
    out.push(CR);
    out.push(LF);
    assert(out@ =~= old(out)@ + crlf());
}

/// Writes a header line whose content is a text.
fn push_text_line(out: &mut Vec<u8>, t: u8, s: &String)
    ensures
        final(out)@ == old(out)@ + line(t, bytes_of(*s)),
{
    out.push(t);
    push_text(out, s);
    push_crlf(out);
    assert(out@ =~= old(out)@ + line(t, bytes_of(*s)));
}

/// Writes a header line whose content is a length.
fn push_count_line(out: &mut Vec<u8>, t: u8, n: u128)
    ensures
        final(out)@ == old(out)@ + line(t, nat_decimal(n as nat)),
{
    out.push(t);
    let ghost mid = out@;
    push_decimal(out, n);
    push_crlf(out);
    assert(out@ =~= old(out)@ + line(t, nat_decimal(n as nat)));
}

/// Writes a header line with the null length `-1`.
fn push_null_line(out: &mut Vec<u8>, t: u8)
    ensures
        final(out)@ == old(out)@ + line(t, minus_one()),
{
    out.push(t);
    out.push(45u8);
    out.push(49u8);
    push_crlf(out);
    assert(out@ =~= old(out)@ + line(t, minus_one()));
}

/// Writes a length-prefixed text payload.
fn push_sized(out: &mut Vec<u8>, t: u8, s: &String)
    ensures
        final(out)@ == old(out)@ + sized(t, bytes_of(*s)),
{
    let b = s.as_str().as_bytes();
    push_count_line(out, t, b.len() as u128);
    push_bytes(out, b);
    push_crlf(out);
    assert(out@ =~= old(out)@ + sized(t, bytes_of(*s)));
}

fn push_all(out: &mut Vec<u8>, items: &Vec<RESPValue>)
    ensures
        final(out)@ == old(out)@ + serialize_all(frames_of(items@)),
    decreases items, 0int,
{
    let ghost fs = frames_of(items@);
    let mut i: usize = 0;
    assert(fs.subrange(0, 0) =~= Seq::<Frame>::empty());
    assert(old(out)@ + Seq::<u8>::empty() =~= old(out)@);
    while i < items.len()
        invariant
            0 <= i <= items@.len(),
            fs == frames_of(items@),
            out@ == old(out)@ + serialize_all(fs.subrange(0, i as int)),
        decreases items.len() - i,
    {
        let ghost before = out@;
        encode_into(&items[i], out);
        proof {
            assert(fs.subrange(0, i as int).push(fs[i as int]) =~= fs.subrange(0, i + 1));
            lemma_serialize_all_push(fs.subrange(0, i as int), fs[i as int]);
        }
        i = i + 1;
        assert(out@ =~= old(out)@ + serialize_all(fs.subrange(0, i as int)));
    }
    assert(fs.subrange(0, items@.len() as int) =~= fs);
}

fn push_pairs(out: &mut Vec<u8>, entries: &Vec<(RESPValue, RESPValue)>)
    ensures
        final(out)@ == old(out)@ + serialize_pairs(pair_frames_of(entries@)),
    decreases entries, 0int,
{
    let ghost ps = pair_frames_of(entries@);
    let mut i: usize = 0;
    assert(ps.subrange(0, 0) =~= Seq::<(Frame, Frame)>::empty());
    assert(old(out)@ + Seq::<u8>::empty() =~= old(out)@);
    while i < entries.len()
        invariant
            0 <= i <= entries@.len(),
            ps == pair_frames_of(entries@),
            out@ == old(out)@ + serialize_pairs(ps.subrange(0, i as int)),
        decreases entries.len() - i,
    {
        encode_into(&entries[i].0, out);
        encode_into(&entries[i].1, out);
        proof {
            assert(ps.subrange(0, i as int).push(ps[i as int]) =~= ps.subrange(0, i + 1));
            lemma_serialize_pairs_push(ps.subrange(0, i as int), ps[i as int]);
        }
        i = i + 1;
        assert(out@ =~= old(out)@ + serialize_pairs(ps.subrange(0, i as int)));
    }
    assert(ps.subrange(0, entries@.len() as int) =~= ps);
}

/// Appends the wire form of `v` to `out`.
pub fn encode_into(v: &RESPValue, out: &mut Vec<u8>)
    ensures
        final(out)@ == old(out)@ + serialize(v@),
    decreases v, 1int,
{
    match v {
        RESPValue::SimpleString(s) => push_text_line(out, SIMPLE_STRING, s),
        RESPValue::SimpleError(s) => push_text_line(out, SIMPLE_ERROR, s),
        RESPValue::Integer(i) => {
            out.push(INTEGER);
            push_int(out, *i);
            push_crlf(out);
            assert(out@ =~= old(out)@ + serialize(v@));
        },
        RESPValue::Null => {
            out.push(NULL);
            push_crlf(out);
            assert(out@ =~= old(out)@ + serialize(v@));
        },
        RESPValue::Boolean(b) => {
            out.push(BOOLEAN);
            if *b {
                out.push(116u8);
            } else {
                out.push(102u8);
            }
            push_crlf(out);
            assert(out@ =~= old(out)@ + serialize(v@));
        },
        RESPValue::Double(s) => push_text_line(out, DOUBLE, s),
        RESPValue::BigNum(s) => push_text_line(out, BIG_NUM, s),
        RESPValue::BulkString(s) => push_sized(out, BULK_STRING, s),
        RESPValue::NullBulkString => push_null_line(out, BULK_STRING),
        RESPValue::Array(items) => {
            push_count_line(out, ARRAY, items.0.len() as u128);
            push_all(out, &items.0);
            assert(out@ =~= old(out)@ + serialize(v@));
        },
        RESPValue::NullArray => push_null_line(out, ARRAY),
        RESPValue::BulkError(s) => push_sized(out, BULK_ERROR, s),
        RESPValue::VerbatimString { encoding, data } => {
            let e = encoding.as_str().as_bytes();
            let d = data.as_str().as_bytes();
            let n = e.len() as u128 + 1 + d.len() as u128;
            push_count_line(out, VERBATIM_STRING, n);
            push_bytes(out, e);
            out.push(58u8);
            push_bytes(out, d);
            push_crlf(out);
            assert(out@ =~= old(out)@ + serialize(v@));
        },
        RESPValue::MapValue(m) => {
            push_count_line(out, MAP, m.0.len() as u128);
            push_pairs(out, &m.0);
            assert(out@ =~= old(out)@ + serialize(v@));
        },
        RESPValue::Attribute { metadata, value } => {
            push_count_line(out, ATTRIBUTE, metadata.0.len() as u128);
            push_pairs(out, &metadata.0);
            encode_into(value, out);
            assert(out@ =~= old(out)@ + serialize(v@));
        },
        RESPValue::SetValue(s) => {
            push_count_line(out, SET, s.0.len() as u128);
            push_all(out, &s.0);
            assert(out@ =~= old(out)@ + serialize(v@));
        },
        RESPValue::Push(items) => {
            push_count_line(out, PUSH, items.0.len() as u128);
            push_all(out, &items.0);
            assert(out@ =~= old(out)@ + serialize(v@));
        },
    }
}

} // verus!

verus! {

/// Bytes below 128 form valid UTF-8.
pub proof fn lemma_ascii_utf8(s: Seq<u8>)
    requires
        forall|i: int| 0 <= i < s.len() ==> s[i] < 128,
    ensures
        valid_utf8(s),
{
    assert forall|i: int| 0 <= i < s.len() implies #[trigger] is_leading_byte_width_1(s[i]) by {
        assert(s[i] < 128);
    }
    assert(s.subrange(0, 0) =~= Seq::<u8>::empty());
    assert(valid_utf8(Seq::<u8>::empty()));
    partial_valid_utf8_extend_ascii_block(s, 0, s.len() as int);
    assert(s.subrange(0, s.len() as int) =~= s);
}

proof fn lemma_decimal_utf8(n: nat)
    ensures
        valid_utf8(nat_decimal(n)),
{
    lemma_nat_decimal(n);
    let d = nat_decimal(n);
    assert forall|i: int| 0 <= i < d.len() implies d[i] < 128 by {
        assert(is_digit(d[i]));
    }
    lemma_ascii_utf8(d);
}

proof fn lemma_line_utf8(t: u8, c: Seq<u8>)
    requires
        t < 128,
        valid_utf8(c),
    ensures
        valid_utf8(line(t, c)),
{
    lemma_ascii_utf8(seq![t]);
    lemma_ascii_utf8(crlf());
    valid_utf8_concat(seq![t], c);
    valid_utf8_concat(seq![t] + c, crlf());
}

proof fn lemma_sized_utf8(t: u8, x: Seq<u8>)
    requires
        t < 128,
        valid_utf8(x),
    ensures
        valid_utf8(sized(t, x)),
{
    lemma_decimal_utf8(x.len());
    lemma_line_utf8(t, nat_decimal(x.len()));
    lemma_ascii_utf8(crlf());
    valid_utf8_concat(line(t, nat_decimal(x.len())), x);
    valid_utf8_concat(line(t, nat_decimal(x.len())) + x, crlf());
}

/// What writing a value produces is well-formed UTF-8.
pub proof fn lemma_value_utf8(v: RESPValue)
    ensures
        valid_utf8(serialize(v@)),
    decreases v, 1int,
{
    broadcast use vstd::utf8::encode_utf8_valid_utf8;

    match v {
        RESPValue::SimpleString(s) => lemma_line_utf8(SIMPLE_STRING, bytes_of(s)),
        RESPValue::SimpleError(s) => lemma_line_utf8(SIMPLE_ERROR, bytes_of(s)),
        RESPValue::Integer(i) => {
            lemma_int_decimal_roundtrip(i as int);
            let d = int_decimal(i as int);
            assert forall|k: int| 0 <= k < d.len() implies d[k] < 128 by {
                let b = d[k];
                assert(b == 45u8 || is_digit(b));
            }
            lemma_ascii_utf8(d);
            lemma_line_utf8(INTEGER, d);
        },
        RESPValue::Null => {
            lemma_ascii_utf8(Seq::<u8>::empty());
            lemma_line_utf8(NULL, Seq::empty());
        },
        RESPValue::Boolean(b) => {
            let c = if b {
                seq![116u8]
            } else {
                seq![102u8]
            };
            lemma_ascii_utf8(c);
            lemma_line_utf8(BOOLEAN, c);
        },
        RESPValue::Double(s) => lemma_line_utf8(DOUBLE, bytes_of(s)),
        RESPValue::BigNum(s) => lemma_line_utf8(BIG_NUM, bytes_of(s)),
        RESPValue::BulkString(s) => lemma_sized_utf8(BULK_STRING, bytes_of(s)),
        RESPValue::NullBulkString => {
            lemma_ascii_utf8(minus_one());
            lemma_line_utf8(BULK_STRING, minus_one());
        },
        RESPValue::Array(items) => {
            lemma_decimal_utf8(items.0@.len());
            lemma_line_utf8(ARRAY, nat_decimal(items.0@.len()));
            lemma_values_utf8(items.0@);
            valid_utf8_concat(line(ARRAY, nat_decimal(items.0@.len())), serialize_all(frames_of(items.0@)));
        },
        RESPValue::NullArray => {
            lemma_ascii_utf8(minus_one());
            lemma_line_utf8(ARRAY, minus_one());
        },
        RESPValue::BulkError(s) => lemma_sized_utf8(BULK_ERROR, bytes_of(s)),
        RESPValue::VerbatimString { encoding, data } => {
            lemma_ascii_utf8(seq![58u8]);
            valid_utf8_concat(bytes_of(encoding), seq![58u8]);
            valid_utf8_concat(bytes_of(encoding) + seq![58u8], bytes_of(data));
            lemma_sized_utf8(VERBATIM_STRING, bytes_of(encoding) + seq![58u8] + bytes_of(data));
        },
        RESPValue::MapValue(m) => {
            lemma_decimal_utf8(m.0@.len());
            lemma_line_utf8(MAP, nat_decimal(m.0@.len()));
            lemma_entries_utf8(m.0@);
            valid_utf8_concat(line(MAP, nat_decimal(m.0@.len())), serialize_pairs(pair_frames_of(m.0@)));
        },
        RESPValue::Attribute { metadata, value } => {
            lemma_decimal_utf8(metadata.0@.len());
            lemma_line_utf8(ATTRIBUTE, nat_decimal(metadata.0@.len()));
            lemma_entries_utf8(metadata.0@);
            lemma_value_utf8(*value);
            let hd = line(ATTRIBUTE, nat_decimal(metadata.0@.len()));
            let sp = serialize_pairs(pair_frames_of(metadata.0@));
            valid_utf8_concat(hd, sp);
            valid_utf8_concat(hd + sp, serialize((*value)@));
        },
        RESPValue::SetValue(s) => {
            lemma_decimal_utf8(s.0@.len());
            lemma_line_utf8(SET, nat_decimal(s.0@.len()));
            lemma_values_utf8(s.0@);
            valid_utf8_concat(line(SET, nat_decimal(s.0@.len())), serialize_all(frames_of(s.0@)));
        },
        RESPValue::Push(items) => {
            lemma_decimal_utf8(items.0@.len());
            lemma_line_utf8(PUSH, nat_decimal(items.0@.len()));
            lemma_values_utf8(items.0@);
            valid_utf8_concat(line(PUSH, nat_decimal(items.0@.len())), serialize_all(frames_of(items.0@)));
        },
    }
}

proof fn lemma_values_utf8(s: Seq<RESPValue>)
    ensures
        valid_utf8(serialize_all(frames_of(s))),
    decreases s, 0int,
{
    if s.len() == 0 {
        assert(frames_of(s) =~= Seq::<Frame>::empty());
        lemma_ascii_utf8(Seq::<u8>::empty());
    } else {
        let tail = s.subrange(1, s.len() as int);
        assert(frames_of(s).subrange(1, s.len() as int) =~= frames_of(tail));
        lemma_value_utf8(s[0]);
        lemma_values_utf8(tail);
        valid_utf8_concat(serialize(s[0]@), serialize_all(frames_of(tail)));
    }
}

proof fn lemma_entries_utf8(s: Seq<(RESPValue, RESPValue)>)
    ensures
        valid_utf8(serialize_pairs(pair_frames_of(s))),
    decreases s, 0int,
{
    if s.len() == 0 {
        assert(pair_frames_of(s) =~= Seq::<(Frame, Frame)>::empty());
        lemma_ascii_utf8(Seq::<u8>::empty());
    } else {
        let tail = s.subrange(1, s.len() as int);
        assert(pair_frames_of(s).subrange(1, s.len() as int) =~= pair_frames_of(tail));
        lemma_value_utf8(s[0].0);
        lemma_value_utf8(s[0].1);
        lemma_entries_utf8(tail);
        valid_utf8_concat(serialize(s[0].0@), serialize(s[0].1@));
        valid_utf8_concat(serialize(s[0].0@) + serialize(s[0].1@), serialize_pairs(pair_frames_of(tail)));
    }
}

} // verus!
