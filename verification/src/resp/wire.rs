//! The wire grammar: what reading a RESP value from bytes gives, and the
//! bytes that writing a value produces.

use vstd::prelude::*;
use vstd::utf8::valid_utf8;
use super::decimal::{i64_text_value, int_decimal, isize_text_value, nat_decimal, usize_text_value};
use super::frame::{Frame, map_of, set_of};
use super::lexical::{CR, LF, bignum_canonical, find_byte, first_crlf, is_float_text, lemma_crlf_from};
use super::resp_prefix::{ARRAY, ATTRIBUTE, BIG_NUM, BOOLEAN, BULK_ERROR, BULK_STRING, DOUBLE, INTEGER, MAP, NULL, PUSH, SET, SIMPLE_ERROR, SIMPLE_STRING, VERBATIM_STRING};
use super::types::ParseError;

verus! {

/// The type bytes that open a value.
pub open spec fn is_type_byte(t: u8) -> bool {
    t == SIMPLE_STRING || t == SIMPLE_ERROR || t == INTEGER || t == NULL || t == BOOLEAN || t
        == DOUBLE || t == BIG_NUM || t == BULK_STRING || t == ARRAY || t == BULK_ERROR || t
        == VERBATIM_STRING || t == MAP || t == ATTRIBUTE || t == SET || t == PUSH
}

/// The `len` payload bytes at `start`, which a line end must follow.
pub open spec fn body_at(s: Seq<u8>, start: int, len: int) -> Result<Seq<u8>, ParseError> {
    let end = start + len;
    if end > s.len() {
        Err(ParseError::Incomplete)
    } else if end + 2 > s.len() {
        if end < s.len() && s[end] != CR {
            Err(ParseError::Invalid)
        } else {
            Err(ParseError::Incomplete)
        }
    } else if !(s[end] == CR && s[end + 1] == LF) {
        Err(ParseError::Invalid)
    } else {
        Ok(s.subrange(start, end))
    }
}

/// A sized payload that must be text.
pub open spec fn text_body_at(s: Seq<u8>, start: int, len: int) -> Result<Seq<u8>, ParseError> {
    match body_at(s, start, len) {
        Ok(b) => if valid_utf8(b) {
            Ok(b)
        } else {
            Err(ParseError::Invalid)
        },
        Err(e) => Err(e),
    }
}

/// The value at the front of `s`, with the number of bytes it takes.
/// `nested` tells whether the value stands inside another one.
pub open spec fn parse_frame(s: Seq<u8>, nested: bool) -> Result<(Frame, int), ParseError>
    decreases s.len(), 1int,
{
    if s.len() == 0 {
        Err(ParseError::Incomplete)
    } else if !is_type_byte(s[0]) {
        Err(ParseError::Invalid)
    } else if s[0] == PUSH && nested {
        Err(ParseError::Invalid)
    } else {
        proof {
            lemma_crlf_from(s, 0);
        }
        match first_crlf(s) {
            None => Err(ParseError::Incomplete),
            Some(e) => {
                let t = s[0];
                if is_line_type(t) {
                    parse_line_value(t, s.subrange(1, e), e + 2)
                } else if is_sized_type(t) {
                    parse_sized_value(s, t, s.subrange(1, e), e + 2)
                } else {
                    parse_aggregate(s, t, s.subrange(1, e), e + 2)
                }
            },
        }
    }
}

/// The kinds whose header line holds the whole value.
pub open spec fn is_line_type(t: u8) -> bool {
    t == SIMPLE_STRING || t == SIMPLE_ERROR || t == INTEGER || t == NULL || t == BOOLEAN || t
        == DOUBLE || t == BIG_NUM
}

/// The kinds whose header line gives the length of a payload that follows.
pub open spec fn is_sized_type(t: u8) -> bool {
    t == BULK_STRING || t == BULK_ERROR || t == VERBATIM_STRING
}

/// A value of a line kind `t` whose header content is `c`; the header takes `h` bytes.
pub open spec fn parse_line_value(t: u8, c: Seq<u8>, h: int) -> Result<(Frame, int), ParseError> {
    if t == SIMPLE_STRING {
        if valid_utf8(c) {
            Ok((Frame::SimpleString(c), h))
        } else {
            Err(ParseError::Invalid)
        }
    } else if t == SIMPLE_ERROR {
        if valid_utf8(c) {
            Ok((Frame::SimpleError(c), h))
        } else {
            Err(ParseError::Invalid)
        }
    } else if t == INTEGER {
        match i64_text_value(c) {
            Some(v) => Ok((Frame::Integer(v as int), h)),
            None => Err(ParseError::Invalid),
        }
    } else if t == NULL {
        if c.len() == 0 {
            Ok((Frame::Null, h))
        } else {
            Err(ParseError::Invalid)
        }
    } else if t == BOOLEAN {
        if c == seq![116u8] {
            Ok((Frame::Boolean(true), h))
        } else if c == seq![102u8] {
            Ok((Frame::Boolean(false), h))
        } else {
            Err(ParseError::Invalid)
        }
    } else if t == DOUBLE {
        if is_float_text(c) && valid_utf8(c) {
            Ok((Frame::Double(c), h))
        } else {
            Err(ParseError::Invalid)
        }
    } else {
        match bignum_canonical(c) {
            Some(d) => Ok((Frame::BigNum(d), h)),
            None => Err(ParseError::Invalid),
        }
    }
}

/// A value of a sized kind `t` at the front of `s`, whose header content is
/// `c`; the header takes `h` bytes.
pub open spec fn parse_sized_value(s: Seq<u8>, t: u8, c: Seq<u8>, h: int) -> Result<
    (Frame, int),
    ParseError,
> {
    if t == BULK_STRING {
        match isize_text_value(c) {
            None => Err(ParseError::Invalid),
            Some(n) => if n < -1 {
                Err(ParseError::Invalid)
            } else if n == -1 {
                Ok((Frame::NullBulkString, h))
            } else {
                match text_body_at(s, h, n as int) {
                    Ok(b) => Ok((Frame::BulkString(b), h + n + 2)),
                    Err(err) => Err(err),
                }
            },
        }
    } else if t == BULK_ERROR {
        match usize_text_value(c) {
            None => Err(ParseError::Invalid),
            Some(n) => match text_body_at(s, h, n as int) {
                Ok(b) => Ok((Frame::BulkError(b), h + n + 2)),
                Err(err) => Err(err),
            },
        }
    } else {
        match usize_text_value(c) {
            None => Err(ParseError::Invalid),
            Some(n) => match body_at(s, h, n as int) {
                Ok(b) => match find_byte(b, 58u8) {
                    None => Err(ParseError::Invalid),
                    Some(k) => {
                        let enc = b.subrange(0, k);
                        let data = b.subrange(k + 1, b.len() as int);
                        if valid_utf8(enc) && valid_utf8(data) {
                            Ok((Frame::VerbatimString(enc, data), h + n + 2))
                        } else {
                            Err(ParseError::Invalid)
                        }
                    },
                },
                Err(err) => Err(err),
            },
        }
    }
}

/// A value of an aggregate kind `t` at the front of `s`, whose header
/// content is `c`; the header takes `h` bytes.
pub open spec fn parse_aggregate(s: Seq<u8>, t: u8, c: Seq<u8>, h: int) -> Result<
    (Frame, int),
    ParseError,
>
    decreases s.len(), 0int,
{
    if !(0 < h <= s.len()) {
        Err(ParseError::Invalid)
    } else {
        let rest = s.subrange(h, s.len() as int);
        if t == ARRAY {
            match isize_text_value(c) {
                None => Err(ParseError::Invalid),
                Some(n) => if n < -1 {
                    Err(ParseError::Invalid)
                } else if n == -1 {
                    Ok((Frame::NullArray, h))
                } else {
                    match parse_list(rest, n as int) {
                        Ok((xs, u)) => Ok((Frame::Array(xs), h + u)),
                        Err(err) => Err(err),
                    }
                },
            }
        } else if t == MAP {
            match usize_text_value(c) {
                None => Err(ParseError::Invalid),
                Some(n) => match parse_pairs(rest, n as int) {
                    Ok((ps, u)) => Ok((Frame::MapValue(map_of(ps)), h + u)),
                    Err(err) => Err(err),
                },
            }
        } else if t == ATTRIBUTE {
            match usize_text_value(c) {
                None => Err(ParseError::Invalid),
                Some(n) => match parse_pairs(rest, n as int) {
                    Ok((ps, u)) => if 0 <= u <= rest.len() {
                        match parse_frame(rest.subrange(u, rest.len() as int), true) {
                            Ok((v, u2)) => Ok(
                                (Frame::Attribute(map_of(ps), Box::new(v)), h + u + u2),
                            ),
                            Err(err) => Err(err),
                        }
                    } else {
                        Err(ParseError::Invalid)
                    },
                    Err(err) => Err(err),
                },
            }
        } else if t == SET {
            match usize_text_value(c) {
                None => Err(ParseError::Invalid),
                Some(n) => match parse_list(rest, n as int) {
                    Ok((xs, u)) => Ok((Frame::SetValue(set_of(xs)), h + u)),
                    Err(err) => Err(err),
                },
            }
        } else {
            match usize_text_value(c) {
                None => Err(ParseError::Invalid),
                Some(n) => match parse_list(rest, n as int) {
                    Ok((xs, u)) => Ok((Frame::Push(xs), h + u)),
                    Err(err) => Err(err),
                },
            }
        }
    }
}

/// `n` nested values in a row at the front of `s`, with the bytes they take.
pub open spec fn parse_list(s: Seq<u8>, n: int) -> Result<(Seq<Frame>, int), ParseError>
    decreases s.len(), n + 2,
{
    if n <= 0 {
        Ok((Seq::empty(), 0))
    } else {
        match parse_frame(s, true) {
            Err(err) => Err(err),
            Ok((f, c)) => if 0 <= c <= s.len() {
                match parse_list(s.subrange(c, s.len() as int), n - 1) {
                    Ok((fs, c2)) => Ok((seq![f] + fs, c + c2)),
                    Err(err) => Err(err),
                }
            } else {
                Err(ParseError::Invalid)
            },
        }
    }
}

/// `n` key/value pairs in a row at the front of `s`, with the bytes they take.
pub open spec fn parse_pairs(s: Seq<u8>, n: int) -> Result<(Seq<(Frame, Frame)>, int), ParseError>
    decreases s.len(), n + 2,
{
    if n <= 0 {
        Ok((Seq::empty(), 0))
    } else {
        match parse_frame(s, true) {
            Err(err) => Err(err),
            Ok((k, c1)) => if 0 <= c1 <= s.len() {
                let s1 = s.subrange(c1, s.len() as int);
                match parse_frame(s1, true) {
                    Err(err) => Err(err),
                    Ok((v, c2)) => if 0 <= c2 <= s1.len() {
                        match parse_pairs(s1.subrange(c2, s1.len() as int), n - 1) {
                            Ok((ps, c3)) => Ok((seq![(k, v)] + ps, c1 + c2 + c3)),
                            Err(err) => Err(err),
                        }
                    } else {
                        Err(ParseError::Invalid)
                    },
                }
            } else {
                Err(ParseError::Invalid)
            },
        }
    }
}

} // verus!

verus! {

pub open spec fn crlf() -> Seq<u8> {
    seq![CR, LF]
}

/// A header line: the type byte, the content, a line end.
pub open spec fn line(t: u8, c: Seq<u8>) -> Seq<u8> {
    seq![t] + c + crlf()
}

/// The payload `x` with its length line before it and a line end after it.
pub open spec fn sized(t: u8, x: Seq<u8>) -> Seq<u8> {
    line(t, nat_decimal(x.len())) + x + crlf()
}

/// The text `-1`, which stands for a null length.
pub open spec fn minus_one() -> Seq<u8> {
    seq![45u8, 49u8]
}

/// The bytes that writing a value produces.
pub open spec fn serialize(f: Frame) -> Seq<u8>
    decreases f, 0int,
{
    match f {
        Frame::SimpleString(x) => line(SIMPLE_STRING, x),
        Frame::SimpleError(x) => line(SIMPLE_ERROR, x),
        Frame::Integer(i) => line(INTEGER, int_decimal(i)),
        Frame::Null => line(NULL, Seq::empty()),
        Frame::Boolean(b) => line(BOOLEAN, if b { seq![116u8] } else { seq![102u8] }),
        Frame::Double(x) => line(DOUBLE, x),
        Frame::BigNum(x) => line(BIG_NUM, x),
        Frame::BulkString(x) => sized(BULK_STRING, x),
        Frame::NullBulkString => line(BULK_STRING, minus_one()),
        Frame::Array(xs) => line(ARRAY, nat_decimal(xs.len())) + serialize_all(xs),
        Frame::NullArray => line(ARRAY, minus_one()),
        Frame::BulkError(x) => sized(BULK_ERROR, x),
        Frame::VerbatimString(e, d) => sized(VERBATIM_STRING, e + seq![58u8] + d),
        Frame::MapValue(ps) => line(MAP, nat_decimal(ps.len())) + serialize_pairs(ps),
        Frame::Attribute(ps, v) => line(ATTRIBUTE, nat_decimal(ps.len())) + serialize_pairs(ps)
            + serialize(*v),
        Frame::SetValue(xs) => line(SET, nat_decimal(xs.len())) + serialize_all(xs),
        Frame::Push(xs) => line(PUSH, nat_decimal(xs.len())) + serialize_all(xs),
    }
}

/// The values of `xs`, written one after another.
pub open spec fn serialize_all(xs: Seq<Frame>) -> Seq<u8>
    decreases xs, 0int,
{
    if xs.len() == 0 {
        Seq::empty()
    } else {
        serialize(xs[0]) + serialize_all(xs.subrange(1, xs.len() as int))
    }
}

/// The entries of `ps`, each written as its key, then its value.
pub open spec fn serialize_pairs(ps: Seq<(Frame, Frame)>) -> Seq<u8>
    decreases ps, 0int,
{
    if ps.len() == 0 {
        Seq::empty()
    } else {
        serialize(ps[0].0) + serialize(ps[0].1) + serialize_pairs(ps.subrange(1, ps.len() as int))
    }
}

pub proof fn lemma_serialize_all_push(xs: Seq<Frame>, x: Frame)
    ensures
        serialize_all(xs.push(x)) == serialize_all(xs) + serialize(x),
    decreases xs.len(),
{
    let ys = xs.push(x);
    assert(ys[0] == if xs.len() == 0 { x } else { xs[0] });
    if xs.len() == 0 {
        assert(xs.push(x).subrange(1, 1) =~= Seq::<Frame>::empty());
        assert(serialize_all(Seq::<Frame>::empty()) == Seq::<u8>::empty());
        assert(serialize_all(xs) == Seq::<u8>::empty());
        assert(serialize(x) + Seq::<u8>::empty() =~= serialize(x));
        assert(Seq::<u8>::empty() + serialize(x) =~= serialize(x));
    } else {
        let tail = xs.subrange(1, xs.len() as int);
        lemma_serialize_all_push(tail, x);
        assert(xs.push(x).subrange(1, xs.len() as int + 1) =~= tail.push(x));
        assert(serialize(xs[0]) + (serialize_all(tail) + serialize(x)) =~= (serialize(xs[0])
            + serialize_all(tail)) + serialize(x));
    }
}

pub proof fn lemma_serialize_pairs_push(ps: Seq<(Frame, Frame)>, p: (Frame, Frame))
    ensures
        serialize_pairs(ps.push(p)) == serialize_pairs(ps) + serialize(p.0) + serialize(p.1),
    decreases ps.len(),
{
    let qs = ps.push(p);
    assert(qs[0] == if ps.len() == 0 { p } else { ps[0] });
    if ps.len() == 0 {
        assert(ps.push(p).subrange(1, 1) =~= Seq::<(Frame, Frame)>::empty());
        assert(serialize_pairs(Seq::<(Frame, Frame)>::empty()) == Seq::<u8>::empty());
        assert(serialize_pairs(ps) == Seq::<u8>::empty());
        assert(serialize(p.0) + serialize(p.1) + Seq::<u8>::empty() =~= Seq::<u8>::empty()
            + serialize(p.0) + serialize(p.1));
    } else {
        let tail = ps.subrange(1, ps.len() as int);
        lemma_serialize_pairs_push(tail, p);
        assert(ps.push(p).subrange(1, ps.len() as int + 1) =~= tail.push(p));
        assert(serialize(ps[0].0) + serialize(ps[0].1) + (serialize_pairs(tail) + serialize(p.0)
            + serialize(p.1)) =~= serialize(ps[0].0) + serialize(ps[0].1) + serialize_pairs(tail)
            + serialize(p.0) + serialize(p.1));
    }
}

} // verus!
