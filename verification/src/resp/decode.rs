//! Reading RESP values from bytes.

use vstd::prelude::*;

use super::bignum::parse_bignum;
use super::decimal::{parse_i64_text, parse_isize_text, parse_usize_text};
use super::equality::{find_key, find_member};
use super::frame::{Frame, map_insert, map_of, set_insert, set_of};
use super::lexical::{CR, LF, find_byte_in, find_crlf, first_crlf, float_text_in};
use super::resp_prefix::{ARRAY, ATTRIBUTE, BIG_NUM, BOOLEAN, BULK_ERROR, BULK_STRING, DOUBLE, INTEGER, MAP, NULL, PUSH, SET, SIMPLE_ERROR, SIMPLE_STRING, VERBATIM_STRING};
use super::types::{MultiBulk, ParseError, RESPMap, RESPSet, RESPValue, frames_of, pair_frames_of};
use super::utf8::text_of;
use super::wire::{body_at, is_type_byte, parse_frame, parse_list, parse_pairs};

verus! {

/// The bytes of `input` from `pos` on.
pub open spec fn suffix(input: Seq<u8>, pos: int) -> Seq<u8> {
    input.subrange(pos, input.len() as int)
}

pub open spec fn list_prepend(
    acc: Seq<Frame>,
    used: int,
    r: Result<(Seq<Frame>, int), ParseError>,
) -> Result<(Seq<Frame>, int), ParseError> {
    match r {
        Ok((fs, c)) => Ok((acc + fs, used + c)),
        Err(e) => Err(e),
    }
}

pub open spec fn pairs_prepend(
    acc: Seq<(Frame, Frame)>,
    used: int,
    r: Result<(Seq<(Frame, Frame)>, int), ParseError>,
) -> Result<(Seq<(Frame, Frame)>, int), ParseError> {
    match r {
        Ok((ps, c)) => Ok((acc + ps, used + c)),
        Err(e) => Err(e),
    }
}

proof fn lemma_list_prepend_empty(r: Result<(Seq<Frame>, int), ParseError>)
    ensures
        list_prepend(Seq::empty(), 0, r) == r,
{
    if let Ok((fs, c)) = r {
        assert(Seq::<Frame>::empty() + fs =~= fs);
    }
}

proof fn lemma_list_prepend_step(
    acc: Seq<Frame>,
    f: Frame,
    u: int,
    c: int,
    r: Result<(Seq<Frame>, int), ParseError>,
)
    ensures
        list_prepend(acc, u, list_prepend(seq![f], c, r)) == list_prepend(acc.push(f), u + c, r),
{
    if let Ok((fs, c2)) = r {
        assert(acc + (seq![f] + fs) =~= acc.push(f) + fs);
    }
}

proof fn lemma_pairs_prepend_empty(r: Result<(Seq<(Frame, Frame)>, int), ParseError>)
    ensures
        pairs_prepend(Seq::empty(), 0, r) == r,
{
    if let Ok((ps, c)) = r {
        assert(Seq::<(Frame, Frame)>::empty() + ps =~= ps);
    }
}

proof fn lemma_pairs_prepend_step(
    acc: Seq<(Frame, Frame)>,
    p: (Frame, Frame),
    u: int,
    c: int,
    r: Result<(Seq<(Frame, Frame)>, int), ParseError>,
)
    ensures
        pairs_prepend(acc, u, pairs_prepend(seq![p], c, r)) == pairs_prepend(acc.push(p), u + c, r),
{
    if let Ok((ps, c2)) = r {
        assert(acc + (seq![p] + ps) =~= acc.push(p) + ps);
    }
}

/// What reading a value at `pos` of `input` gives: the value and the position after it.
pub open spec fn decoded_as(
    input: Seq<u8>,
    pos: int,
    nested: bool,
    res: Result<(RESPValue, usize), ParseError>,
) -> bool {
    match parse_frame(suffix(input, pos), nested) {
        Ok((f, c)) => res matches Ok((v, p)) && v@ == f && p == pos + c,
        Err(e) => res matches Err(e2) && e2 == e,
    }
}

/// Inserts an entry into a map (see [`map_insert`]).
pub fn map_put(m: &mut Vec<(RESPValue, RESPValue)>, k: RESPValue, v: RESPValue)
    ensures
        pair_frames_of(final(m)@) == map_insert(pair_frames_of(old(m)@), k@, v@),
{
    let ghost f = pair_frames_of(m@);
    let mlen = m.len();
    assert(f.len() == mlen);
    proof {
        super::frame::lemma_key_index_from(f, k@, 0);
    }
    match find_key(m, &k) {
        Some(i) => {
            proof {
                super::frame::lemma_key_index_from(f, k@, 0);
            }
            let (old_k, _old_v) = m.remove(i);
            m.insert(i, (old_k, v));
            assert(pair_frames_of(m@) =~= f.update(i as int, (f[i as int].0, v@)));
        },
        None => {
            m.push((k, v));
            assert(pair_frames_of(m@) =~= f.push((k@, v@)));
        },
    }
}

/// Inserts a member into a set (see [`set_insert`]).
pub fn set_put(s: &mut Vec<RESPValue>, x: RESPValue)
    ensures
        frames_of(final(s)@) == set_insert(frames_of(old(s)@), x@),
{
    let ghost f = frames_of(s@);
    match find_member(s, &x) {
        Some(_) => {},
        None => {
            s.push(x);
            assert(frames_of(s@) =~= f.push(x@));
        },
    }
}

/// Reads `n` nested values from `pos` on.
fn decode_list(input: &[u8], pos: usize, n: usize) -> (res: Result<(Vec<RESPValue>, usize), ParseError>)
    requires
        pos <= input@.len(),
    ensures
        match parse_list(suffix(input@, pos as int), n as int) {
            Ok((fs, c)) => res matches Ok((items, p)) && frames_of(items@) == fs && p == pos + c,
            Err(e) => res matches Err(e2) && e2 == e,
        },
        res matches Ok((_, p)) ==> pos <= p <= input@.len(),
    decreases input@.len() - pos, 2int,
{
    let ghost s0 = suffix(input@, pos as int);
    let mut items: Vec<RESPValue> = Vec::new();
    let mut p = pos;
    let mut k: usize = 0;
    proof {
        lemma_list_prepend_empty(parse_list(s0, n as int));
        assert(frames_of(items@) =~= Seq::<Frame>::empty());
    }
    while k < n
        invariant
            pos <= p <= input@.len(),
            k <= n,
            s0 == suffix(input@, pos as int),
            parse_list(s0, n as int) == list_prepend(
                frames_of(items@),
                p - pos,
                parse_list(suffix(input@, p as int), n - k),
            ),
        decreases n - k,
    {
        let ghost sp = suffix(input@, p as int);
        let r = decode_value(input, p, true);
        match r {
            Err(e) => {
                return Err(e);
            },
            Ok((v, p2)) => {
                proof {
                    assert(sp.subrange(p2 - p, sp.len() as int) =~= suffix(input@, p2 as int));
                    lemma_list_prepend_step(
                        frames_of(items@),
                        v@,
                        p - pos,
                        p2 - p,
                        parse_list(suffix(input@, p2 as int), n - k - 1),
                    );
                }
                let ghost before = frames_of(items@);
                items.push(v);
                assert(frames_of(items@) =~= before.push(v@));
                p = p2;
                k = k + 1;
            },
        }
    }
    assert(frames_of(items@) + Seq::<Frame>::empty() =~= frames_of(items@));
    Ok((items, p))
}

/// Reads `n` key/value pairs from `pos` on, inserting them in order into a map.
fn decode_pairs(input: &[u8], pos: usize, n: usize) -> (res: Result<
    (Vec<(RESPValue, RESPValue)>, usize),
    ParseError,
>)
    requires
        pos <= input@.len(),
    ensures
        match parse_pairs(suffix(input@, pos as int), n as int) {
            Ok((ps, c)) => res matches Ok((m, p)) && pair_frames_of(m@) == map_of(ps) && p == pos
                + c,
            Err(e) => res matches Err(e2) && e2 == e,
        },
        res matches Ok((_, p)) ==> pos <= p <= input@.len(),
    decreases input@.len() - pos, 2int,
{
    let ghost s0 = suffix(input@, pos as int);
    let ghost mut raw: Seq<(Frame, Frame)> = Seq::empty();
    let mut m: Vec<(RESPValue, RESPValue)> = Vec::new();
    let mut p = pos;
    let mut k: usize = 0;
    proof {
        lemma_pairs_prepend_empty(parse_pairs(s0, n as int));
        assert(pair_frames_of(m@) =~= Seq::<(Frame, Frame)>::empty());
    }
    while k < n
        invariant
            pos <= p <= input@.len(),
            k <= n,
            s0 == suffix(input@, pos as int),
            parse_pairs(s0, n as int) == pairs_prepend(
                raw,
                p - pos,
                parse_pairs(suffix(input@, p as int), n - k),
            ),
            pair_frames_of(m@) == map_of(raw),
        decreases n - k,
    {
        let ghost sp = suffix(input@, p as int);
        let rk = decode_value(input, p, true);
        let (key, p1) = match rk {
            Err(e) => {
                return Err(e);
            },
            Ok(kp) => kp,
        };
        let ghost s1 = sp.subrange(p1 - p, sp.len() as int);
        assert(s1 =~= suffix(input@, p1 as int));
        let rv = decode_value(input, p1, true);
        let (value, p2) = match rv {
            Err(e) => {
                return Err(e);
            },
            Ok(vp) => vp,
        };
        proof {
            assert(s1.subrange(p2 - p1, s1.len() as int) =~= suffix(input@, p2 as int));
            lemma_pairs_prepend_step(
                raw,
                (key@, value@),
                p - pos,
                p2 - p,
                parse_pairs(suffix(input@, p2 as int), n - k - 1),
            );
            assert(raw.push((key@, value@)).drop_last() =~= raw);
        }
        let ghost kf = key@;
        let ghost vf = value@;
        map_put(&mut m, key, value);
        proof {
            raw = raw.push((kf, vf));
        }
        p = p2;
        k = k + 1;
    }
    assert(raw + Seq::<(Frame, Frame)>::empty() =~= raw);
    Ok((m, p))
}

/// Reads `n` nested values from `pos` on, inserting them in order into a set.
fn decode_members(input: &[u8], pos: usize, n: usize) -> (res: Result<(Vec<RESPValue>, usize), ParseError>)
    requires
        pos <= input@.len(),
    ensures
        match parse_list(suffix(input@, pos as int), n as int) {
            Ok((fs, c)) => res matches Ok((s, p)) && frames_of(s@) == set_of(fs) && p == pos + c,
            Err(e) => res matches Err(e2) && e2 == e,
        },
        res matches Ok((_, p)) ==> pos <= p <= input@.len(),
    decreases input@.len() - pos, 2int,
{
    let ghost s0 = suffix(input@, pos as int);
    let ghost mut raw: Seq<Frame> = Seq::empty();
    let mut s: Vec<RESPValue> = Vec::new();
    let mut p = pos;
    let mut k: usize = 0;
    proof {
        lemma_list_prepend_empty(parse_list(s0, n as int));
        assert(frames_of(s@) =~= Seq::<Frame>::empty());
    }
    while k < n
        invariant
            pos <= p <= input@.len(),
            k <= n,
            s0 == suffix(input@, pos as int),
            parse_list(s0, n as int) == list_prepend(
                raw,
                p - pos,
                parse_list(suffix(input@, p as int), n - k),
            ),
            frames_of(s@) == set_of(raw),
        decreases n - k,
    {
        let ghost sp = suffix(input@, p as int);
        let r = decode_value(input, p, true);
        match r {
            Err(e) => {
                return Err(e);
            },
            Ok((v, p2)) => {
                proof {
                    assert(sp.subrange(p2 - p, sp.len() as int) =~= suffix(input@, p2 as int));
                    lemma_list_prepend_step(
                        raw,
                        v@,
                        p - pos,
                        p2 - p,
                        parse_list(suffix(input@, p2 as int), n - k - 1),
                    );
                    assert(raw.push(v@).drop_last() =~= raw);
                }
                let ghost vf = v@;
                set_put(&mut s, v);
                proof {
                    raw = raw.push(vf);
                }
                p = p2;
                k = k + 1;
            },
        }
    }
    assert(raw + Seq::<Frame>::empty() =~= raw);
    Ok((s, p))
}

} // verus!

verus! {

fn is_type_byte_exec(t: u8) -> (r: bool)
    ensures
        r == is_type_byte(t),
{
    t == SIMPLE_STRING || t == SIMPLE_ERROR || t == INTEGER || t == NULL || t == BOOLEAN || t
        == DOUBLE || t == BIG_NUM || t == BULK_STRING || t == ARRAY || t == BULK_ERROR || t
        == VERBATIM_STRING || t == MAP || t == ATTRIBUTE || t == SET || t == PUSH
}

/// Whether `input[start..end]` is the single byte `b`.
fn is_single(input: &[u8], start: usize, end: usize, b: u8) -> (r: bool)
    requires
        start <= end <= input@.len(),
    ensures
        r == (input@.subrange(start as int, end as int) == seq![b]),
{
    if end - start == 1 && input[start] == b {
        assert(input@.subrange(start as int, end as int) =~= seq![b]);
        true
    } else {
        proof {
            if input@.subrange(start as int, end as int) == seq![b] {
                assert(input@.subrange(start as int, end as int).len() == 1);
                assert(input@.subrange(start as int, end as int)[0] == b);
                assert(input@[start as int] == b);
            }
        }
        false
    }
}

/// The end of the `n` payload bytes that start at `start`, which a line end must follow.
fn body_end(input: &[u8], pos: usize, start: usize, n: usize) -> (res: Result<usize, ParseError>)
    requires
        pos <= start <= input@.len(),
    ensures
        match body_at(suffix(input@, pos as int), start - pos, n as int) {
            Ok(b) => res matches Ok(end) && end == start + n && start + n + 2 <= input@.len() && b
                == input@.subrange(start as int, start + n),
            Err(e) => res matches Err(e2) && e2 == e,
        },
{
    let ghost s = suffix(input@, pos as int);
    let len = input.len();
    let remaining = len - start;
    if n > remaining {
        return Err(ParseError::Incomplete);
    }
    let end = start + n;
    assert(s.len() == len - pos);
    if len - end < 2 {
        if end < len && input[end] != CR {
            assert(s[end - pos] == input@[end as int]);
            return Err(ParseError::Invalid);
        }
        return Err(ParseError::Incomplete);
    }
    assert(s[end - pos] == input@[end as int]);
    assert(s[end - pos + 1] == input@[end + 1]);
    if !(input[end] == CR && input[end + 1] == LF) {
        return Err(ParseError::Invalid);
    }
    assert(s.subrange(start - pos, end - pos) =~= input@.subrange(start as int, end as int));
    Ok(end)
}

/// What a value's header shows: its type byte at `pos`, and the first line end at `e`.
pub open spec fn header_at(input: Seq<u8>, pos: int, nested: bool, e: int) -> bool {
    &&& 0 <= pos < pos + 1 <= e
    &&& e + 2 <= input.len()
    &&& is_type_byte(input[pos])
    &&& !(input[pos] == PUSH && nested)
    &&& first_crlf(suffix(input, pos)) == Some(e - pos)
}

/// Reads the value that starts at `pos` of `input`; `nested` tells whether
/// it stands inside another value.
pub fn decode_value(input: &[u8], pos: usize, nested: bool) -> (res: Result<(RESPValue, usize), ParseError>)
    requires
        pos <= input@.len(),
    ensures
        decoded_as(input@, pos as int, nested, res),
        res matches Ok((_, p)) ==> pos < p <= input@.len(),
    decreases input@.len() - pos, 1int,
{
    let ghost s = suffix(input@, pos as int);
    if pos >= input.len() {
        return Err(ParseError::Incomplete);
    }
    let t = input[pos];
    assert(s[0] == t);
    if !is_type_byte_exec(t) {
        return Err(ParseError::Invalid);
    }
    if t == PUSH && nested {
        return Err(ParseError::Invalid);
    }
    let e = match find_crlf(input, pos) {
        None => {
            return Err(ParseError::Incomplete);
        },
        Some(e) => e,
    };
    let ghost er = e - pos;
    assert(first_crlf(s) == Some(er));
    assert(s[er] == CR) by {
        assert(s[er] == input@[e as int]);
        super::lexical::lemma_crlf_from(s, 0);
    }
    assert(er >= 1);
    if t == SIMPLE_STRING || t == SIMPLE_ERROR || t == INTEGER || t == NULL || t == BOOLEAN || t
        == DOUBLE || t == BIG_NUM {
        decode_line(input, pos, nested, e)
    } else if t == BULK_STRING || t == BULK_ERROR || t == VERBATIM_STRING {
        decode_sized(input, pos, nested, e)
    } else {
        decode_aggregate(input, pos, nested, e)
    }
}

/// Reads a value that the header line holds whole.
fn decode_line(input: &[u8], pos: usize, nested: bool, e: usize) -> (res: Result<
    (RESPValue, usize),
    ParseError,
>)
    requires
        header_at(input@, pos as int, nested, e as int),
        ({
            let t = input@[pos as int];
            t == SIMPLE_STRING || t == SIMPLE_ERROR || t == INTEGER || t == NULL || t == BOOLEAN
                || t == DOUBLE || t == BIG_NUM
        }),
    ensures
        decoded_as(input@, pos as int, nested, res),
        res matches Ok((_, p)) ==> pos < p <= input@.len(),
{
    let ghost s = suffix(input@, pos as int);
    let ghost er = e - pos;
    let t = input[pos];
    assert(s[0] == t);
    let cs = pos + 1;
    let ce = e;
    let h = e + 2;
    let ghost c = s.subrange(1, er);
    assert(c =~= input@.subrange(cs as int, ce as int));
    if t == SIMPLE_STRING {
        match text_of(&input[cs..ce]) {
            Some(x) => Ok((RESPValue::SimpleString(x), h)),
            None => Err(ParseError::Invalid),
        }
    } else if t == SIMPLE_ERROR {
        match text_of(&input[cs..ce]) {
            Some(x) => Ok((RESPValue::SimpleError(x), h)),
            None => Err(ParseError::Invalid),
        }
    } else if t == INTEGER {
        match parse_i64_text(input, cs, ce) {
            Some(v) => Ok((RESPValue::Integer(v), h)),
            None => Err(ParseError::Invalid),
        }
    } else if t == NULL {
        if cs == ce {
            Ok((RESPValue::Null, h))
        } else {
            Err(ParseError::Invalid)
        }
    } else if t == BOOLEAN {
        if is_single(input, cs, ce, 116u8) {
            Ok((RESPValue::Boolean(true), h))
        } else if is_single(input, cs, ce, 102u8) {
            Ok((RESPValue::Boolean(false), h))
        } else {
            Err(ParseError::Invalid)
        }
    } else if t == DOUBLE {
        if float_text_in(input, cs, ce) {
            match text_of(&input[cs..ce]) {
                Some(x) => Ok((RESPValue::Double(x), h)),
                None => Err(ParseError::Invalid),
            }
        } else {
            Err(ParseError::Invalid)
        }
    } else {
        match parse_bignum(&input[cs..ce]) {
            Some(d) => Ok((RESPValue::BigNum(d), h)),
            None => Err(ParseError::Invalid),
        }
    }
}

/// Reads a value whose payload length the header line gives.
#[verifier::rlimit(40)]
fn decode_sized(input: &[u8], pos: usize, nested: bool, e: usize) -> (res: Result<
    (RESPValue, usize),
    ParseError,
>)
    requires
        header_at(input@, pos as int, nested, e as int),
        ({
            let t = input@[pos as int];
            t == BULK_STRING || t == BULK_ERROR || t == VERBATIM_STRING
        }),
    ensures
        decoded_as(input@, pos as int, nested, res),
        res matches Ok((_, p)) ==> pos < p <= input@.len(),
{
    let ghost s = suffix(input@, pos as int);
    let ghost er = e - pos;
    let t = input[pos];
    assert(s[0] == t);
    let cs = pos + 1;
    let ce = e;
    let h = e + 2;
    let ghost c = s.subrange(1, er);
    assert(c =~= input@.subrange(cs as int, ce as int));
    if t == BULK_STRING {
        match parse_isize_text(input, cs, ce) {
            None => Err(ParseError::Invalid),
            Some(n) => {
                if n < -1 {
                    Err(ParseError::Invalid)
                } else if n == -1 {
                    Ok((RESPValue::NullBulkString, h))
                } else {
                    match body_end(input, pos, h, n as usize) {
                        Err(err) => Err(err),
                        Ok(end) => match text_of(&input[h..end]) {
                            Some(x) => Ok((RESPValue::BulkString(x), end + 2)),
                            None => Err(ParseError::Invalid),
                        },
                    }
                }
            },
        }
    } else if t == BULK_ERROR {
        match parse_usize_text(input, cs, ce) {
            None => Err(ParseError::Invalid),
            Some(n) => match body_end(input, pos, h, n) {
                Err(err) => Err(err),
                Ok(end) => match text_of(&input[h..end]) {
                    Some(x) => Ok((RESPValue::BulkError(x), end + 2)),
                    None => Err(ParseError::Invalid),
                },
            },
        }
    } else {
        match parse_usize_text(input, cs, ce) {
            None => Err(ParseError::Invalid),
            Some(n) => match body_end(input, pos, h, n) {
                Err(err) => Err(err),
                Ok(end) => {
                    let ghost b = input@.subrange(h as int, end as int);
                    match find_byte_in(input, h, end, 58u8) {
                        None => Err(ParseError::Invalid),
                        Some(k) => {
                            assert(b.subrange(0, k - h) =~= input@.subrange(h as int, k as int));
                            assert(b.subrange(k - h + 1, b.len() as int) =~= input@.subrange(
                                k + 1,
                                end as int,
                            ));
                            match text_of(&input[h..k]) {
                                None => Err(ParseError::Invalid),
                                Some(encoding) => match text_of(&input[k + 1..end]) {
                                    None => Err(ParseError::Invalid),
                                    Some(data) => Ok(
                                        (RESPValue::VerbatimString { encoding, data }, end + 2),
                                    ),
                                },
                            }
                        },
                    }
                },
            },
        }
    }
}

/// Reads a value made of other values.
fn decode_aggregate(input: &[u8], pos: usize, nested: bool, e: usize) -> (res: Result<
    (RESPValue, usize),
    ParseError,
>)
    requires
        header_at(input@, pos as int, nested, e as int),
        ({
            let t = input@[pos as int];
            t == ARRAY || t == MAP || t == ATTRIBUTE || t == SET || t == PUSH
        }),
    ensures
        decoded_as(input@, pos as int, nested, res),
        res matches Ok((_, p)) ==> pos < p <= input@.len(),
    decreases input@.len() - pos, 0int,
{
    let ghost s = suffix(input@, pos as int);
    let ghost er = e - pos;
    let t = input[pos];
    assert(s[0] == t);
    let cs = pos + 1;
    let ce = e;
    let h = e + 2;
    let ghost c = s.subrange(1, er);
    let ghost rest = s.subrange(er + 2, s.len() as int);
    assert(c =~= input@.subrange(cs as int, ce as int));
    assert(rest =~= suffix(input@, h as int));
    if t == ARRAY {
        match parse_isize_text(input, cs, ce) {
            None => Err(ParseError::Invalid),
            Some(n) => {
                if n < -1 {
                    Err(ParseError::Invalid)
                } else if n == -1 {
                    Ok((RESPValue::NullArray, h))
                } else {
                    match decode_list(input, h, n as usize) {
                        Err(err) => Err(err),
                        Ok((items, p)) => Ok((RESPValue::Array(MultiBulk(items)), p)),
                    }
                }
            },
        }
    } else if t == MAP {
        match parse_usize_text(input, cs, ce) {
            None => Err(ParseError::Invalid),
            Some(n) => match decode_pairs(input, h, n) {
                Err(err) => Err(err),
                Ok((m, p)) => Ok((RESPValue::MapValue(RESPMap(m)), p)),
            },
        }
    } else if t == ATTRIBUTE {
        match parse_usize_text(input, cs, ce) {
            None => Err(ParseError::Invalid),
            Some(n) => match decode_pairs(input, h, n) {
                Err(err) => Err(err),
                Ok((m, p1)) => {
                    assert(rest.subrange(p1 - h, rest.len() as int) =~= suffix(input@, p1 as int));
                    match decode_value(input, p1, true) {
                        Err(err) => Err(err),
                        Ok((v, p2)) => Ok(
                            (RESPValue::Attribute { metadata: RESPMap(m), value: Box::new(v) }, p2),
                        ),
                    }
                },
            },
        }
    } else if t == SET {
        match parse_usize_text(input, cs, ce) {
            None => Err(ParseError::Invalid),
            Some(n) => match decode_members(input, h, n) {
                Err(err) => Err(err),
                Ok((m, p)) => Ok((RESPValue::SetValue(RESPSet(m)), p)),
            },
        }
    } else {
        match parse_usize_text(input, cs, ce) {
            None => Err(ParseError::Invalid),
            Some(n) => match decode_list(input, h, n) {
                Err(err) => Err(err),
                Ok((items, p)) => Ok((RESPValue::Push(MultiBulk(items)), p)),
            },
        }
    }
}

} // verus!
