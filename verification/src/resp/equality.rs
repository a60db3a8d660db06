//! Equality of RESP values, as the `==` of the value types computes it.

use vstd::prelude::*;
use super::double::doubles_equal;
use super::frame::{
    lemma_key_index_from,
    Frame, frame_eq, frames_eq, entries_within, key_index_from, member_index_from,
    members_within,
};
use super::types::{RESPValue, bytes_of, frames_of, pair_frames_of};
use vstd::utf8::encode_utf8_decode_utf8;

verus! {

/// Compares two strings by their bytes.
fn same_text(x: &String, y: &String) -> (r: bool)
    ensures
        r == (bytes_of(*x) == bytes_of(*y)),
{
    proof {
        encode_utf8_decode_utf8(x@);
        encode_utf8_decode_utf8(y@);
    }
    *x == *y
}

/// Compares two values (see [`frame_eq`]).
pub fn values_equal(a: &RESPValue, b: &RESPValue) -> (r: bool)
    ensures
        r == frame_eq(a@, b@),
    decreases a, 0int,
{
    match a {
        RESPValue::SimpleString(x) => match b {
            RESPValue::SimpleString(y) => {
                assert(a@ == Frame::SimpleString(bytes_of(*x)));
                same_text(x, y)
            },
            _ => false,
        },
        RESPValue::SimpleError(x) => match b {
            RESPValue::SimpleError(y) => same_text(x, y),
            _ => false,
        },
        RESPValue::Integer(x) => match b {
            RESPValue::Integer(y) => *x == *y,
            _ => false,
        },
        RESPValue::Null => match b {
            RESPValue::Null => true,
            _ => false,
        },
        RESPValue::Boolean(x) => match b {
            RESPValue::Boolean(y) => *x == *y,
            _ => false,
        },
        RESPValue::Double(x) => match b {
            RESPValue::Double(y) => doubles_equal(x.as_str().as_bytes(), y.as_str().as_bytes()),
            _ => false,
        },
        RESPValue::BigNum(x) => match b {
            RESPValue::BigNum(y) => same_text(x, y),
            _ => false,
        },
        RESPValue::BulkString(x) => match b {
            RESPValue::BulkString(y) => same_text(x, y),
            _ => false,
        },
        RESPValue::NullBulkString => match b {
            RESPValue::NullBulkString => true,
            _ => false,
        },
        RESPValue::Array(x) => match b {
            RESPValue::Array(y) => lists_equal(&x.0, &y.0),
            _ => false,
        },
        RESPValue::NullArray => match b {
            RESPValue::NullArray => true,
            _ => false,
        },
        RESPValue::BulkError(x) => match b {
            RESPValue::BulkError(y) => same_text(x, y),
            _ => false,
        },
        RESPValue::VerbatimString { encoding: e1, data: d1 } => match b {
            RESPValue::VerbatimString { encoding: e2, data: d2 } => same_text(e1, e2) && same_text(
                d1,
                d2,
            ),
            _ => false,
        },
        RESPValue::MapValue(m1) => match b {
            RESPValue::MapValue(m2) => {
                assert(pair_frames_of(m1.0@).len() == m1.0@.len());
                assert(pair_frames_of(m2.0@).len() == m2.0@.len());
                m1.0.len() == m2.0.len() && entries_included(&m1.0, &m2.0)
            },
            _ => false,
        },
        RESPValue::Attribute { metadata: m1, value: v1 } => match b {
            RESPValue::Attribute { metadata: m2, value: v2 } => {
                assert(pair_frames_of(m1.0@).len() == m1.0@.len());
                assert(pair_frames_of(m2.0@).len() == m2.0@.len());
                m1.0.len() == m2.0.len() && entries_included(&m1.0, &m2.0) && values_equal(v1, v2)
            },
            _ => false,
        },
        RESPValue::SetValue(s1) => match b {
            RESPValue::SetValue(s2) => {
                assert(frames_of(s1.0@).len() == s1.0@.len());
                assert(frames_of(s2.0@).len() == s2.0@.len());
                s1.0.len() == s2.0.len() && members_included(&s1.0, &s2.0)
            },
            _ => false,
        },
        RESPValue::Push(x) => match b {
            RESPValue::Push(y) => lists_equal(&x.0, &y.0),
            _ => false,
        },
    }
}

fn lists_equal(xs: &Vec<RESPValue>, ys: &Vec<RESPValue>) -> (r: bool)
    ensures
        r == frames_eq(frames_of(xs@), frames_of(ys@)),
    decreases xs, 0int,
{
    let ghost fx = frames_of(xs@);
    let ghost fy = frames_of(ys@);
    if xs.len() != ys.len() {
        return false;
    }
    let mut i: usize = 0;
    assert(fx.subrange(0, fx.len() as int) =~= fx);
    assert(fy.subrange(0, fy.len() as int) =~= fy);
    while i < xs.len()
        invariant
            xs.len() == ys.len(),
            fx == frames_of(xs@),
            fy == frames_of(ys@),
            0 <= i <= xs.len(),
            frames_eq(fx, fy) == frames_eq(
                fx.subrange(i as int, fx.len() as int),
                fy.subrange(i as int, fy.len() as int),
            ),
        decreases xs.len() - i,
    {
        let ghost sx = fx.subrange(i as int, fx.len() as int);
        let ghost sy = fy.subrange(i as int, fy.len() as int);
        assert(sx.subrange(1, sx.len() as int) =~= fx.subrange(i + 1, fx.len() as int));
        assert(sy.subrange(1, sy.len() as int) =~= fy.subrange(i + 1, fy.len() as int));
        if !values_equal(&xs[i], &ys[i]) {
            return false;
        }
        i = i + 1;
    }
    assert(fx.subrange(i as int, fx.len() as int).len() == 0);
    true
}

/// The index of the first entry of `m` whose key equals `k`.
pub fn find_key(m: &Vec<(RESPValue, RESPValue)>, k: &RESPValue) -> (r: Option<usize>)
    ensures
        match key_index_from(pair_frames_of(m@), k@, 0) {
            Some(j) => r == Some(j as usize),
            None => r is None,
        },
    decreases k, 1int,
{
    let ghost f = pair_frames_of(m@);
    let mut i: usize = 0;
    while i < m.len()
        invariant
            f == pair_frames_of(m@),
            0 <= i <= m.len(),
            key_index_from(f, k@, 0) == key_index_from(f, k@, i as int),
        decreases m.len() - i,
    {
        if values_equal(k, &m[i].0) {
            return Some(i);
        }
        i = i + 1;
    }
    None
}

/// The index of the first member of `s` that equals `x`.
pub fn find_member(s: &Vec<RESPValue>, x: &RESPValue) -> (r: Option<usize>)
    ensures
        match member_index_from(frames_of(s@), x@, 0) {
            Some(j) => r == Some(j as usize),
            None => r is None,
        },
    decreases x, 1int,
{
    let ghost f = frames_of(s@);
    let mut i: usize = 0;
    while i < s.len()
        invariant
            f == frames_of(s@),
            0 <= i <= s.len(),
            member_index_from(f, x@, 0) == member_index_from(f, x@, i as int),
        decreases s.len() - i,
    {
        if values_equal(x, &s[i]) {
            return Some(i);
        }
        i = i + 1;
    }
    None
}

fn entries_included(m1: &Vec<(RESPValue, RESPValue)>, m2: &Vec<(RESPValue, RESPValue)>) -> (r:
    bool)
    ensures
        r == entries_within(pair_frames_of(m1@), pair_frames_of(m2@)),
    decreases m1, 0int,
{
    let ghost f1 = pair_frames_of(m1@);
    let ghost f2 = pair_frames_of(m2@);
    let mut i: usize = 0;
    assert(f1.subrange(0, f1.len() as int) =~= f1);
    while i < m1.len()
        invariant
            f1 == pair_frames_of(m1@),
            f2 == pair_frames_of(m2@),
            0 <= i <= m1.len(),
            entries_within(f1, f2) == entries_within(f1.subrange(i as int, f1.len() as int), f2),
        decreases m1.len() - i,
    {
        let ghost s1 = f1.subrange(i as int, f1.len() as int);
        assert(s1.subrange(1, s1.len() as int) =~= f1.subrange(i + 1, f1.len() as int));
        proof {
            lemma_key_index_from(f2, f1[i as int].0, 0);
        }
        assert(f1[i as int].0 == m1@[i as int].0@);
        let found = find_key(m2, &m1[i].0);
        match found {
            None => {
                assert(s1[0] == f1[i as int]);
                return false;
            },
            Some(j) => {
                let m2_len = m2.len();
                assert(f2.len() == m2_len);
                assert(s1[0] == f1[i as int]);
                assert(f1[i as int].0 == m1@[i as int].0@);
                assert(m1@[i as int].1@ == f1[i as int].1);
                assert(m2@[j as int].1@ == f2[j as int].1);
                assert(key_index_from(f2, s1[0].0, 0) == Some(j as int));
                if !values_equal(&m1[i].1, &m2[j].1) {
                    assert(!frame_eq(s1[0].1, f2[j as int].1));
                    assert(!entries_within(s1, f2));
                    return false;
                }
            },
        }
        i = i + 1;
    }
    assert(f1.subrange(i as int, f1.len() as int).len() == 0);
    true
}

fn members_included(s1: &Vec<RESPValue>, s2: &Vec<RESPValue>) -> (r: bool)
    ensures
        r == members_within(frames_of(s1@), frames_of(s2@)),
    decreases s1, 0int,
{
    let ghost f1 = frames_of(s1@);
    let ghost f2 = frames_of(s2@);
    let mut i: usize = 0;
    assert(f1.subrange(0, f1.len() as int) =~= f1);
    while i < s1.len()
        invariant
            f1 == frames_of(s1@),
            f2 == frames_of(s2@),
            0 <= i <= s1.len(),
            members_within(f1, f2) == members_within(f1.subrange(i as int, f1.len() as int), f2),
        decreases s1.len() - i,
    {
        let ghost t1 = f1.subrange(i as int, f1.len() as int);
        assert(t1.subrange(1, t1.len() as int) =~= f1.subrange(i + 1, f1.len() as int));
        if find_member(s2, &s1[i]).is_none() {
            return false;
        }
        i = i + 1;
    }
    assert(f1.subrange(i as int, f1.len() as int).len() == 0);
    true
}

} // verus!
