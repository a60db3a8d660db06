//! The mathematical model of a RESP value: payloads are byte sequences, as
//! they stand on the wire, and aggregates are sequences of models.

use vstd::prelude::*;
use super::double::same_double;

verus! {

/// A RESP value as the wire format sees it.
pub enum Frame {
    SimpleString(Seq<u8>),
    SimpleError(Seq<u8>),
    Integer(int),
    Null,
    Boolean(bool),
    Double(Seq<u8>),
    BigNum(Seq<u8>),
    BulkString(Seq<u8>),
    NullBulkString,
    Array(Seq<Frame>),
    NullArray,
    BulkError(Seq<u8>),
    VerbatimString(Seq<u8>, Seq<u8>),
    MapValue(Seq<(Frame, Frame)>),
    Attribute(Seq<(Frame, Frame)>, Box<Frame>),
    SetValue(Seq<Frame>),
    Push(Seq<Frame>),
}

} // verus!

verus! {

/// Equality of RESP values: aggregates compare element by element, while
/// maps and sets compare as collections, regardless of entry order.
pub open spec fn frame_eq(a: Frame, b: Frame) -> bool
    decreases a, 0int,
{
    match a {
        Frame::SimpleString(x) => match b {
            Frame::SimpleString(y) => x == y,
            _ => false,
        },
        Frame::SimpleError(x) => match b {
            Frame::SimpleError(y) => x == y,
            _ => false,
        },
        Frame::Integer(x) => match b {
            Frame::Integer(y) => x == y,
            _ => false,
        },
        Frame::Null => b is Null,
        Frame::Boolean(x) => match b {
            Frame::Boolean(y) => x == y,
            _ => false,
        },
        Frame::Double(x) => match b {
            Frame::Double(y) => same_double(x, y),
            _ => false,
        },
        Frame::BigNum(x) => match b {
            Frame::BigNum(y) => x == y,
            _ => false,
        },
        Frame::BulkString(x) => match b {
            Frame::BulkString(y) => x == y,
            _ => false,
        },
        Frame::NullBulkString => b is NullBulkString,
        Frame::Array(xs) => match b {
            Frame::Array(ys) => frames_eq(xs, ys),
            _ => false,
        },
        Frame::NullArray => b is NullArray,
        Frame::BulkError(x) => match b {
            Frame::BulkError(y) => x == y,
            _ => false,
        },
        Frame::VerbatimString(e1, d1) => match b {
            Frame::VerbatimString(e2, d2) => e1 == e2 && d1 == d2,
            _ => false,
        },
        Frame::MapValue(m1) => match b {
            Frame::MapValue(m2) => m1.len() == m2.len() && entries_within(m1, m2),
            _ => false,
        },
        Frame::Attribute(m1, v1) => match b {
            Frame::Attribute(m2, v2) => m1.len() == m2.len() && entries_within(m1, m2)
                && frame_eq(*v1, *v2),
            _ => false,
        },
        Frame::SetValue(s1) => match b {
            Frame::SetValue(s2) => s1.len() == s2.len() && members_within(s1, s2),
            _ => false,
        },
        Frame::Push(xs) => match b {
            Frame::Push(ys) => frames_eq(xs, ys),
            _ => false,
        },
    }
}

/// Element-wise equality of two sequences.
pub open spec fn frames_eq(xs: Seq<Frame>, ys: Seq<Frame>) -> bool
    decreases xs, 0int,
{
    if xs.len() != ys.len() {
        false
    } else if xs.len() == 0 {
        true
    } else {
        frame_eq(xs[0], ys[0]) && frames_eq(
            xs.subrange(1, xs.len() as int),
            ys.subrange(1, ys.len() as int),
        )
    }
}

/// The index of the first entry at or after `i` whose key equals `k`.
pub open spec fn key_index_from(m: Seq<(Frame, Frame)>, k: Frame, i: int) -> Option<int>
    decreases k, m.len() - i + 1,
{
    if i < 0 || i >= m.len() {
        None
    } else if frame_eq(k, m[i].0) {
        Some(i)
    } else {
        key_index_from(m, k, i + 1)
    }
}

/// The index of the entry whose key equals `k`.
pub open spec fn key_index(m: Seq<(Frame, Frame)>, k: Frame) -> Option<int> {
    key_index_from(m, k, 0)
}

/// Every entry of `m1` has an equal key in `m2`, bound to an equal value.
pub open spec fn entries_within(m1: Seq<(Frame, Frame)>, m2: Seq<(Frame, Frame)>) -> bool
    decreases m1, 0int,
{
    if m1.len() == 0 {
        true
    } else {
        (match key_index_from(m2, m1[0].0, 0) {
            Some(j) => frame_eq(m1[0].1, m2[j].1),
            None => false,
        }) && entries_within(m1.subrange(1, m1.len() as int), m2)
    }
}

/// The index of the first member at or after `i` that equals `x`.
pub open spec fn member_index_from(s: Seq<Frame>, x: Frame, i: int) -> Option<int>
    decreases x, s.len() - i + 1,
{
    if i < 0 || i >= s.len() {
        None
    } else if frame_eq(x, s[i]) {
        Some(i)
    } else {
        member_index_from(s, x, i + 1)
    }
}

/// The index of the member that equals `x`.
pub open spec fn member_index(s: Seq<Frame>, x: Frame) -> Option<int> {
    member_index_from(s, x, 0)
}

/// Every member of `s1` has an equal member in `s2`.
pub open spec fn members_within(s1: Seq<Frame>, s2: Seq<Frame>) -> bool
    decreases s1, 0int,
{
    if s1.len() == 0 {
        true
    } else {
        member_index_from(s2, s1[0], 0) is Some && members_within(
            s1.subrange(1, s1.len() as int),
            s2,
        )
    }
}

/// Inserting an entry into a map: an equal key keeps its place and takes
/// the new value; a new key goes last.
pub open spec fn map_insert(m: Seq<(Frame, Frame)>, k: Frame, v: Frame) -> Seq<(Frame, Frame)> {
    match key_index(m, k) {
        Some(i) => m.update(i, (m[i].0, v)),
        None => m.push((k, v)),
    }
}

/// The map that inserting `ps` in order into an empty map gives.
pub open spec fn map_of(ps: Seq<(Frame, Frame)>) -> Seq<(Frame, Frame)>
    decreases ps.len(),
{
    if ps.len() == 0 {
        Seq::empty()
    } else {
        map_insert(map_of(ps.drop_last()), ps.last().0, ps.last().1)
    }
}

/// Inserting into a set: a member equal to `x` keeps its place; otherwise `x` goes last.
pub open spec fn set_insert(s: Seq<Frame>, x: Frame) -> Seq<Frame> {
    match member_index(s, x) {
        Some(_) => s,
        None => s.push(x),
    }
}

/// The set that inserting `xs` in order into an empty set gives.
pub open spec fn set_of(xs: Seq<Frame>) -> Seq<Frame>
    decreases xs.len(),
{
    if xs.len() == 0 {
        Seq::empty()
    } else {
        set_insert(set_of(xs.drop_last()), xs.last())
    }
}

/// No key of `m` equals a key before it.
pub open spec fn keys_distinct(m: Seq<(Frame, Frame)>) -> bool {
    forall|i: int, j: int| 0 <= i < j < m.len() ==> !frame_eq(#[trigger] m[j].0, #[trigger] m[i].0)
}

/// No member of `s` equals a member before it.
pub open spec fn members_distinct(s: Seq<Frame>) -> bool {
    forall|i: int, j: int| 0 <= i < j < s.len() ==> !frame_eq(#[trigger] s[j], #[trigger] s[i])
}

} // verus!

verus! {

pub proof fn lemma_key_index_from(m: Seq<(Frame, Frame)>, k: Frame, i: int)
    ensures
        key_index_from(m, k, i) matches Some(j) ==> 0 <= i <= j < m.len() && frame_eq(k, m[j].0)
            && forall|l: int| i <= l < j ==> !frame_eq(k, #[trigger] m[l].0),
        key_index_from(m, k, i) is None ==> forall|l: int|
            0 <= i <= l < m.len() ==> !frame_eq(k, #[trigger] m[l].0),
    decreases m.len() - i,
{
    if 0 <= i < m.len() && !frame_eq(k, m[i].0) {
        lemma_key_index_from(m, k, i + 1);
    }
}

pub proof fn lemma_member_index_from(s: Seq<Frame>, x: Frame, i: int)
    ensures
        member_index_from(s, x, i) matches Some(j) ==> 0 <= i <= j < s.len() && frame_eq(x, s[j])
            && forall|l: int| i <= l < j ==> !frame_eq(x, #[trigger] s[l]),
        member_index_from(s, x, i) is None ==> forall|l: int|
            0 <= i <= l < s.len() ==> !frame_eq(x, #[trigger] s[l]),
    decreases s.len() - i,
{
    if 0 <= i < s.len() && !frame_eq(x, s[i]) {
        lemma_member_index_from(s, x, i + 1);
    }
}

} // verus!
