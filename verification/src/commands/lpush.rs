//! `LPUSH`.

use vstd::prelude::*;
use std::collections::VecDeque;
use super::types::{ResponseError, bulk_arg, reply};
use crate::resp::frame::Frame;
use crate::resp::types::{MultiBulk, RESPValue};
use crate::store::store::{Store, expiry_of, read_list, woke_first};
use crate::store::types::{EntryView, ValueView, texts};

verus! {

/// The texts of the values of a request from position `from` on, when all
/// of them are bulk strings.
pub open spec fn bulk_args_from(input: Seq<RESPValue>, from: int) -> Option<Seq<Seq<char>>> {
    if forall|i: int| from <= i < input.len() ==> #[trigger] bulk_arg(input, i) is Some {
        Some(
            Seq::new(
                (input.len() - from) as nat,
                |j: int|
                    match bulk_arg(input, from + j) {
                        Some(t) => t,
                        None => Seq::empty(),
                    },
            ),
        )
    } else {
        None
    }
}

/// The key and elements of `LPUSH key element [element ...]`.
pub open spec fn push_args(input: Seq<RESPValue>) -> Option<(Seq<char>, Seq<Seq<char>>)> {
    if input.len() < 3 {
        None
    } else {
        match (bulk_arg(input, 1), bulk_args_from(input, 2)) {
            (Some(k), Some(els)) => Some((k, els)),
            _ => None,
        }
    }
}

/// The strings of the values of `input` from position `from` on, when all
/// of them are bulk strings.
pub fn bulk_texts_from(input: &MultiBulk, from: usize) -> (res: Option<VecDeque<String>>)
    requires
        from <= input.0@.len(),
    ensures
        match res {
            Some(els) => bulk_args_from(input.0@, from as int) == Some(texts(els@)),
            None => bulk_args_from(input.0@, from as int) is None,
        },
{
    let mut elements: VecDeque<String> = VecDeque::new();
    let mut i: usize = from;
    while i < input.len()
        invariant
            from <= i <= input.0@.len(),
            texts(elements@) =~= Seq::new(
                (i - from) as nat,
                |j: int|
                    match bulk_arg(input.0@, from + j) {
                        Some(t) => t,
                        None => Seq::empty(),
                    },
            ),
            forall|j: int| from <= j < i ==> #[trigger] bulk_arg(input.0@, j) is Some,
        decreases input.0@.len() - i,
    {
        let val = match &input.0[i] {
            RESPValue::BulkString(s) => s.clone(),
            _ => {
                assert(bulk_arg(input.0@, i as int) is None);
                return None;
            },
        };
        let ghost prev = elements@;
        elements.push_back(val);
        proof {
            assert(texts(elements@) =~= texts(prev).push(val@));
        }
        i = i + 1;
    }
    Some(elements)
}

/// Answers `LPUSH key element [element ...]`: pushes the elements onto the
/// front of the list under the key, one by one, and replies with the new
/// length; `InternalError` when the key holds a string.
pub fn lpush(input: &MultiBulk, store: &mut Store) -> (res: Result<RESPValue, ResponseError>)
    requires
        old(store).wf(),
        push_args(input.0@) matches Some((k, els)) ==> (read_list(old(store).entries(), k) matches Ok(
            l,
        ) ==> l.len() + els.len() <= usize::MAX),
    ensures
        final(store).wf(),
        final(store).ticks() == old(store).ticks(),
        match push_args(input.0@) {
            None => {
                &&& res == Err::<RESPValue, ResponseError>(ResponseError::MalformedRequestError)
                &&& final(store).entries() == old(store).entries()
                &&& final(store).waiting() == old(store).waiting()
            },
            Some((k, els)) => match read_list(old(store).entries(), k) {
                Err(_) => {
                    &&& res == Err::<RESPValue, ResponseError>(ResponseError::InternalError)
                    &&& final(store).entries() == old(store).entries()
                    &&& final(store).waiting() == old(store).waiting()
                },
                Ok(l) => {
                    &&& reply(res) == Ok::<Frame, ResponseError>(
                        Frame::Integer(((l.len() + els.len()) as i64) as int),
                    )
                    &&& final(store).entries() == old(store).entries().insert(
                        k,
                        EntryView {
                            value: ValueView::Items(els.reverse() + l),
                            expiry: expiry_of(old(store).entries(), k),
                        },
                    )
                    &&& woke_first(old(store).waiting(), final(store).waiting(), k)
                },
            },
        },
{
    if input.len() < 3 {
        return Err(ResponseError::MalformedRequestError);
    }
    let key = match &input.0[1] {
        RESPValue::BulkString(s) => s.clone(),
        _ => return Err(ResponseError::MalformedRequestError),
    };
    let elements = match bulk_texts_from(input, 2) {
        Some(els) => els,
        None => return Err(ResponseError::MalformedRequestError),
    };
    proof {
        assert(push_args(input.0@) == Some((key@, texts(elements@))));
    }
    match store.lpush(key, elements) {
        Ok(n) => Ok(RESPValue::Integer(#[verifier::truncate] (n as i64))),
        Err(_) => Err(ResponseError::InternalError),
    }
}

} // verus!
