//! `GET`.

use vstd::prelude::*;
use super::types::{ResponseError, arg_of, bulk, lazy_reply, lemma_reply_at_is_lazy, reply, reply_at};
use crate::resp::frame::Frame;
use crate::resp::types::{MultiBulk, RESPValue};
use crate::store::store::Store;
use crate::store::types::{EntryView, Value, ValueView};

verus! {

/// The reply to `GET key` on `m`: the string under `key`, a null bulk
/// string when the key is absent, `InternalError` when it holds a list.
pub open spec fn get_reply(m: Map<Seq<char>, EntryView>, key: Seq<char>) -> Result<Frame, ResponseError> {
    if !m.contains_key(key) {
        Ok(Frame::NullBulkString)
    } else {
        match m[key].value {
            ValueView::Text(t) => Ok(bulk(t)),
            ValueView::Items(_) => Err(ResponseError::InternalError),
        }
    }
}

/// Answers `GET key` with the clock at `now` (Unix time in milliseconds,
/// or `None` when the clock failed).
pub fn get_at(input: &MultiBulk, store: &mut Store, now: Option<u64>) -> (res: Result<
    RESPValue,
    ResponseError,
>)
    requires
        old(store).wf(),
    ensures
        final(store).wf(),
        final(store).waiting() == old(store).waiting(),
        final(store).ticks() == old(store).ticks(),
        final(store).clock() == old(store).clock(),
        match arg_of(input.0@, 2, 1) {
            None => {
                &&& res == Err::<RESPValue, ResponseError>(ResponseError::MalformedRequestError)
                &&& final(store).entries() == old(store).entries()
            },
            Some(k) => reply_at(
                old(store).entries(),
                final(store).entries(),
                k,
                now,
                reply(res),
                get_reply(old(store).entries(), k),
                Frame::NullBulkString,
            ),
        },
{
    if input.len() != 2 {
        return Err(ResponseError::MalformedRequestError);
    }
    let key = match &input.0[1] {
        RESPValue::BulkString(s) => s,
        _ => return Err(ResponseError::MalformedRequestError),
    };
    match store.get_at(key.as_str(), now) {
        Err(_) => Err(ResponseError::InternalError),
        Ok(None) => Ok(RESPValue::NullBulkString),
        Ok(Some(entry)) => match &entry.value {
            Value::String(s) => Ok(RESPValue::BulkString(s.clone())),
            Value::List(_) => Err(ResponseError::InternalError),
        },
    }
}

/// Answers `GET key` by the wall clock.
pub fn get(input: &MultiBulk, store: &mut Store) -> (res: Result<RESPValue, ResponseError>)
    requires
        old(store).wf(),
    ensures
        final(store).wf(),
        final(store).waiting() == old(store).waiting(),
        final(store).ticks() == old(store).ticks(),
        match arg_of(input.0@, 2, 1) {
            None => {
                &&& res == Err::<RESPValue, ResponseError>(ResponseError::MalformedRequestError)
                &&& final(store).entries() == old(store).entries()
            },
            Some(k) => reply_at(
                old(store).entries(),
                final(store).entries(),
                k,
                final(store).clock(),
                reply(res),
                get_reply(old(store).entries(), k),
                Frame::NullBulkString,
            ),
        },
        match arg_of(input.0@, 2, 1) {
            None => {
                &&& res == Err::<RESPValue, ResponseError>(ResponseError::MalformedRequestError)
                &&& final(store).entries() == old(store).entries()
            },
            Some(k) => {
                &&& lazy_reply(
                    old(store).entries(),
                    final(store).entries(),
                    k,
                    reply(res),
                    get_reply(old(store).entries(), k),
                    Frame::NullBulkString,
                )
                &&& exists|now: Option<u64>|
                    reply_at(
                        old(store).entries(),
                        final(store).entries(),
                        k,
                        now,
                        reply(res),
                        get_reply(old(store).entries(), k),
                        Frame::NullBulkString,
                    )
            },
        },
{
    let ghost before = store.entries();
    let now = store.read_clock();
    let res = get_at(input, store, now);
    proof {
        if let Some(k) = arg_of(input.0@, 2, 1) {
            lemma_reply_at_is_lazy(
                before,
                store.entries(),
                k,
                now,
                reply(res),
                get_reply(before, k),
                Frame::NullBulkString,
            );
        }
    }
    res
}

} // verus!
