//! `LRANGE`.

use vstd::prelude::*;
use vstd::utf8::encode_utf8;
use super::types::{
    ResponseError, bulk_arg, bulk_array, bulk_strings, lazy_reply, lemma_reply_at_is_lazy, reply, reply_at,
};
use crate::resp::decimal::{isize_text_value, parse_isize_text};
use crate::resp::frame::Frame;
use crate::resp::types::{MultiBulk, RESPValue};
use crate::store::store::{Store, range_readable, range_readable_at, read_range};
use crate::store::types::EntryView;

verus! {

/// The index in an argument of `LRANGE`: `MalformedRequestError` when it is
/// not a bulk string or not a numeral.
pub open spec fn index_arg(input: Seq<RESPValue>, i: int) -> Result<isize, ResponseError> {
    match bulk_arg(input, i) {
        None => Err(ResponseError::MalformedRequestError),
        Some(t) => match isize_text_value(encode_utf8(t)) {
            Some(v) => Ok(v),
            None => Err(ResponseError::MalformedRequestError),
        },
    }
}

/// The key, start and stop of `LRANGE key start stop`, or why they cannot
/// be read, checked in that order.
pub open spec fn range_args(input: Seq<RESPValue>) -> Result<(Seq<char>, isize, isize), ResponseError> {
    if input.len() != 4 {
        Err(ResponseError::MalformedRequestError)
    } else {
        match bulk_arg(input, 1) {
            None => Err(ResponseError::MalformedRequestError),
            Some(k) => match index_arg(input, 2) {
                Err(e) => Err(e),
                Ok(start) => match index_arg(input, 3) {
                    Err(e) => Err(e),
                    Ok(stop) => Ok((k, start, stop)),
                },
            },
        }
    }
}

/// The reply to `LRANGE key start stop` on `m`.
pub open spec fn range_reply(m: Map<Seq<char>, EntryView>, k: Seq<char>, start: int, stop: int) -> Result<
    Frame,
    ResponseError,
> {
    match read_range(m, k, start, stop) {
        Ok(items) => Ok(bulk_array(items)),
        Err(_) => Err(ResponseError::InternalError),
    }
}

/// Reads the index in the `i`-th value of `input`.
fn read_index(input: &MultiBulk, i: usize) -> (res: Result<isize, ResponseError>)
    requires
        i < input.0@.len(),
    ensures
        res == index_arg(input.0@, i as int),
{
    match &input.0[i] {
        RESPValue::BulkString(s) => {
            let b = s.as_str().as_bytes();
            assert(b@.subrange(0, b@.len() as int) =~= encode_utf8(s@));
            match parse_isize_text(b, 0, b.len()) {
                Some(v) => Ok(v),
                None => Err(ResponseError::MalformedRequestError),
            }
        },
        _ => Err(ResponseError::MalformedRequestError),
    }
}

/// Answers `LRANGE key start stop` with the clock at `now` (Unix time in
/// milliseconds, or `None` when the clock failed): the elements of the list
/// under the key from `start` to `stop`, both included, as an array of
/// bulk strings. Any failure of the store is `InternalError`.
pub fn lrange_at(input: &MultiBulk, store: &mut Store, now: Option<u64>) -> (res: Result<
    RESPValue,
    ResponseError,
>)
    requires
        old(store).wf(),
        range_args(input.0@) matches Ok((k, start, _)) ==> range_readable_at(
            old(store).entries(),
            k,
            start as int,
            now,
        ),
    ensures
        final(store).wf(),
        final(store).waiting() == old(store).waiting(),
        final(store).ticks() == old(store).ticks(),
        final(store).clock() == old(store).clock(),
        match range_args(input.0@) {
            Err(e) => {
                &&& res == Err::<RESPValue, ResponseError>(e)
                &&& final(store).entries() == old(store).entries()
            },
            Ok((k, start, stop)) => reply_at(
                old(store).entries(),
                final(store).entries(),
                k,
                now,
                reply(res),
                range_reply(old(store).entries(), k, start as int, stop as int),
                bulk_array(Seq::empty()),
            ),
        },
{
    if input.len() != 4 {
        return Err(ResponseError::MalformedRequestError);
    }
    let key = match &input.0[1] {
        RESPValue::BulkString(s) => s,
        _ => return Err(ResponseError::MalformedRequestError),
    };
    let start = match read_index(input, 2) {
        Ok(v) => v,
        Err(e) => return Err(e),
    };
    let stop = match read_index(input, 3) {
        Ok(v) => v,
        Err(e) => return Err(e),
    };
    match store.lrange_at(key.as_str(), start, stop, now) {
        Ok(items) => Ok(bulk_strings(items)),
        Err(_) => Err(ResponseError::InternalError),
    }
}

/// Answers `LRANGE key start stop` by the wall clock.
pub fn lrange(input: &MultiBulk, store: &mut Store) -> (res: Result<RESPValue, ResponseError>)
    requires
        old(store).wf(),
        range_args(input.0@) matches Ok((k, start, _)) ==> range_readable(
            old(store).entries(),
            k,
            start as int,
        ),
    ensures
        final(store).wf(),
        final(store).waiting() == old(store).waiting(),
        final(store).ticks() == old(store).ticks(),
        match range_args(input.0@) {
            Err(e) => {
                &&& res == Err::<RESPValue, ResponseError>(e)
                &&& final(store).entries() == old(store).entries()
            },
            Ok((k, start, stop)) => reply_at(
                old(store).entries(),
                final(store).entries(),
                k,
                final(store).clock(),
                reply(res),
                range_reply(old(store).entries(), k, start as int, stop as int),
                bulk_array(Seq::empty()),
            ),
        },
        match range_args(input.0@) {
            Err(e) => {
                &&& res == Err::<RESPValue, ResponseError>(e)
                &&& final(store).entries() == old(store).entries()
            },
            Ok((k, start, stop)) => {
                &&& lazy_reply(
                    old(store).entries(),
                    final(store).entries(),
                    k,
                    reply(res),
                    range_reply(old(store).entries(), k, start as int, stop as int),
                    bulk_array(Seq::empty()),
                )
                &&& exists|now: Option<u64>|
                    reply_at(
                        old(store).entries(),
                        final(store).entries(),
                        k,
                        now,
                        reply(res),
                        range_reply(old(store).entries(), k, start as int, stop as int),
                        bulk_array(Seq::empty()),
                    )
            },
        },
{
    let ghost before = store.entries();
    let now = store.read_clock();
    let res = lrange_at(input, store, now);
    proof {
        if let Ok((k, start, stop)) = range_args(input.0@) {
            lemma_reply_at_is_lazy(
                before,
                store.entries(),
                k,
                now,
                reply(res),
                range_reply(before, k, start as int, stop as int),
                bulk_array(Seq::empty()),
            );
        }
    }
    res
}

} // verus!
