//! `LPOP`.

use vstd::prelude::*;
use vstd::utf8::encode_utf8;
use super::types::{ResponseError, bulk, bulk_arg, bulk_array, bulk_strings, reply};
use crate::resp::decimal::{parse_usize_text, usize_text_value};
use crate::resp::frame::Frame;
use crate::resp::types::{MultiBulk, RESPValue};
use crate::store::store::{Store, expired_away, expiry_outcome, pop_front_of};
use crate::store::types::EntryView;


verus! {

/// The key and count of `LPOP key [count]`; the count is 1 when absent.
pub open spec fn pop_args(input: Seq<RESPValue>) -> Option<(Seq<char>, int)> {
    if input.len() < 2 || input.len() > 3 {
        None
    } else {
        match bulk_arg(input, 1) {
            None => None,
            Some(k) => if input.len() == 2 {
                Some((k, 1))
            } else {
                match bulk_arg(input, 2) {
                    Some(c) => match usize_text_value(encode_utf8(c)) {
                        Some(n) => Some((k, n as int)),
                        None => None,
                    },
                    None => None,
                }
            },
        }
    }
}

/// The reply that carries popped elements: a null bulk string for none,
/// a bulk string for one, an array of bulk strings for more.
pub open spec fn pop_reply(popped: Seq<Seq<char>>) -> Frame {
    if popped.len() == 0 {
        Frame::NullBulkString
    } else if popped.len() == 1 {
        bulk(popped[0])
    } else {
        bulk_array(popped)
    }
}

/// The reply to `LPOP` of `n` elements under `k` with the clock at `now`,
/// and the entries it leaves, from the entries `e0`: an entry expired at
/// `now` goes and the reply is a null bulk string; a failing clock on a
/// present key or a key holding a string is `InternalError`.
pub open spec fn pop_outcome(
    e0: Map<Seq<char>, EntryView>,
    e1: Map<Seq<char>, EntryView>,
    k: Seq<char>,
    n: int,
    now: Option<u64>,
    res: Result<Frame, ResponseError>,
) -> bool {
    match expiry_outcome(e0, k, now) {
        (Err(_), _) => res == Err::<Frame, ResponseError>(ResponseError::InternalError) && e1 == e0,
        (Ok(true), m) => res == Ok::<Frame, ResponseError>(Frame::NullBulkString) && e1 == m,
        (Ok(false), _) => match pop_front_of(e0, k, n) {
            Err(_) => res == Err::<Frame, ResponseError>(ResponseError::InternalError) && e1 == e0,
            Ok((popped, after)) => res == Ok::<Frame, ResponseError>(pop_reply(popped)) && e1 == after,
        },
    }
}

/// Answers `LPOP key [count]` with the clock at `now` (Unix time in
/// milliseconds, or `None` when the clock failed): takes up to `count`
/// elements off the front of the list under the key.
pub fn lpop_at(input: &MultiBulk, store: &mut Store, now: Option<u64>) -> (res: Result<
    RESPValue,
    ResponseError,
>)
    requires
        old(store).wf(),
    ensures
        final(store).wf(),
        final(store).waiting() == old(store).waiting(),
        final(store).ticks() == old(store).ticks(),
        final(store).clock() == old(store).clock(),
        match pop_args(input.0@) {
            None => {
                &&& res == Err::<RESPValue, ResponseError>(ResponseError::MalformedRequestError)
                &&& final(store).entries() == old(store).entries()
            },
            Some((k, n)) => pop_outcome(old(store).entries(), final(store).entries(), k, n, now, reply(res)),
        },
{
    if input.len() < 2 || input.len() > 3 {
        return Err(ResponseError::MalformedRequestError);
    }
    let key = match &input.0[1] {
        RESPValue::BulkString(s) => s,
        _ => return Err(ResponseError::MalformedRequestError),
    };
    let mut num_elements: usize = 1;
    if input.len() == 3 {
        num_elements = match &input.0[2] {
            RESPValue::BulkString(rs) => {
                let b = rs.as_str().as_bytes();
                assert(b@.subrange(0, b@.len() as int) =~= encode_utf8(rs@));
                match parse_usize_text(b, 0, b.len()) {
                    Some(n) => n,
                    None => return Err(ResponseError::MalformedRequestError),
                }
            },
            _ => return Err(ResponseError::MalformedRequestError),
        };
    }
    assert(pop_args(input.0@) == Some((key@, num_elements as int)));
    let elems = match store.lpop_at(key.as_str(), num_elements, now) {
        Ok(v) => v,
        Err(_) => return Err(ResponseError::InternalError),
    };
    if elems.len() == 0 {
        Ok(RESPValue::NullBulkString)
    } else if elems.len() == 1 {
        Ok(RESPValue::BulkString(elems[0].clone()))
    } else {
        Ok(bulk_strings(elems))
    }
}


/// Answers `LPOP key [count]` by the wall clock: takes up to `count`
/// elements off the front of the list under the key. Any failure of the
/// store is `InternalError`.
pub fn lpop(input: &MultiBulk, store: &mut Store) -> (res: Result<RESPValue, ResponseError>)
    requires
        old(store).wf(),
    ensures
        final(store).wf(),
        final(store).waiting() == old(store).waiting(),
        final(store).ticks() == old(store).ticks(),
        match pop_args(input.0@) {
            None => {
                &&& res == Err::<RESPValue, ResponseError>(ResponseError::MalformedRequestError)
                &&& final(store).entries() == old(store).entries()
            },
            Some((k, n)) => pop_outcome(old(store).entries(), final(store).entries(), k, n, final(store).clock(), reply(res)),
        },
        match pop_args(input.0@) {
            None => {
                &&& res == Err::<RESPValue, ResponseError>(ResponseError::MalformedRequestError)
                &&& final(store).entries() == old(store).entries()
            },
            Some((k, n)) => {
                &&& exists|now: Option<u64>|
                    pop_outcome(old(store).entries(), final(store).entries(), k, n, now, reply(res))
                &&& match reply(res) {
                    Err(e) => {
                        &&& e == ResponseError::InternalError
                        &&& final(store).entries() == old(store).entries()
                        &&& old(store).entries().contains_key(k)
                    },
                    Ok(f) => {
                        ||| (expired_away(old(store).entries(), final(store).entries(), k) && f
                            == Frame::NullBulkString)
                        ||| (pop_front_of(old(store).entries(), k, n) matches Ok((popped, after))
                            && after == final(store).entries() && f == pop_reply(popped))
                    },
                }
            },
        },
{
    let ghost e0 = store.entries();
    let now = store.read_clock();
    proof {
        if let Some((k, n)) = pop_args(input.0@) {
            if let (Ok(true), _) = expiry_outcome(e0, k, now) {
                assert(e0[k].expired_at(now->0));
                assert(e0[k].can_expire());
            }
        }
    }
    lpop_at(input, store, now)
}

} // verus!
