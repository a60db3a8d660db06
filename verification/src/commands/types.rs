//! What the request handlers answer, and how their contracts read a request.

use vstd::prelude::*;
use vstd::utf8::encode_utf8;
use crate::resp::frame::Frame;
use crate::resp::types::{MultiBulk, RESPValue, frames_of};
use crate::store::types::texts;
use crate::store::store::{expired_away, expiry_outcome};
use crate::store::types::EntryView;

verus! {

/// Why a request could not be answered.
#[derive(Debug, Clone, Copy, PartialEq, Eq, Structural)]
pub enum ResponseError {
    /// The request does not have the shape that its command needs.
    MalformedRequestError,
    /// The command is missing or unknown.
    UnsupportedCommandError,
    /// The store failed.
    InternalError,
}

impl ResponseError {
    /// The human-readable description of the error.
    pub fn message(&self) -> (res: &'static str)
        ensures
            res@ == match *self {
                ResponseError::MalformedRequestError => "malformed request"@,
                ResponseError::UnsupportedCommandError => "unsupported command"@,
                ResponseError::InternalError => "internal error"@,
            },
    {
        match self {
            ResponseError::MalformedRequestError => "malformed request",
            ResponseError::UnsupportedCommandError => "unsupported command",
            ResponseError::InternalError => "internal error",
        }
    }
}

/// The text of the `i`-th value of a request, when it is a bulk string.
pub open spec fn bulk_arg(input: Seq<RESPValue>, i: int) -> Option<Seq<char>> {
    if 0 <= i < input.len() {
        match input[i] {
            RESPValue::BulkString(s) => Some(s@),
            _ => None,
        }
    } else {
        None
    }
}

/// A bulk string holding the text `t`.
pub open spec fn bulk(t: Seq<char>) -> Frame {
    Frame::BulkString(encode_utf8(t))
}

/// An array of bulk strings holding the texts `ts`, in order.
pub open spec fn bulk_array(ts: Seq<Seq<char>>) -> Frame {
    Frame::Array(ts.map_values(|t: Seq<char>| bulk(t)))
}

/// The model of a reply.
pub open spec fn reply(r: Result<RESPValue, ResponseError>) -> Result<Frame, ResponseError> {
    match r {
        Ok(v) => Ok(v@),
        Err(e) => Err(e),
    }
}

/// The argument of a request that has exactly `n` values, at position `i`,
/// when it is a bulk string.
pub open spec fn arg_of(input: Seq<RESPValue>, n: int, i: int) -> Option<Seq<char>> {
    if input.len() == n {
        bulk_arg(input, i)
    } else {
        None
    }
}

/// The reply to a read of `key` after its lazy expiry, where `read` is the
/// reply on the entries as they stand and `gone` the reply when the entry
/// expired: a failing clock gives `InternalError` and changes nothing; an
/// expired entry is removed; otherwise the read sees the entries unchanged.
pub open spec fn lazy_reply(
    before: Map<Seq<char>, EntryView>,
    after: Map<Seq<char>, EntryView>,
    key: Seq<char>,
    res: Result<Frame, ResponseError>,
    read: Result<Frame, ResponseError>,
    gone: Frame,
) -> bool {
    match res {
        Err(e) => {
            &&& after == before
            &&& before.contains_key(key)
            &&& (e == ResponseError::InternalError || read == Err::<Frame, ResponseError>(e))
        },
        Ok(f) => {
            ||| (expired_away(before, after, key) && f == gone)
            ||| (after == before && read == Ok::<Frame, ResponseError>(f))
        },
    }
}

/// The outcome of a handler that reads `key` with the clock at `now`, where
/// `read` is its reply on the entries as they stand and `gone` its reply
/// when the entry expired: a failing clock on a present key gives
/// `InternalError` and changes nothing; an entry expired at `now` is
/// removed; otherwise the read sees the entries unchanged.
pub open spec fn reply_at(
    before: Map<Seq<char>, EntryView>,
    after: Map<Seq<char>, EntryView>,
    key: Seq<char>,
    now: Option<u64>,
    res: Result<Frame, ResponseError>,
    read: Result<Frame, ResponseError>,
    gone: Frame,
) -> bool {
    match expiry_outcome(before, key, now) {
        (Err(_), _) => after == before && res == Err::<Frame, ResponseError>(
            ResponseError::InternalError,
        ),
        (Ok(true), m) => after == m && res == Ok::<Frame, ResponseError>(gone),
        (Ok(false), _) => after == before && res == read,
    }
}

/// Whatever the clock read, a reply at that time is one of the outcomes of
/// [`lazy_reply`].
pub proof fn lemma_reply_at_is_lazy(
    before: Map<Seq<char>, EntryView>,
    after: Map<Seq<char>, EntryView>,
    key: Seq<char>,
    now: Option<u64>,
    res: Result<Frame, ResponseError>,
    read: Result<Frame, ResponseError>,
    gone: Frame,
)
    requires
        reply_at(before, after, key, now, res, read, gone),
        read is Err ==> before.contains_key(key),
    ensures
        lazy_reply(before, after, key, res, read, gone),
{
    if let (Ok(true), _) = expiry_outcome(before, key, now) {
        assert(before[key].expired_at(now->0));
        assert(before[key].can_expire());
    }
}

/// An array of bulk strings holding the given strings, in order.
pub fn bulk_strings(items: Vec<String>) -> (res: RESPValue)
    ensures
        res@ == bulk_array(texts(items@)),
{
    let ghost ts = items@;
    let mb = MultiBulk::from_strings(items);
    let res = RESPValue::Array(mb);
    proof {
        assert(frames_of(mb.0@) =~= texts(ts).map_values(|t: Seq<char>| bulk(t)));
    }
    res
}

} // verus!
