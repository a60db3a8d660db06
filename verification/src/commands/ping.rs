//! `PING`.

use vstd::prelude::*;
use super::types::{ResponseError, reply};
use crate::resp::frame::Frame;
use crate::resp::types::RESPValue;
use vstd::utf8::encode_utf8;

verus! {

/// The reply to `PING`: the simple string `PONG`.
pub open spec fn pong() -> Frame {
    Frame::SimpleString(encode_utf8("PONG"@))
}

/// Answers `PING` (see [`pong`]).
pub fn ping() -> (res: Result<RESPValue, ResponseError>)
    ensures
        reply(res) == Ok::<Frame, ResponseError>(pong()),
{
    Ok(RESPValue::SimpleString("PONG".to_owned()))
}

} // verus!
