//! `ECHO`.

use vstd::prelude::*;
use super::types::{ResponseError, bulk, bulk_arg, reply};
use crate::resp::frame::Frame;
use crate::resp::types::{MultiBulk, RESPValue};

verus! {

/// The reply to `ECHO [message]`: the message as a bulk string, or an
/// empty bulk string when there is none.
pub open spec fn echo_reply(input: Seq<RESPValue>) -> Result<Frame, ResponseError> {
    if input.len() == 0 {
        Err(ResponseError::MalformedRequestError)
    } else if input.len() == 1 {
        Ok(bulk(Seq::empty()))
    } else {
        match bulk_arg(input, 1) {
            Some(t) => Ok(bulk(t)),
            None => Err(ResponseError::MalformedRequestError),
        }
    }
}

/// The message echoed is the argument right after the command, whatever
/// follows it.
pub proof fn law_echo_gives_first_argument(input: Seq<RESPValue>, message: String, rest: Seq<RESPValue>)
    requires
        input.len() >= 2,
        input[1] == RESPValue::BulkString(message),
    ensures
        echo_reply(input) == Ok::<Frame, ResponseError>(bulk(message@)),
        echo_reply(input + rest) == echo_reply(input),
{
    assert((input + rest)[1] == input[1]);
}

/// Answers `ECHO [message]` (see [`echo_reply`]).
pub fn echo(input: &MultiBulk) -> (res: Result<RESPValue, ResponseError>)
    ensures
        reply(res) == echo_reply(input.0@),
        input.0@.len() >= 2 ==> match input.0@[1] {
            RESPValue::BulkString(m) => res matches Ok(RESPValue::BulkString(out)) && out@ == m@,
            _ => res == Err::<RESPValue, ResponseError>(ResponseError::MalformedRequestError),
        },
{
    if input.is_empty() {
        return Err(ResponseError::MalformedRequestError);
    }
    if input.len() == 1 {
        return Ok(RESPValue::BulkString(String::new()));
    }
    match &input.0[1] {
        RESPValue::BulkString(s) => Ok(RESPValue::BulkString(s.clone())),
        _ => Err(ResponseError::MalformedRequestError),
    }
}

} // verus!
