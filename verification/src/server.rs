//! The decisions of a connection: reading a request out of the bytes
//! received so far, choosing the handler that answers it, and reading the
//! configuration.

use vstd::prelude::*;
use vstd::utf8::{encode_utf8, valid_utf8};
use crate::commands::echo::{echo, echo_reply};
use crate::commands::ping::{ping, pong};
use crate::commands::types::{ResponseError, reply};
use crate::resp::decimal::{parse_u64_text, u64_text_value};
use crate::resp::frame::Frame;
use crate::resp::lexical::lower_all;
use crate::resp::types::{ParseError, RESPValue};
use crate::resp::utf8::as_text;
use crate::resp::wire::parse_frame;

verus! {

/// Reads a request out of the bytes received so far: `None` when they are
/// not UTF-8 text, else what parsing the text as a RESP value gives
/// (`Incomplete` asks for more bytes).
pub fn read_request(buf: &[u8]) -> (res: Option<Result<RESPValue, ParseError>>)
    ensures
        res is None <==> !valid_utf8(buf@),
        res matches Some(r) ==> match parse_frame(buf@, false) {
            Ok((f, _)) => r matches Ok(v) && v@ == f,
            Err(e) => r matches Err(e2) && e2 == e,
        },
{
    match as_text(buf) {
        Some(s) => Some(RESPValue::parse_str(s)),
        None => None,
    }
}

/// The bytes of the command name `echo`.
pub open spec fn echo_word() -> Seq<u8> {
    seq![101u8, 99u8, 104u8, 111u8]
}

/// The bytes of the command name `ping`.
pub open spec fn ping_word() -> Seq<u8> {
    seq![112u8, 105u8, 110u8, 103u8]
}

/// `cmd` is the lower-case ASCII `word`, regardless of ASCII case.
pub open spec fn names(cmd: Seq<char>, word: Seq<u8>) -> bool {
    lower_all(encode_utf8(cmd)) == word
}

/// The reply to a request: an array whose first value, a bulk string,
/// names the command (`ECHO` or `PING`, regardless of ASCII case).
pub open spec fn dispatch_reply(request: RESPValue) -> Result<Frame, ResponseError> {
    match request {
        RESPValue::Array(a) => if a.0@.len() == 0 {
            Err(ResponseError::MalformedRequestError)
        } else {
            match a.0@[0] {
                RESPValue::BulkString(cmd) => if names(cmd@, echo_word()) {
                    echo_reply(a.0@)
                } else if names(cmd@, ping_word()) {
                    Ok(pong())
                } else {
                    Err(ResponseError::UnsupportedCommandError)
                },
                _ => Err(ResponseError::MalformedRequestError),
            }
        },
        _ => Err(ResponseError::MalformedRequestError),
    }
}

/// Whether the text `cmd` equals the lower-case ASCII `word` when ASCII
/// letters are compared without regard to case.
fn names_word(cmd: &str, word: &[u8]) -> (res: bool)
    ensures
        res == (lower_all(encode_utf8(cmd@)) == word@),
{
    let b = cmd.as_bytes();
    if b.len() != word.len() {
        assert(lower_all(b@).len() != word@.len());
        return false;
    }
    let mut i: usize = 0;
    while i < b.len()
        invariant
            b@ == encode_utf8(cmd@),
            b@.len() == word@.len(),
            0 <= i <= b@.len(),
            forall|j: int| 0 <= j < i ==> lower_all(b@)[j] == word@[j],
        decreases b.len() - i,
    {
        let c = b[i];
        let lc = if 65 <= c && c <= 90 {
            c + 32
        } else {
            c
        };
        assert(lower_all(b@)[i as int] == lc);
        if lc != word[i] {
            return false;
        }
        i = i + 1;
    }
    assert(lower_all(b@) =~= word@);
    true
}

/// Answers a request with the handler that its command names.
pub fn dispatch(request: &RESPValue) -> (res: Result<RESPValue, ResponseError>)
    ensures
        reply(res) == dispatch_reply(*request),
{
    match request {
        RESPValue::Array(a) => {
            if a.is_empty() {
                return Err(ResponseError::MalformedRequestError);
            }
            match &a.0[0] {
                RESPValue::BulkString(cmd) => {
                    let echo_name: [u8; 4] = [101u8, 99u8, 104u8, 111u8];
                    let ping_name: [u8; 4] = [112u8, 105u8, 110u8, 103u8];
                    assert(echo_name@ =~= echo_word());
                    assert(ping_name@ =~= ping_word());
                    if names_word(cmd.as_str(), echo_name.as_slice()) {
                        echo(a)
                    } else if names_word(cmd.as_str(), ping_name.as_slice()) {
                        ping()
                    } else {
                        Err(ResponseError::UnsupportedCommandError)
                    }
                },
                _ => Err(ResponseError::MalformedRequestError),
            }
        },
        _ => Err(ResponseError::MalformedRequestError),
    }
}

/// Reading the configuration failed.
#[derive(Debug, Clone, Copy, PartialEq, Eq, Structural)]
pub struct ReadConfigError;

/// The connection timeout in milliseconds that the text of `CONN_TIMEOUT`
/// sets: its value as a `u64` numeral, or 0 (no timeout) when it is unset
/// or not such a numeral.
pub fn timeout_ms(raw: Option<String>) -> (res: u64)
    ensures
        res == match raw {
            Some(t) => match u64_text_value(encode_utf8(t@)) {
                Some(v) => v,
                None => 0,
            },
            None => 0,
        },
{
    match raw {
        Some(t) => {
            let b = t.as_str().as_bytes();
            assert(b@.subrange(0, b@.len() as int) =~= encode_utf8(t@));
            match parse_u64_text(b, 0, b.len()) {
                Some(v) => v,
                None => 0,
            }
        },
        None => 0,
    }
}

} // verus!
