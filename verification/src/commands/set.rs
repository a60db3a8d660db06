//! `SET`.

use vstd::prelude::*;
use super::types::{ResponseError, arg_of, reply};
use crate::resp::frame::Frame;
use crate::resp::types::{MultiBulk, RESPValue};
use crate::store::store::Store;
use crate::store::types::{EntryView, ValueView};
use vstd::utf8::encode_utf8;

verus! {

/// Answers `SET key value`: binds the key to the string, without expiry,
/// and replies `OK`.
pub fn set(input: &MultiBulk, store: &mut Store) -> (res: Result<RESPValue, ResponseError>)
    requires
        old(store).wf(),
    ensures
        final(store).wf(),
        final(store).waiting() == old(store).waiting(),
        final(store).ticks() == old(store).ticks(),
        match (arg_of(input.0@, 3, 1), arg_of(input.0@, 3, 2)) {
            (Some(k), Some(v)) => {
                &&& reply(res) == Ok::<Frame, ResponseError>(
                    Frame::SimpleString(encode_utf8("OK"@)),
                )
                &&& final(store).entries() == old(store).entries().insert(
                    k,
                    EntryView { value: ValueView::Text(v), expiry: None },
                )
            },
            _ => {
                &&& res == Err::<RESPValue, ResponseError>(ResponseError::MalformedRequestError)
                &&& final(store).entries() == old(store).entries()
            },
        },
{
    if input.len() != 3 {
        return Err(ResponseError::MalformedRequestError);
    }
    let key = match &input.0[1] {
        RESPValue::BulkString(s) => s.clone(),
        _ => return Err(ResponseError::MalformedRequestError),
    };
    let value = match &input.0[2] {
        RESPValue::BulkString(s) => s.clone(),
        _ => return Err(ResponseError::MalformedRequestError),
    };
    store.set(key, value, None);
    Ok(RESPValue::SimpleString("OK".to_owned()))
}

} // verus!
