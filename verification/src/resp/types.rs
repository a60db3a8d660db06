//! The RESP value types.

use vstd::prelude::*;
use vstd::utf8::encode_utf8;
use super::frame::Frame;

verus! {

/// Why a byte stream could not be read as a RESP value.
#[derive(Debug, Clone, Copy, PartialEq, Eq, Structural)]
pub enum ParseError {
    /// The bytes break the grammar; more input cannot mend them.
    Invalid,
    /// The bytes are a proper prefix of a value; more input may complete it.
    Incomplete,
}

impl ParseError {
    /// The human-readable description of the error.
    pub fn message(&self) -> (res: &'static str)
        ensures
            res@ == match *self {
                ParseError::Invalid => "failed to parse invalid RESP value"@,
                ParseError::Incomplete => "failed to parse RESP value, possible incomplete data"@,
            },
    {
        match self {
            ParseError::Invalid => "failed to parse invalid RESP value",
            ParseError::Incomplete => "failed to parse RESP value, possible incomplete data",
        }
    }
}

/// An ordered sequence of RESP values (the payload of arrays and pushes).
#[derive(Debug)]
pub struct MultiBulk(pub Vec<RESPValue>);

/// The entries of a RESP map, in the order they were inserted; no two keys are equal.
#[derive(Debug)]
pub struct RESPMap(pub Vec<(RESPValue, RESPValue)>);

/// The members of a RESP set, in the order they were inserted; no two are equal.
#[derive(Debug)]
pub struct RESPSet(pub Vec<RESPValue>);

/// A RESP value.
///
/// Textual payloads are `String`s. A double is kept as the text that
/// denotes it, and a big number as its canonical decimal text.
#[derive(Debug)]
pub enum RESPValue {
    SimpleString(String),
    SimpleError(String),
    Integer(i64),
    Null,
    Boolean(bool),
    Double(String),
    BigNum(String),
    BulkString(String),
    NullBulkString,
    Array(MultiBulk),
    NullArray,
    BulkError(String),
    VerbatimString { encoding: String, data: String },
    MapValue(RESPMap),
    Attribute { metadata: RESPMap, value: Box<RESPValue> },
    SetValue(RESPSet),
    Push(MultiBulk),
}

/// The bytes of a string.
pub open spec fn bytes_of(s: String) -> Seq<u8> {
    encode_utf8(s@)
}

impl RESPValue {
    /// The model of this value.
    pub open spec fn frame(self) -> Frame
        decreases self,
    {
        match self {
            RESPValue::SimpleString(s) => Frame::SimpleString(bytes_of(s)),
            RESPValue::SimpleError(s) => Frame::SimpleError(bytes_of(s)),
            RESPValue::Integer(i) => Frame::Integer(i as int),
            RESPValue::Null => Frame::Null,
            RESPValue::Boolean(b) => Frame::Boolean(b),
            RESPValue::Double(s) => Frame::Double(bytes_of(s)),
            RESPValue::BigNum(s) => Frame::BigNum(bytes_of(s)),
            RESPValue::BulkString(s) => Frame::BulkString(bytes_of(s)),
            RESPValue::NullBulkString => Frame::NullBulkString,
            RESPValue::Array(items) => Frame::Array(frames_of(items.0@)),
            RESPValue::NullArray => Frame::NullArray,
            RESPValue::BulkError(s) => Frame::BulkError(bytes_of(s)),
            RESPValue::VerbatimString { encoding, data } => Frame::VerbatimString(
                bytes_of(encoding),
                bytes_of(data),
            ),
            RESPValue::MapValue(m) => Frame::MapValue(pair_frames_of(m.0@)),
            RESPValue::Attribute { metadata, value } => Frame::Attribute(
                pair_frames_of(metadata.0@),
                Box::new((*value).frame()),
            ),
            RESPValue::SetValue(s) => Frame::SetValue(frames_of(s.0@)),
            RESPValue::Push(items) => Frame::Push(frames_of(items.0@)),
        }
    }
}

/// The models of a sequence of values.
pub open spec fn frames_of(s: Seq<RESPValue>) -> Seq<Frame>
    decreases s,
{
    Seq::new(s.len(), |i: int| if 0 <= i < s.len() { s[i].frame() } else { Frame::Null })
}

/// The models of a sequence of entries.
pub open spec fn pair_frames_of(s: Seq<(RESPValue, RESPValue)>) -> Seq<(Frame, Frame)>
    decreases s,
{
    Seq::new(
        s.len(),
        |i: int|
            if 0 <= i < s.len() {
                (s[i].0.frame(), s[i].1.frame())
            } else {
                (Frame::Null, Frame::Null)
            },
    )
}

impl View for RESPValue {
    type V = Frame;

    open spec fn view(&self) -> Frame {
        self.frame()
    }
}

} // verus!
