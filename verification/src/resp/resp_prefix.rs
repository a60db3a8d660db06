//! The type bytes that open each kind of RESP value on the wire.

use vstd::prelude::*;

verus! {

pub const SIMPLE_STRING: u8 = 43;
pub const SIMPLE_ERROR: u8 = 45;
pub const INTEGER: u8 = 58;
pub const NULL: u8 = 95;
pub const BOOLEAN: u8 = 35;
pub const DOUBLE: u8 = 44;
pub const BIG_NUM: u8 = 40;
pub const BULK_STRING: u8 = 36;
pub const NULL_BULK_STRING: u8 = 36;
pub const ARRAY: u8 = 42;
pub const NULL_ARRAY: u8 = 42;
pub const BULK_ERROR: u8 = 33;
pub const VERBATIM_STRING: u8 = 61;
pub const MAP: u8 = 37;
pub const ATTRIBUTE: u8 = 124;
pub const SET: u8 = 126;
pub const PUSH: u8 = 62;

} // verus!
