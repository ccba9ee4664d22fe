//! Response status codes of the binary protocol.
use vstd::prelude::*;

verus! {

pub const NO_ERROR: u16 = 0x0000;
pub const KEY_NOT_FOUND: u16 = 0x0001;
pub const KEY_EXISTS: u16 = 0x0002;
pub const VALUE_TOO_LARGE: u16 = 0x0003;
pub const INVALID_ARGUMENTS: u16 = 0x0004;
pub const ITEM_NOT_STORED: u16 = 0x0005;
pub const INCR_DECR_ON_NON_NUMERIC_VALUE: u16 = 0x0006;
pub const THE_VBUCKET_BELONGS_TO_ANOTHER_SERVER: u16 = 0x0007;
pub const AUTHENTICATION_ERROR: u16 = 0x0008;
pub const AUTHENTICATION_CONTINUE: u16 = 0x0009;
pub const UNKNOWN_COMMAND: u16 = 0x0081;
pub const OUT_OF_MEMORY: u16 = 0x0082;
pub const NOT_SUPPORTED: u16 = 0x0083;
pub const INTERNAL_ERROR: u16 = 0x0084;
pub const BUSY: u16 = 0x0085;
pub const TEMPORARY_FAILURE: u16 = 0x0086;

} // verus!
