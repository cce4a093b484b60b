//! Reasons given in a disconnect packet.
use vstd::prelude::*;

verus! {

pub const TIMEOUT: u8 = 0;

pub const REQUESTED: u8 = 1;

pub const KICKED: u8 = 2;

pub const SERVER_FULL: u8 = 3;

pub const PROTOCOL_MISMATCH: u8 = 4;

} // verus!
