//! Reasons given in a connection-deny packet.
use vstd::prelude::*;

verus! {

pub const SERVER_FULL: u8 = 0;

pub const ALREADY_CONNECTED: u8 = 1;

pub const INVALID_PROTOCOL: u8 = 2;

pub const BANNED: u8 = 3;

pub const INVALID_CHALLENGE: u8 = 4;

} // verus!
