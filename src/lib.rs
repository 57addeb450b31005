//! Front-end connection pipeline of a game-server proxy: frame codec,
//! stream-cipher socket state, per-connection protocol stages and the
//! shared coordinator's message handling.
use vstd::prelude::*;

pub mod buffer;
pub mod cipher;
pub mod codec;
pub mod config;
pub mod coordinator;
pub mod errors;
pub mod packets;
pub mod socket;
pub mod stages;
pub mod status;
pub mod varint;

verus! {

} // verus!
