//! Mailbox failures, as seen by whoever sends to an actor.
use vstd::prelude::*;

verus! {

/// Why a message could not be handed to an actor without waiting.
#[derive(Clone, Copy, Debug, PartialEq, Eq)]
pub enum TrySendError {
    /// The mailbox is full.
    ChannelFull,
    /// The actor's mailbox is closed for good.
    ChannelClosed,
}

/// The actor's mailbox is closed for good.
#[derive(Clone, Copy, Debug, PartialEq, Eq)]
pub struct SendError;

} // verus!
