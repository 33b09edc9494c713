//! Errors returned by the channel.
use vstd::prelude::*;

verus! {

/// Why a receive handed out no message.
#[derive(Debug, PartialEq, Eq, Clone, Copy, Structural)]
#[non_exhaustive]
pub enum RecvError {
    /// The buffer is empty and the channel is closed.
    Disconnected,
    /// Every buffered message shares a key with a message the consumer holds.
    AllConflict,
}

/// A send refused because the channel is closed; it carries the message back.
#[derive(Debug, PartialEq, Eq)]
pub struct SendError<T>(pub T);

/// Why a message was not appended; it carries the message back.
#[derive(Debug, PartialEq, Eq)]
pub enum TrySendError<T> {
    /// The buffer has no free slot; the sender waits and tries again.
    Full(T),
    /// The channel is closed.
    Disconnected(T),
}

} // verus!
