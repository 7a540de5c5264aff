//! What a channel answers when it cannot do what was asked.
use vstd::prelude::*;

verus! {

/// All senders have disconnected from the channel and there are no more messages waiting.
#[derive(Copy, Clone, Eq, PartialEq, Debug)]
pub struct Disconnected;

/// Why a message was not broadcast; the message comes back with the reason.
#[derive(Copy, Clone, Debug, Eq, PartialEq)]
pub enum TrySendError<T> {
    /// All receivers have disconnected from the channel.
    Disconnected(T),
    /// The message cap is reached.
    Full(T),
}

/// All receivers have disconnected from the channel; the message comes back.
#[derive(Copy, Clone, Debug, Eq, PartialEq)]
pub struct SendError<T>(pub T);

} // verus!
