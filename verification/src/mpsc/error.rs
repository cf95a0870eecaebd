//! What a send that found no taker hands back.

use vstd::prelude::*;

verus! {

/// Error of a send that waits: no channel is left. Holds the data that was not sent.
#[derive(Clone, Copy, Debug, PartialEq, Eq)]
pub struct SendError<T>(pub T);

/// Error of a send that does not wait. Holds the data that was not sent.
#[derive(Clone, Copy, Debug, PartialEq, Eq)]
pub enum TrySendError<T> {
    /// There are open channels, and each of them was full.
    Full(T),
    /// There is no open channel.
    Closed(T),
}

} // verus!
