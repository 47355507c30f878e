//! The ways in which a transfer can fail. A failed send hands the value back.

use vstd::prelude::*;

verus! {

/// An unbounded send failed because the channel is closed.
#[derive(Debug, PartialEq, Eq)]
pub struct SendError<T>(pub T);

/// Why a send that never waits did not hand its value over.
#[derive(Debug, PartialEq, Eq)]
pub enum TrySendError<T> {
    /// No receiver is waiting.
    Full(T),
    /// The channel is closed.
    Disconnected(T),
}

/// Why a send with a deadline did not hand its value over.
#[derive(Debug, PartialEq, Eq)]
pub enum SendTimeoutError<T> {
    /// The deadline passed before a receiver came.
    Timeout(T),
    /// The channel is closed.
    Disconnected(T),
}

/// An unbounded receive failed because the channel is closed.
#[derive(Debug, PartialEq, Eq, Clone, Copy)]
pub struct RecvError;

/// Why a receive that never waits got no value.
#[derive(Debug, PartialEq, Eq, Clone, Copy)]
pub enum TryRecvError {
    /// No sender is waiting.
    Empty,
    /// The channel is closed.
    Disconnected,
}

/// Why a receive with a deadline got no value.
#[derive(Debug, PartialEq, Eq, Clone, Copy)]
pub enum RecvTimeoutError {
    /// The deadline passed before a sender came.
    Timeout,
    /// The channel is closed.
    Disconnected,
}

impl<T> SendTimeoutError<T> {
    /// The value that was not delivered.
    pub open spec fn value(self) -> T {
        match self {
            SendTimeoutError::Timeout(v) => v,
            SendTimeoutError::Disconnected(v) => v,
        }
    }
}

impl<T> TrySendError<T> {
    /// The value that was not delivered.
    pub open spec fn value(self) -> T {
        match self {
            TrySendError::Full(v) => v,
            TrySendError::Disconnected(v) => v,
        }
    }
}

} // verus!
