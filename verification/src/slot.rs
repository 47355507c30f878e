//! The record of one waiting call.

use vstd::prelude::*;

verus! {

/// Which end of the channel a waiting call is on.
#[derive(Debug, PartialEq, Eq, Clone, Copy)]
pub enum Side {
    Sender,
    Receiver,
}

/// The record of one waiting call: whom to wake, a one-shot cell for the
/// value, and a flag that the peer raises once the transfer is done.
///
/// A sender's slot starts with its value in the cell and ends empty; a
/// receiver's slot starts empty and ends with the value that was sent.
#[derive(Debug)]
pub struct Slot<T> {
    /// Names the waiting call; handed to the caller that must wake it.
    pub ticket: u64,
    pub side: Side,
    pub cell: Option<T>,
    pub ready: bool,
}

impl<T> Slot<T> {
    /// A slot that has just been registered and not yet been served.
    pub open spec fn queued(self) -> bool {
        &&& !self.ready
        &&& self.side is Sender <==> self.cell is Some
    }

    /// A slot whose transfer has been completed by a peer.
    pub open spec fn completed(self) -> bool {
        &&& self.ready
        &&& self.side is Sender <==> self.cell is None
    }

    /// A fresh slot for a sender that waits with `value`.
    pub fn sender(ticket: u64, value: T) -> (slot: Self)
        ensures
            slot == (Slot { ticket, side: Side::Sender, cell: Some(value), ready: false }),
    {
        Slot { ticket, side: Side::Sender, cell: Some(value), ready: false }
    }

    /// A fresh slot for a receiver that waits for a value.
    pub fn receiver(ticket: u64) -> (slot: Self)
        ensures
            slot == (Slot { ticket, side: Side::Receiver, cell: None::<T>, ready: false }),
    {
        Slot { ticket, side: Side::Receiver, cell: None, ready: false }
    }

    /// Raises the readiness flag and names the call to wake.
    pub fn signal(&mut self) -> (wake: u64)
        ensures
            *final(self) == (Slot { ready: true, ..*old(self) }),
            wake == old(self).ticket,
    {
        self.ready = true;
        self.ticket
    }

    /// Fills the cell with `value`, then signals.
    pub fn put(&mut self, value: T) -> (wake: u64)
        ensures
            *final(self) == (Slot { cell: Some(value), ready: true, ..*old(self) }),
            wake == old(self).ticket,
    {
        self.cell = Some(value);
        self.signal()
    }

    /// Empties the cell, then signals. Returns what the cell held.
    pub fn take(&mut self) -> (out: (T, u64))
        requires
            old(self).cell is Some,
        ensures
            *final(self) == (Slot { cell: None, ready: true, ..*old(self) }),
            out.0 == old(self).cell->0,
            out.1 == old(self).ticket,
    {
        let value = self.cell.take().unwrap();
        let wake: u64 = self.signal();
        (value, wake)
    }
}

} // verus!
