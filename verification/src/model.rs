//! The channel as a mathematical state machine.
//!
//! [`State`] is what the channel is at one instant; each operation is a
//! function from a state to the next state and the operation's result.

use vstd::prelude::*;
use vstd::multiset::Multiset;
use crate::errors::{RecvTimeoutError, SendTimeoutError, TryRecvError, TrySendError};
use crate::slot::{Side, Slot};
use crate::wait::{decide, Resume, Step, Wait, Waiter};

verus! {

/// Some slot of `slots` carries `ticket`.
pub open spec fn holds<T>(slots: Seq<Slot<T>>, ticket: u64) -> bool {
    exists|i: int| 0 <= i < slots.len() && (#[trigger] slots[i]).ticket == ticket
}

/// An index at which `slots` carries `ticket`.
pub open spec fn position<T>(slots: Seq<Slot<T>>, ticket: u64) -> int {
    choose|i: int| 0 <= i < slots.len() && (#[trigger] slots[i]).ticket == ticket
}

/// No two slots of `slots` carry the same ticket.
pub open spec fn distinct<T>(slots: Seq<Slot<T>>) -> bool {
    forall|i: int, j: int|
        0 <= i < j < slots.len() ==> (#[trigger] slots[i]).ticket != (#[trigger] slots[j]).ticket
}

/// No slot of `a` carries the ticket of a slot of `b`.
pub open spec fn apart<T>(a: Seq<Slot<T>>, b: Seq<Slot<T>>) -> bool {
    forall|i: int, j: int|
        0 <= i < a.len() && 0 <= j < b.len() ==> (#[trigger] a[i]).ticket != (#[trigger] b[j]).ticket
}

/// In `slots`, the slot with ticket `a` stands before the one with ticket
/// `b`.
pub open spec fn precedes<T>(slots: Seq<Slot<T>>, a: u64, b: u64) -> bool {
    exists|i: int, j: int|
        0 <= i < j < slots.len() && (#[trigger] slots[i]).ticket == a && (#[trigger] slots[j]).ticket
            == b
}

/// The tickets of `slots`, in order.
pub open spec fn tickets<T>(slots: Seq<Slot<T>>) -> Seq<u64> {
    Seq::new(slots.len(), |i: int| slots[i].ticket)
}

/// The value in a slot's cell, as a multiset of at most one element.
pub open spec fn cell_content<T>(slot: Slot<T>) -> Multiset<T> {
    match slot.cell {
        Some(v) => Multiset::singleton(v),
        None => Multiset::empty(),
    }
}

/// The values in the cells of `slots`.
pub open spec fn contents<T>(slots: Seq<Slot<T>>) -> Multiset<T>
    decreases slots.len(),
{
    if slots.len() == 0 {
        Multiset::empty()
    } else {
        contents(slots.drop_last()).add(cell_content(slots.last()))
    }
}

/// The channel at one instant.
pub ghost struct State<T> {
    /// Set once, by the first `close`.
    pub closed: bool,
    /// The slots of the waiting senders, oldest first.
    pub senders: Seq<Slot<T>>,
    /// The slots of the waiting receivers, oldest first.
    pub receivers: Seq<Slot<T>>,
    /// The slots that have left the wait queues, served by a peer or
    /// dismissed by `close`, and whose calls have not yet returned.
    pub detached: Seq<Slot<T>>,
    /// The tickets of the calls to wake, in the order in which they were
    /// signalled.
    pub wakeups: Seq<u64>,
    /// The length hint for `senders`.
    pub senders_len: nat,
    /// The length hint for `receivers`.
    pub receivers_len: nat,
    /// How many tickets have been issued.
    pub issued: nat,
}

impl<T> State<T> {
    /// The channel as it is made: open, with nobody waiting.
    pub open spec fn initial() -> Self {
        State {
            closed: false,
            senders: Seq::empty(),
            receivers: Seq::empty(),
            detached: Seq::empty(),
            wakeups: Seq::empty(),
            senders_len: 0,
            receivers_len: 0,
            issued: 0,
        }
    }

    /// What holds of every state that the operations reach.
    pub open spec fn wf(self) -> bool {
        &&& forall|i: int|
            0 <= i < self.senders.len() ==> {
                &&& (#[trigger] self.senders[i]).side is Sender
                &&& self.senders[i].queued()
                &&& self.senders[i].ticket < self.issued
            }
        &&& forall|i: int|
            0 <= i < self.receivers.len() ==> {
                &&& (#[trigger] self.receivers[i]).side is Receiver
                &&& self.receivers[i].queued()
                &&& self.receivers[i].ticket < self.issued
            }
        &&& forall|i: int|
            0 <= i < self.detached.len() ==> {
                &&& (#[trigger] self.detached[i]).completed() || (self.closed
                    && self.detached[i].queued())
                &&& self.detached[i].ticket < self.issued
            }
        &&& distinct(self.senders)
        &&& distinct(self.receivers)
        &&& distinct(self.detached)
        &&& apart(self.senders, self.receivers)
        &&& apart(self.senders, self.detached)
        &&& apart(self.receivers, self.detached)
        &&& self.senders.len() == 0 || self.receivers.len() == 0
        &&& self.closed ==> self.senders.len() == 0 && self.receivers.len() == 0
        &&& self.senders_len == self.senders.len()
        &&& self.receivers_len == self.receivers.len()
        &&& self.issued <= u64::MAX
    }

    /// The calls that have registered a slot and not yet returned.
    pub open spec fn outstanding(self) -> nat {
        self.senders.len() + self.receivers.len() + self.detached.len()
    }

    /// The values that the channel holds for calls that have not returned.
    pub open spec fn held(self) -> Multiset<T> {
        contents(self.senders).add(contents(self.receivers)).add(contents(self.detached))
    }

    /// `ticket` names a send that has not yet returned.
    pub open spec fn sending(self, ticket: u64) -> bool {
        ||| holds(self.senders, ticket)
        ||| exists|i: int|
            0 <= i < self.detached.len() && (#[trigger] self.detached[i]).ticket == ticket
                && self.detached[i].side is Sender
    }

    /// `ticket` names a receive that has not yet returned.
    pub open spec fn receiving(self, ticket: u64) -> bool {
        ||| holds(self.receivers, ticket)
        ||| exists|i: int|
            0 <= i < self.detached.len() && (#[trigger] self.detached[i]).ticket == ticket
                && self.detached[i].side is Receiver
    }

    /// A peer has completed the transfer of the call that `ticket` names.
    pub open spec fn ready(self, ticket: u64) -> bool {
        exists|i: int|
            0 <= i < self.detached.len() && (#[trigger] self.detached[i]).ticket == ticket
                && self.detached[i].ready
    }

    /// The send that `ticket` names still waits with `value`: no receiver
    /// has taken it.
    pub open spec fn waits_with(self, ticket: u64, value: T) -> bool {
        ||| exists|i: int|
            0 <= i < self.senders.len() && (#[trigger] self.senders[i]).ticket == ticket
                && self.senders[i].cell == Some(value)
        ||| exists|i: int|
            0 <= i < self.detached.len() && (#[trigger] self.detached[i]).ticket == ticket
                && self.detached[i].side is Sender && !self.detached[i].ready
                && self.detached[i].cell == Some(value)
    }

    /// The receive that `ticket` names has been given `value` and has not
    /// yet returned.
    pub open spec fn filled_with(self, ticket: u64, value: T) -> bool {
        exists|i: int|
            0 <= i < self.detached.len() && (#[trigger] self.detached[i]).ticket == ticket
                && self.detached[i].side is Receiver && self.detached[i].ready
                && self.detached[i].cell == Some(value)
    }

    /// The receive that `ticket` names still waits: no sender has filled
    /// its slot.
    pub open spec fn awaits(self, ticket: u64) -> bool {
        ||| holds(self.receivers, ticket)
        ||| exists|i: int|
            0 <= i < self.detached.len() && (#[trigger] self.detached[i]).ticket == ticket
                && self.detached[i].side is Receiver && !self.detached[i].ready
    }

    /// The receive that `ticket` names has been given a value and has not
    /// yet returned.
    pub open spec fn filled(self, ticket: u64) -> bool {
        exists|i: int|
            0 <= i < self.detached.len() && (#[trigger] self.detached[i]).ticket == ticket
                && self.detached[i].side is Receiver && self.detached[i].ready
    }

    /// The send that `ticket` names has been relieved of its value and has
    /// not yet returned.
    pub open spec fn relieved(self, ticket: u64) -> bool {
        exists|i: int|
            0 <= i < self.detached.len() && (#[trigger] self.detached[i]).ticket == ticket
                && self.detached[i].side is Sender && self.detached[i].ready
    }

    /// The error of a send that gives up with `value` still in hand.
    pub open spec fn send_refusal(self, value: T) -> SendTimeoutError<T> {
        if self.closed {
            SendTimeoutError::Disconnected(value)
        } else {
            SendTimeoutError::Timeout(value)
        }
    }

    /// The error of a receive that gives up.
    pub open spec fn recv_refusal(self) -> RecvTimeoutError {
        if self.closed {
            RecvTimeoutError::Disconnected
        } else {
            RecvTimeoutError::Timeout
        }
    }

    /// The oldest waiting receiver is given `value` and signalled.
    pub open spec fn hand_over(self, value: T) -> Self
        recommends
            self.receivers.len() > 0,
    {
        let slot = self.receivers[0];
        State {
            receivers: self.receivers.drop_first(),
            receivers_len: (self.receivers.len() - 1) as nat,
            detached: self.detached.push(Slot { cell: Some(value), ready: true, ..slot }),
            wakeups: self.wakeups.push(slot.ticket),
            ..self
        }
    }

    /// The oldest waiting sender is relieved of its value and signalled.
    pub open spec fn relieve(self) -> Self
        recommends
            self.senders.len() > 0,
    {
        let slot = self.senders[0];
        State {
            senders: self.senders.drop_first(),
            senders_len: (self.senders.len() - 1) as nat,
            detached: self.detached.push(Slot { cell: None, ready: true, ..slot }),
            wakeups: self.wakeups.push(slot.ticket),
            ..self
        }
    }

    /// A sender joins the back of its wait queue under the next ticket.
    pub open spec fn enlist_sender(self, value: T) -> Self {
        State {
            senders: self.senders.push(
                Slot { ticket: self.issued as u64, side: Side::Sender, cell: Some(value), ready: false },
            ),
            senders_len: self.senders.len() + 1,
            issued: self.issued + 1,
            ..self
        }
    }

    /// A receiver joins the back of its wait queue under the next ticket.
    pub open spec fn enlist_receiver(self) -> Self {
        State {
            receivers: self.receivers.push(
                Slot { ticket: self.issued as u64, side: Side::Receiver, cell: None, ready: false },
            ),
            receivers_len: self.receivers.len() + 1,
            issued: self.issued + 1,
            ..self
        }
    }

    /// A send that never waits.
    pub open spec fn try_send(self, value: T) -> (Self, Result<(), TrySendError<T>>) {
        if self.closed {
            (self, Err(TrySendError::Disconnected(value)))
        } else if self.receivers.len() == 0 {
            (self, Err(TrySendError::Full(value)))
        } else {
            (self.hand_over(value), Ok(()))
        }
    }

    /// A receive that never waits.
    pub open spec fn try_recv(self) -> (Self, Result<T, TryRecvError>) {
        if self.closed {
            (self, Err(TryRecvError::Disconnected))
        } else if self.senders.len() == 0 {
            (self, Err(TryRecvError::Empty))
        } else {
            (self.relieve(), Ok(self.senders[0].cell->0))
        }
    }

    /// The start of a send that may wait: refused when closed, paired with
    /// the oldest waiting receiver when there is one, else registered.
    pub open spec fn send_until(self, value: T, deadline: Option<u64>) -> (
        Self,
        Step<Result<(), SendTimeoutError<T>>>,
    ) {
        if self.closed {
            (self, Step::Done(Err(SendTimeoutError::Disconnected(value))))
        } else if self.receivers.len() > 0 {
            (self.hand_over(value), Step::Done(Ok(())))
        } else {
            (
                self.enlist_sender(value),
                Step::Blocked(Waiter { ticket: self.issued as u64, deadline }),
            )
        }
    }

    /// The start of a receive that may wait: refused when closed, paired
    /// with the oldest waiting sender when there is one, else registered.
    pub open spec fn recv_until(self, deadline: Option<u64>) -> (
        Self,
        Step<Result<T, RecvTimeoutError>>,
    ) {
        if self.closed {
            (self, Step::Done(Err(RecvTimeoutError::Disconnected)))
        } else if self.senders.len() > 0 {
            (self.relieve(), Step::Done(Ok(self.senders[0].cell->0)))
        } else {
            (self.enlist_receiver(), Step::Blocked(Waiter { ticket: self.issued as u64, deadline }))
        }
    }

    /// The end of a send that waited. Its slot goes. Where a receiver has
    /// taken the value the send succeeded; else the value comes back, with
    /// the reason.
    pub open spec fn send_finish(self, ticket: u64) -> (Self, Result<(), SendTimeoutError<T>>)
        recommends
            self.sending(ticket),
    {
        if holds(self.detached, ticket) {
            let i = position(self.detached, ticket);
            let slot = self.detached[i];
            (
                State { detached: self.detached.remove(i), ..self },
                if slot.ready {
                    Ok(())
                } else {
                    Err(self.send_refusal(slot.cell->0))
                },
            )
        } else {
            let i = position(self.senders, ticket);
            (
                State {
                    senders: self.senders.remove(i),
                    senders_len: (self.senders.len() - 1) as nat,
                    ..self
                },
                Err(self.send_refusal(self.senders[i].cell->0)),
            )
        }
    }

    /// The end of a receive that waited. Its slot goes. Where a sender has
    /// filled it the receive succeeded with that value; else it failed,
    /// with the reason.
    pub open spec fn recv_finish(self, ticket: u64) -> (Self, Result<T, RecvTimeoutError>)
        recommends
            self.receiving(ticket),
    {
        if holds(self.detached, ticket) {
            let i = position(self.detached, ticket);
            let slot = self.detached[i];
            (
                State { detached: self.detached.remove(i), ..self },
                if slot.ready {
                    Ok(slot.cell->0)
                } else {
                    Err(self.recv_refusal())
                },
            )
        } else {
            let i = position(self.receivers, ticket);
            (
                State {
                    receivers: self.receivers.remove(i),
                    receivers_len: (self.receivers.len() - 1) as nat,
                    ..self
                },
                Err(self.recv_refusal()),
            )
        }
    }

    /// A waiting send takes a look at the instant `now`: it sleeps on where
    /// the wait goes on, and ends where it is over.
    pub open spec fn send_resume(self, waiter: Waiter, now: u64) -> (
        Self,
        Resume<Result<(), SendTimeoutError<T>>>,
    )
        recommends
            self.sending(waiter.ticket),
    {
        match decide(self.ready(waiter.ticket), self.closed, waiter.deadline, now) {
            Wait::Park(nap) => (self, Resume::Park(nap)),
            _ => (self.send_finish(waiter.ticket).0, Resume::Done(self.send_finish(waiter.ticket).1)),
        }
    }

    /// A waiting receive takes a look at the instant `now`: it sleeps on
    /// where the wait goes on, and ends where it is over.
    pub open spec fn recv_resume(self, waiter: Waiter, now: u64) -> (
        Self,
        Resume<Result<T, RecvTimeoutError>>,
    )
        recommends
            self.receiving(waiter.ticket),
    {
        match decide(self.ready(waiter.ticket), self.closed, waiter.deadline, now) {
            Wait::Park(nap) => (self, Resume::Park(nap)),
            _ => (self.recv_finish(waiter.ticket).0, Resume::Done(self.recv_finish(waiter.ticket).1)),
        }
    }

    /// Closing. The first close dismisses every waiting call, senders
    /// before receivers, and wakes it; no cell is touched and no flag
    /// raised. A later close changes nothing.
    pub open spec fn close(self) -> (Self, bool) {
        if self.closed {
            (self, false)
        } else {
            (
                State {
                    closed: true,
                    senders: Seq::empty(),
                    receivers: Seq::empty(),
                    detached: self.detached + self.senders + self.receivers,
                    wakeups: self.wakeups + tickets(self.senders) + tickets(self.receivers),
                    senders_len: 0,
                    receivers_len: 0,
                    ..self
                },
                true,
            )
        }
    }

    /// The wake list is handed out and emptied.
    pub open spec fn take_wakeups(self) -> (Self, Seq<u64>) {
        (State { wakeups: Seq::empty(), ..self }, self.wakeups)
    }
}

} // verus!
