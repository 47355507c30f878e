//! The channel itself: the state that the operations act on.

use std::collections::VecDeque;
use vstd::prelude::*;
use crate::errors::{
    RecvError, RecvTimeoutError, SendError, SendTimeoutError, TryRecvError, TrySendError,
};
use crate::model::{holds, tickets, State};
use crate::slot::{Side, Slot};
use crate::wait::{decide, wait_step, Resume, Step, Wait, Waiter};
use crate::wellformed::{
    lemma_close_wf, lemma_enlist_receiver_wf, lemma_enlist_sender_wf, lemma_hand_over_wf,
    lemma_only_position, lemma_position, lemma_recv_finish_wf, lemma_relieve_wf,
    lemma_send_finish_wf,
};

verus! {

/// A closable rendezvous channel.
///
/// The queue keeps the slots of the calls that wait, oldest first, and the
/// slots of the calls that were served or dismissed and have not returned
/// yet. It never holds a value that no call is waiting with.
pub struct Queue<T> {
    senders: VecDeque<Slot<T>>,
    receivers: VecDeque<Slot<T>>,
    detached: Vec<Slot<T>>,
    wakeups: Vec<u64>,
    closed: bool,
    senders_len: usize,
    receivers_len: usize,
    issued: u64,
}

impl<T> View for Queue<T> {
    type V = State<T>;

    closed spec fn view(&self) -> State<T> {
        State {
            closed: self.closed,
            senders: self.senders@,
            receivers: self.receivers@,
            detached: self.detached@,
            wakeups: self.wakeups@,
            senders_len: self.senders_len as nat,
            receivers_len: self.receivers_len as nat,
            issued: self.issued as nat,
        }
    }
}

/// The index in `slots` of the slot that carries `ticket`.
fn find<T>(slots: &Vec<Slot<T>>, ticket: u64) -> (found: Option<usize>)
    ensures
        match found {
            Some(i) => i < slots@.len() && slots@[i as int].ticket == ticket,
            None => !holds(slots@, ticket),
        },
{
    let mut i: usize = 0;
    while i < slots.len()
        invariant
            i <= slots@.len(),
            forall|k: int| 0 <= k < i ==> (#[trigger] slots@[k]).ticket != ticket,
        decreases slots@.len() - i,
    {
        if slots[i].ticket == ticket {
            return Some(i);
        }
        i += 1;
    }
    None
}

/// The index in the wait queue `slots` of the slot that carries `ticket`.
fn find_queued<T>(slots: &VecDeque<Slot<T>>, ticket: u64) -> (found: Option<usize>)
    ensures
        match found {
            Some(i) => i < slots@.len() && slots@[i as int].ticket == ticket,
            None => !holds(slots@, ticket),
        },
{
    let mut i: usize = 0;
    while i < slots.len()
        invariant
            i <= slots@.len(),
            forall|k: int| 0 <= k < i ==> (#[trigger] slots@[k]).ticket != ticket,
        decreases slots@.len() - i,
    {
        if slots[i].ticket == ticket {
            return Some(i);
        }
        i += 1;
    }
    None
}

impl<T> Queue<T> {
    /// The queue is in a state that the operations reach.
    pub open spec fn wf(&self) -> bool {
        self@.wf()
    }

    /// An open channel on which nobody waits.
    pub fn new() -> (queue: Self)
        ensures
            queue.wf(),
            queue@ == State::<T>::initial(),
    {
        Queue {
            senders: VecDeque::new(),
            receivers: VecDeque::new(),
            detached: Vec::new(),
            wakeups: Vec::new(),
            closed: false,
            senders_len: 0,
            receivers_len: 0,
            issued: 0,
        }
    }

    /// Whether the channel has been closed.
    pub fn is_closed(&self) -> (closed: bool)
        ensures
            closed == self@.closed,
    {
        self.closed
    }

    /// Whether another call can register to wait: tickets are left.
    pub fn has_tickets(&self) -> (left: bool)
        ensures
            left == (self@.issued < u64::MAX),
    {
        self.issued < u64::MAX
    }

    /// Gives `value` to the oldest waiting receiver and signals it.
    fn hand_over(&mut self, value: T)
        requires
            old(self).wf(),
            old(self)@.receivers.len() > 0,
        ensures
            final(self).wf(),
            final(self)@ == old(self)@.hand_over(value),
    {
        let mut slot = self.receivers.pop_front().unwrap();
        let wake: u64 = slot.put(value);
        self.wakeups.push(wake);
        self.detached.push(slot);
        self.receivers_len = self.receivers.len();
        proof {
            assert(self@ =~= old(self)@.hand_over(value));
            lemma_hand_over_wf(old(self)@, value);
        }
    }

    /// Takes the value of the oldest waiting sender and signals it.
    fn relieve(&mut self) -> (value: T)
        requires
            old(self).wf(),
            old(self)@.senders.len() > 0,
        ensures
            final(self).wf(),
            final(self)@ == old(self)@.relieve(),
            value == old(self)@.senders[0].cell->0,
    {
        let mut slot = self.senders.pop_front().unwrap();
        self.senders_len = self.senders.len();
        assert(slot == old(self)@.senders[0]);
        assert(slot.queued() && slot.side is Sender);
        let (value, wake) = slot.take();
        self.wakeups.push(wake);
        self.detached.push(slot);
        proof {
            assert(self@ =~= old(self)@.relieve());
            lemma_relieve_wf(old(self)@);
        }
        value
    }

    /// Sends without waiting: `value` goes to the oldest waiting receiver,
    /// or comes back at once.
    pub fn try_send(&mut self, value: T) -> (result: Result<(), TrySendError<T>>)
        requires
            old(self).wf(),
        ensures
            final(self).wf(),
            (final(self)@, result) == old(self)@.try_send(value),
    {
        if self.closed {
            return Err(TrySendError::Disconnected(value));
        }
        // The hint spares the look at the queue; the queue decides.
        if self.receivers_len == 0 {
            return Err(TrySendError::Full(value));
        }
        if self.receivers.len() > 0 {
            self.hand_over(value);
            Ok(())
        } else {
            Err(TrySendError::Full(value))
        }
    }

    /// Receives without waiting: the value of the oldest waiting sender,
    /// or a refusal at once.
    pub fn try_recv(&mut self) -> (result: Result<T, TryRecvError>)
        requires
            old(self).wf(),
        ensures
            final(self).wf(),
            (final(self)@, result) == old(self)@.try_recv(),
    {
        if self.closed {
            return Err(TryRecvError::Disconnected);
        }
        // The hint spares the look at the queue; the queue decides.
        if self.senders_len == 0 {
            return Err(TryRecvError::Empty);
        }
        if self.senders.len() > 0 {
            let value = self.relieve();
            Ok(value)
        } else {
            Err(TryRecvError::Empty)
        }
    }

    /// Starts a send that may wait until `deadline`, or without end where
    /// there is none.
    pub fn send_until(&mut self, value: T, deadline: Option<u64>) -> (step: Step<
        Result<(), SendTimeoutError<T>>,
    >)
        requires
            old(self).wf(),
            old(self)@.issued < u64::MAX,
        ensures
            final(self).wf(),
            (final(self)@, step) == old(self)@.send_until(value, deadline),
    {
        if self.closed {
            return Step::Done(Err(SendTimeoutError::Disconnected(value)));
        }
        if self.receivers.len() > 0 {
            self.hand_over(value);
            return Step::Done(Ok(()));
        }
        let ticket: u64 = self.issued;
        self.issued = ticket + 1;
        self.senders.push_back(Slot::sender(ticket, value));
        self.senders_len = self.senders.len();
        proof {
            assert(self@ =~= old(self)@.enlist_sender(value));
            lemma_enlist_sender_wf(old(self)@, value);
        }
        Step::Blocked(Waiter { ticket, deadline })
    }

    /// Starts a receive that may wait until `deadline`, or without end
    /// where there is none.
    pub fn recv_until(&mut self, deadline: Option<u64>) -> (step: Step<
        Result<T, RecvTimeoutError>,
    >)
        requires
            old(self).wf(),
            old(self)@.issued < u64::MAX,
        ensures
            final(self).wf(),
            (final(self)@, step) == old(self)@.recv_until(deadline),
    {
        if self.closed {
            return Step::Done(Err(RecvTimeoutError::Disconnected));
        }
        if self.senders.len() > 0 {
            let value = self.relieve();
            return Step::Done(Ok(value));
        }
        let ticket: u64 = self.issued;
        self.issued = ticket + 1;
        self.receivers.push_back(Slot::receiver(ticket));
        self.receivers_len = self.receivers.len();
        proof {
            assert(self@ =~= old(self)@.enlist_receiver());
            lemma_enlist_receiver_wf(old(self)@);
        }
        Step::Blocked(Waiter { ticket, deadline })
    }

    /// Tells a waiting call what to do at the instant `now`.
    pub fn poll(&self, waiter: &Waiter, now: u64) -> (next: Wait)
        requires
            self.wf(),
        ensures
            next == decide(self@.ready(waiter.ticket), self@.closed, waiter.deadline, now),
    {
        let ready = match find(&self.detached, waiter.ticket) {
            Some(i) => {
                proof {
                    lemma_position(self.detached@, waiter.ticket, i as int);
                    lemma_only_position(self.detached@, waiter.ticket);
                }
                self.detached[i].ready
            },
            None => false,
        };
        wait_step(ready, self.closed, waiter.deadline, now)
    }

    /// Whether `ticket` names a send that has not yet returned.
    pub fn sending(&self, ticket: u64) -> (found: bool)
        requires
            self.wf(),
        ensures
            found == self@.sending(ticket),
    {
        match find(&self.detached, ticket) {
            Some(i) => {
                proof {
                    lemma_position(self.detached@, ticket, i as int);
                    lemma_only_position(self.detached@, ticket);
                    assert(forall|k: int|
                        0 <= k < self.senders@.len() ==> (#[trigger] self.senders@[k]).ticket
                            != self.detached@[i as int].ticket);
                }
                match self.detached[i].side {
                    Side::Sender => true,
                    Side::Receiver => false,
                }
            },
            None => find_queued(&self.senders, ticket).is_some(),
        }
    }

    /// Whether `ticket` names a receive that has not yet returned.
    pub fn receiving(&self, ticket: u64) -> (found: bool)
        requires
            self.wf(),
        ensures
            found == self@.receiving(ticket),
    {
        match find(&self.detached, ticket) {
            Some(i) => {
                proof {
                    lemma_position(self.detached@, ticket, i as int);
                    lemma_only_position(self.detached@, ticket);
                    assert(forall|k: int|
                        0 <= k < self.receivers@.len() ==> (#[trigger] self.receivers@[k]).ticket
                            != self.detached@[i as int].ticket);
                }
                match self.detached[i].side {
                    Side::Sender => false,
                    Side::Receiver => true,
                }
            },
            None => find_queued(&self.receivers, ticket).is_some(),
        }
    }

    /// Ends the send that `ticket` names and removes its slot. The send
    /// succeeded where a receiver took the value; else the value comes
    /// back, as `Disconnected` on a closed channel and as `Timeout` on an
    /// open one.
    pub fn send_finish(&mut self, ticket: u64) -> (result: Result<(), SendTimeoutError<T>>)
        requires
            old(self).wf(),
            old(self)@.sending(ticket),
        ensures
            final(self).wf(),
            (final(self)@, result) == old(self)@.send_finish(ticket),
    {
        proof {
            lemma_send_finish_wf(self@, ticket);
        }
        match find(&self.detached, ticket) {
            Some(i) => {
                proof {
                    lemma_position(self.detached@, ticket, i as int);
                }
                let mut slot = self.detached.remove(i);
                assert(self@ =~= old(self)@.send_finish(ticket).0);
                if slot.ready {
                    Ok(())
                } else {
                    let (value, _) = slot.take();
                    if self.closed {
                        Err(SendTimeoutError::Disconnected(value))
                    } else {
                        Err(SendTimeoutError::Timeout(value))
                    }
                }
            },
            None => {
                let i = find_queued(&self.senders, ticket).unwrap();
                proof {
                    lemma_position(self.senders@, ticket, i as int);
                }
                let mut slot = self.senders.remove(i).unwrap();
                self.senders_len = self.senders.len();
                assert(self@ =~= old(self)@.send_finish(ticket).0);
                let (value, _) = slot.take();
                if self.closed {
                    Err(SendTimeoutError::Disconnected(value))
                } else {
                    Err(SendTimeoutError::Timeout(value))
                }
            },
        }
    }

    /// Ends the receive that `ticket` names and removes its slot. The
    /// receive succeeded where a sender filled the slot; else it failed,
    /// as `Disconnected` on a closed channel and as `Timeout` on an open
    /// one.
    pub fn recv_finish(&mut self, ticket: u64) -> (result: Result<T, RecvTimeoutError>)
        requires
            old(self).wf(),
            old(self)@.receiving(ticket),
        ensures
            final(self).wf(),
            (final(self)@, result) == old(self)@.recv_finish(ticket),
    {
        proof {
            lemma_recv_finish_wf(self@, ticket);
        }
        match find(&self.detached, ticket) {
            Some(i) => {
                proof {
                    lemma_position(self.detached@, ticket, i as int);
                }
                let mut slot = self.detached.remove(i);
                assert(self@ =~= old(self)@.recv_finish(ticket).0);
                if slot.ready {
                    let (value, _) = slot.take();
                    Ok(value)
                } else if self.closed {
                    Err(RecvTimeoutError::Disconnected)
                } else {
                    Err(RecvTimeoutError::Timeout)
                }
            },
            None => {
                let i = find_queued(&self.receivers, ticket).unwrap();
                proof {
                    lemma_position(self.receivers@, ticket, i as int);
                }
                let _ = self.receivers.remove(i);
                self.receivers_len = self.receivers.len();
                assert(self@ =~= old(self)@.recv_finish(ticket).0);
                if self.closed {
                    Err(RecvTimeoutError::Disconnected)
                } else {
                    Err(RecvTimeoutError::Timeout)
                }
            },
        }
    }

    /// Lets a waiting send take a look at the instant `now`. Where the wait
    /// goes on the channel stays as it is; where it is over, by service,
    /// closure or deadline, the send ends as `send_finish` says.
    pub fn send_resume(&mut self, waiter: &Waiter, now: u64) -> (next: Resume<
        Result<(), SendTimeoutError<T>>,
    >)
        requires
            old(self).wf(),
            old(self)@.sending(waiter.ticket),
        ensures
            final(self).wf(),
            (final(self)@, next) == old(self)@.send_resume(*waiter, now),
    {
        match self.poll(waiter, now) {
            Wait::Park(nap) => Resume::Park(nap),
            _ => Resume::Done(self.send_finish(waiter.ticket)),
        }
    }

    /// Lets a waiting receive take a look at the instant `now`. Where the
    /// wait goes on the channel stays as it is; where it is over, by
    /// service, closure or deadline, the receive ends as `recv_finish`
    /// says.
    pub fn recv_resume(&mut self, waiter: &Waiter, now: u64) -> (next: Resume<
        Result<T, RecvTimeoutError>,
    >)
        requires
            old(self).wf(),
            old(self)@.receiving(waiter.ticket),
        ensures
            final(self).wf(),
            (final(self)@, next) == old(self)@.recv_resume(*waiter, now),
    {
        match self.poll(waiter, now) {
            Wait::Park(nap) => Resume::Park(nap),
            _ => Resume::Done(self.recv_finish(waiter.ticket)),
        }
    }

    /// Starts a send that waits until a receiver comes or the channel is
    /// closed.
    pub fn send(&mut self, value: T) -> (step: Step<Result<(), SendError<T>>>)
        requires
            old(self).wf(),
            old(self)@.issued < u64::MAX,
        ensures
            final(self).wf(),
            final(self)@ == old(self)@.send_until(value, None).0,
            step == unbounded_send(old(self)@.send_until(value, None).1),
    {
        match self.send_until(value, None) {
            Step::Done(Ok(())) => Step::Done(Ok(())),
            Step::Done(Err(SendTimeoutError::Disconnected(v))) => Step::Done(Err(SendError(v))),
            Step::Done(Err(SendTimeoutError::Timeout(v))) => Step::Done(Err(SendError(v))),
            Step::Blocked(waiter) => Step::Blocked(waiter),
        }
    }

    /// Starts a send that waits for at most `dur` from the instant `now`.
    pub fn send_timeout(&mut self, value: T, now: u64, dur: u64) -> (step: Step<
        Result<(), SendTimeoutError<T>>,
    >)
        requires
            old(self).wf(),
            old(self)@.issued < u64::MAX,
            now + dur <= u64::MAX,
        ensures
            final(self).wf(),
            (final(self)@, step) == old(self)@.send_until(value, Some((now + dur) as u64)),
    {
        self.send_until(value, Some(now + dur))
    }

    /// Starts a receive that waits until a sender comes or the channel is
    /// closed.
    pub fn recv(&mut self) -> (step: Step<Result<T, RecvError>>)
        requires
            old(self).wf(),
            old(self)@.issued < u64::MAX,
        ensures
            final(self).wf(),
            final(self)@ == old(self)@.recv_until(None).0,
            step == unbounded_recv(old(self)@.recv_until(None).1),
    {
        match self.recv_until(None) {
            Step::Done(Ok(v)) => Step::Done(Ok(v)),
            Step::Done(Err(_)) => Step::Done(Err(RecvError)),
            Step::Blocked(waiter) => Step::Blocked(waiter),
        }
    }

    /// Starts a receive that waits for at most `dur` from the instant
    /// `now`.
    pub fn recv_timeout(&mut self, now: u64, dur: u64) -> (step: Step<Result<T, RecvTimeoutError>>)
        requires
            old(self).wf(),
            old(self)@.issued < u64::MAX,
            now + dur <= u64::MAX,
        ensures
            final(self).wf(),
            (final(self)@, step) == old(self)@.recv_until(Some((now + dur) as u64)),
    {
        self.recv_until(Some(now + dur))
    }

    /// Closes the channel. Only the first call does: it dismisses and wakes
    /// every waiting call and returns `true`.
    pub fn close(&mut self) -> (first: bool)
        requires
            old(self).wf(),
        ensures
            final(self).wf(),
            (final(self)@, first) == old(self)@.close(),
    {
        if self.closed {
            return false;
        }
        let ghost pre = self@;
        self.closed = true;
        while self.senders.len() > 0
            invariant
                self.closed,
                self.receivers@ == pre.receivers,
                self.issued == pre.issued,
                self.detached@ + self.senders@ =~= pre.detached + pre.senders,
                self.wakeups@ + tickets(self.senders@) =~= pre.wakeups + tickets(pre.senders),
            decreases self.senders@.len(),
        {
            let ghost before = *self;
            let slot = self.senders.pop_front().unwrap();
            self.wakeups.push(slot.ticket);
            self.detached.push(slot);
            assert(self.detached@ + self.senders@ =~= before.detached@ + before.senders@);
            assert(self.wakeups@ + tickets(self.senders@) =~= before.wakeups@ + tickets(
                before.senders@,
            ));
        }
        while self.receivers.len() > 0
            invariant
                self.closed,
                self.senders@.len() == 0,
                self.issued == pre.issued,
                self.detached@ + self.receivers@ =~= pre.detached + pre.senders + pre.receivers,
                self.wakeups@ + tickets(self.receivers@) =~= pre.wakeups + tickets(pre.senders)
                    + tickets(pre.receivers),
            decreases self.receivers@.len(),
        {
            let ghost before = *self;
            let slot = self.receivers.pop_front().unwrap();
            self.wakeups.push(slot.ticket);
            self.detached.push(slot);
            assert(self.detached@ + self.receivers@ =~= before.detached@ + before.receivers@);
            assert(self.wakeups@ + tickets(self.receivers@) =~= before.wakeups@ + tickets(
                before.receivers@,
            ));
        }
        self.receivers_len = self.receivers.len();
        self.senders_len = self.senders.len();
        proof {
            assert(self.detached@ =~= self.detached@ + self.receivers@);
            assert(self.wakeups@ =~= self.wakeups@ + tickets(self.receivers@));
            assert(self@.senders =~= pre.close().0.senders);
            assert(self@.receivers =~= pre.close().0.receivers);
            assert(self@ =~= pre.close().0);
            lemma_close_wf(pre);
        }
        true
    }

    /// Hands out the tickets of the calls to wake, oldest signal first, and
    /// forgets them.
    pub fn take_wakeups(&mut self) -> (wakeups: Vec<u64>)
        ensures
            old(self).wf() ==> final(self).wf(),
            (final(self)@, wakeups@) == old(self)@.take_wakeups(),
    {
        let mut wakeups: Vec<u64> = Vec::new();
        std::mem::swap(&mut self.wakeups, &mut wakeups);
        wakeups
    }

    /// Whether nobody waits: both wait queues are empty and both length
    /// hints are zero.
    pub fn is_idle(&self) -> (idle: bool)
        ensures
            idle == (self@.senders.len() == 0 && self@.receivers.len() == 0 && self@.senders_len
                == 0 && self@.receivers_len == 0),
    {
        self.senders.len() == 0 && self.receivers.len() == 0 && self.senders_len == 0
            && self.receivers_len == 0
    }
}

/// What the start of a send with a deadline means for one without.
pub open spec fn unbounded_send<T>(step: Step<Result<(), SendTimeoutError<T>>>) -> Step<
    Result<(), SendError<T>>,
> {
    match step {
        Step::Done(Ok(())) => Step::Done(Ok(())),
        Step::Done(Err(e)) => Step::Done(Err(SendError(e.value()))),
        Step::Blocked(waiter) => Step::Blocked(waiter),
    }
}

/// What the start of a receive with a deadline means for one without.
pub open spec fn unbounded_recv<T>(step: Step<Result<T, RecvTimeoutError>>) -> Step<
    Result<T, RecvError>,
> {
    match step {
        Step::Done(Ok(v)) => Step::Done(Ok(v)),
        Step::Done(Err(_)) => Step::Done(Err(RecvError)),
        Step::Blocked(waiter) => Step::Blocked(waiter),
    }
}

} // verus!
