//! The rules of the channel on small concrete runs.

use rendezvous::wait::wait_step;
use rendezvous::{
    Queue, RecvError, RecvTimeoutError, Resume, SendError, SendTimeoutError, Side, Slot, Step,
    TryRecvError, TrySendError, Wait, Waiter,
};

fn waiter<R: std::fmt::Debug>(step: Step<R>) -> Waiter {
    match step {
        Step::Blocked(waiter) => waiter,
        Step::Done(result) => panic!("the call did not wait: {:?}", result),
    }
}

fn result<R>(step: Step<R>) -> R {
    match step {
        Step::Done(result) => result,
        Step::Blocked(waiter) => panic!("the call waits: {:?}", waiter),
    }
}

#[test]
fn fresh_queue_is_open_and_idle() {
    let q = Queue::<u8>::new();
    assert!(!q.is_closed());
    assert!(q.is_idle());
    assert!(q.has_tickets());
    assert!(!q.sending(0));
    assert!(!q.receiving(0));
}

#[test]
fn tickets_are_issued_in_order() {
    let mut q = Queue::new();
    assert_eq!(q.send(1), Step::Blocked(Waiter { ticket: 0, deadline: None }));
    assert_eq!(q.send_timeout(2, 5, 10), Step::Blocked(Waiter { ticket: 1, deadline: Some(15) }));
    assert_eq!(
        q.send_until(3, Some(40)),
        Step::Blocked(Waiter { ticket: 2, deadline: Some(40) })
    );
    assert_eq!(q.send_finish(1), Err(SendTimeoutError::Timeout(2)));
    assert_eq!(q.send(4), Step::Blocked(Waiter { ticket: 3, deadline: None }));
}

#[test]
fn receivers_get_tickets_too() {
    let mut q = Queue::<u8>::new();
    assert_eq!(q.recv(), Step::Blocked(Waiter { ticket: 0, deadline: None }));
    assert_eq!(q.recv_timeout(7, 3), Step::Blocked(Waiter { ticket: 1, deadline: Some(10) }));
    assert_eq!(q.recv_until(Some(9)), Step::Blocked(Waiter { ticket: 2, deadline: Some(9) }));
    assert!(q.receiving(0) && q.receiving(1) && q.receiving(2));
    assert!(!q.sending(0));
    assert!(!q.receiving(3));
}

#[test]
fn senders_are_served_oldest_first() {
    let mut q = Queue::new();
    let a = waiter(q.send("a"));
    let b = waiter(q.send("b"));
    let c = waiter(q.send("c"));
    assert_eq!(q.try_recv(), Ok("a"));
    assert_eq!(q.poll(&a, 0), Wait::Ready);
    assert_eq!(q.poll(&b, 0), Wait::Park(None));
    assert_eq!(result(q.recv()), Ok("b"));
    assert_eq!(result(q.recv_timeout(0, 1)), Ok("c"));
    assert_eq!(q.take_wakeups(), vec![a.ticket, b.ticket, c.ticket]);
    assert_eq!(q.send_finish(c.ticket), Ok(()));
    assert_eq!(q.send_finish(a.ticket), Ok(()));
    assert_eq!(q.send_finish(b.ticket), Ok(()));
    assert_eq!(q.try_recv(), Err(TryRecvError::Empty));
}

#[test]
fn receivers_are_served_oldest_first() {
    let mut q = Queue::new();
    let a = waiter(q.recv());
    let b = waiter(q.recv());
    let c = waiter(q.recv());
    assert_eq!(q.try_send(1), Ok(()));
    assert_eq!(result(q.send(2)), Ok(()));
    assert_eq!(result(q.send_timeout(3, 0, 1)), Ok(()));
    assert_eq!(q.take_wakeups(), vec![a.ticket, b.ticket, c.ticket]);
    assert_eq!(q.recv_finish(b.ticket), Ok(2));
    assert_eq!(q.recv_finish(c.ticket), Ok(3));
    assert_eq!(q.recv_finish(a.ticket), Ok(1));
    assert_eq!(q.try_send(4), Err(TrySendError::Full(4)));
}

#[test]
fn giving_up_keeps_the_others_in_order() {
    let mut q = Queue::new();
    let a = waiter(q.send(10));
    let b = waiter(q.send_timeout(20, 0, 5));
    let c = waiter(q.send(30));
    assert_eq!(q.poll(&b, 5), Wait::Cancel);
    assert_eq!(q.send_finish(b.ticket), Err(SendTimeoutError::Timeout(20)));
    assert!(!q.sending(b.ticket));
    assert_eq!(q.try_recv(), Ok(10));
    assert_eq!(q.try_recv(), Ok(30));
    assert_eq!(q.try_recv(), Err(TryRecvError::Empty));
    assert_eq!(q.send_finish(a.ticket), Ok(()));
    assert_eq!(q.send_finish(c.ticket), Ok(()));
    assert!(q.is_idle());
}

#[test]
fn a_receiver_that_gave_up_is_not_served() {
    let mut q = Queue::new();
    let a = waiter(q.recv_timeout(0, 5));
    let b = waiter(q.recv());
    assert_eq!(q.recv_finish(a.ticket), Err(RecvTimeoutError::Timeout));
    assert_eq!(q.try_send(1), Ok(()));
    assert_eq!(q.take_wakeups(), vec![b.ticket]);
    assert_eq!(q.recv_finish(b.ticket), Ok(1));
    assert_eq!(q.try_send(2), Err(TrySendError::Full(2)));
}

#[test]
fn a_served_call_wins_over_its_deadline() {
    let mut q = Queue::new();
    let a = waiter(q.send_timeout(7, 0, 100));
    assert_eq!(q.try_recv(), Ok(7));
    // Long after the deadline the send still ends well.
    assert_eq!(q.poll(&a, 1_000), Wait::Ready);
    assert_eq!(q.send_finish(a.ticket), Ok(()));

    let b = waiter(q.recv_timeout(0, 100));
    assert_eq!(q.try_send(8), Ok(()));
    q.close();
    assert_eq!(q.poll(&b, 1_000), Wait::Ready);
    assert_eq!(q.recv_finish(b.ticket), Ok(8));
}

#[test]
fn the_wait_counts_down_to_the_deadline() {
    let mut q = Queue::<u8>::new();
    let a = waiter(q.recv_timeout(1_000, 250));
    assert_eq!(a.deadline, Some(1_250));
    assert_eq!(q.poll(&a, 1_000), Wait::Park(Some(250)));
    assert_eq!(q.poll(&a, 1_100), Wait::Park(Some(150)));
    assert_eq!(q.poll(&a, 1_249), Wait::Park(Some(1)));
    assert_eq!(q.poll(&a, 1_250), Wait::Cancel);
    assert_eq!(q.poll(&a, 9_999), Wait::Cancel);
    assert_eq!(q.recv_finish(a.ticket), Err(RecvTimeoutError::Timeout));
}

#[test]
fn the_wait_decides_readiness_first() {
    assert_eq!(wait_step(true, true, Some(5), 9), Wait::Ready);
    assert_eq!(wait_step(true, false, None, 0), Wait::Ready);
    assert_eq!(wait_step(false, true, Some(5), 1), Wait::Cancel);
    assert_eq!(wait_step(false, true, None, 1), Wait::Cancel);
    assert_eq!(wait_step(false, false, Some(5), 5), Wait::Cancel);
    assert_eq!(wait_step(false, false, Some(5), 6), Wait::Cancel);
    assert_eq!(wait_step(false, false, Some(5), 2), Wait::Park(Some(3)));
    assert_eq!(wait_step(false, false, Some(u64::MAX), 0), Wait::Park(Some(u64::MAX)));
    assert_eq!(wait_step(false, false, None, u64::MAX), Wait::Park(None));
}

#[test]
fn a_zero_timeout_gives_up_at_once() {
    let mut q = Queue::new();
    let a = waiter(q.send_timeout(5, 40, 0));
    assert_eq!(q.poll(&a, 40), Wait::Cancel);
    assert_eq!(q.send_finish(a.ticket), Err(SendTimeoutError::Timeout(5)));
}

#[test]
fn the_longest_timeout_fits() {
    let mut q = Queue::<u8>::new();
    let a = waiter(q.recv_timeout(1, u64::MAX - 1));
    assert_eq!(a.deadline, Some(u64::MAX));
    assert_eq!(q.poll(&a, 1), Wait::Park(Some(u64::MAX - 1)));
}

#[test]
fn close_dismisses_waiting_senders() {
    let mut q = Queue::new();
    let a = waiter(q.send(1));
    let b = waiter(q.send_timeout(2, 0, 50));
    assert!(q.close());
    assert_eq!(q.take_wakeups(), vec![a.ticket, b.ticket]);
    assert!(q.is_idle());
    assert!(q.sending(a.ticket) && q.sending(b.ticket));
    // No receiver can take what they brought.
    assert_eq!(q.try_recv(), Err(TryRecvError::Disconnected));
    assert_eq!(q.poll(&a, 10), Wait::Cancel);
    assert_eq!(q.poll(&b, 10), Wait::Cancel);
    assert_eq!(q.send_finish(b.ticket), Err(SendTimeoutError::Disconnected(2)));
    assert_eq!(q.send_finish(a.ticket), Err(SendTimeoutError::Disconnected(1)));
    assert!(!q.sending(a.ticket) && !q.sending(b.ticket));
}

#[test]
fn close_dismisses_waiting_receivers() {
    let mut q = Queue::<u8>::new();
    let a = waiter(q.recv());
    let b = waiter(q.recv_timeout(0, 50));
    assert!(q.close());
    assert_eq!(q.take_wakeups(), vec![a.ticket, b.ticket]);
    assert_eq!(q.try_send(1), Err(TrySendError::Disconnected(1)));
    assert_eq!(q.poll(&a, 10), Wait::Cancel);
    assert_eq!(q.poll(&b, 60), Wait::Cancel);
    assert_eq!(q.recv_finish(a.ticket), Err(RecvTimeoutError::Disconnected));
    assert_eq!(q.recv_finish(b.ticket), Err(RecvTimeoutError::Disconnected));
    assert!(!q.receiving(a.ticket) && !q.receiving(b.ticket));
}

#[test]
fn close_does_not_raise_readiness() {
    let mut q = Queue::new();
    let a = waiter(q.send(1));
    q.close();
    assert_ne!(q.poll(&a, 0), Wait::Ready);
}

#[test]
fn only_the_first_close_closes() {
    let mut q = Queue::<u8>::new();
    assert!(!q.is_closed());
    assert!(q.close());
    assert!(q.is_closed());
    assert!(!q.close());
    assert!(!q.close());
    assert!(q.is_closed());
    assert_eq!(q.take_wakeups(), Vec::<u64>::new());
}

#[test]
fn a_closed_channel_refuses_every_call() {
    let mut q = Queue::new();
    q.close();
    assert_eq!(q.try_send(1), Err(TrySendError::Disconnected(1)));
    assert_eq!(q.try_recv(), Err(TryRecvError::Disconnected));
    assert_eq!(q.send(2), Step::Done(Err(SendError(2))));
    assert_eq!(q.send_timeout(3, 0, 10), Step::Done(Err(SendTimeoutError::Disconnected(3))));
    assert_eq!(q.send_until(4, None), Step::Done(Err(SendTimeoutError::Disconnected(4))));
    assert_eq!(q.recv(), Step::Done(Err(RecvError)));
    assert_eq!(q.recv_timeout(0, 10), Step::Done(Err(RecvTimeoutError::Disconnected)));
    assert_eq!(q.recv_until(None), Step::Done(Err(RecvTimeoutError::Disconnected)));
    assert!(q.is_idle());
    assert_eq!(q.take_wakeups(), Vec::<u64>::new());
}

#[test]
fn a_transfer_made_before_close_survives_it() {
    let mut q = Queue::new();
    let a = waiter(q.recv());
    assert_eq!(q.try_send(5), Ok(()));
    let b = waiter(q.send(6));
    q.close();
    assert_eq!(q.recv_finish(a.ticket), Ok(5));
    assert_eq!(q.send_finish(b.ticket), Err(SendTimeoutError::Disconnected(6)));
}

#[test]
fn every_value_is_received_or_handed_back() {
    let mut q = Queue::new();
    let mut received: Vec<u32> = Vec::new();
    let mut returned: Vec<u32> = Vec::new();

    // 1 finds nobody.
    if let Err(TrySendError::Full(v)) = q.try_send(1) {
        returned.push(v);
    }
    // 2 and 3 wait; 2 is taken, 3 gives up.
    let s2 = waiter(q.send(2));
    let s3 = waiter(q.send_timeout(3, 0, 1));
    received.push(q.try_recv().unwrap());
    assert_eq!(q.send_finish(s2.ticket), Ok(()));
    if let Err(e) = q.send_finish(s3.ticket) {
        assert_eq!(e, SendTimeoutError::Timeout(3));
        returned.push(3);
    }
    // 4 is handed to a waiting receiver.
    let r = waiter(q.recv());
    assert_eq!(q.try_send(4), Ok(()));
    received.push(q.recv_finish(r.ticket).unwrap());
    // 5 waits through the close, 6 comes too late.
    let s5 = waiter(q.send(5));
    q.close();
    if let Err(SendTimeoutError::Disconnected(v)) = q.send_finish(s5.ticket) {
        returned.push(v);
    }
    if let Step::Done(Err(SendError(v))) = q.send(6) {
        returned.push(v);
    }

    assert_eq!(received, vec![2, 4]);
    assert_eq!(returned, vec![1, 3, 5, 6]);
    assert!(q.is_idle());
}

#[test]
fn the_queue_is_idle_once_every_call_is_over() {
    let mut q = Queue::new();
    let a = waiter(q.send(1));
    assert!(!q.is_idle());
    assert_eq!(q.send_finish(a.ticket), Err(SendTimeoutError::Timeout(1)));
    assert!(q.is_idle());
    let b = waiter(q.recv());
    assert!(!q.is_idle());
    assert_eq!(q.try_send(2), Ok(()));
    assert!(q.is_idle());
    assert_eq!(q.recv_finish(b.ticket), Ok(2));
    assert!(q.is_idle());
    assert!(!q.sending(a.ticket));
    assert!(!q.receiving(b.ticket));
}

#[test]
fn the_wake_list_is_handed_out_once() {
    let mut q = Queue::new();
    let a = waiter(q.recv());
    assert_eq!(q.take_wakeups(), Vec::<u64>::new());
    assert_eq!(q.try_send(1), Ok(()));
    assert_eq!(q.take_wakeups(), vec![a.ticket]);
    assert_eq!(q.take_wakeups(), Vec::<u64>::new());
    assert_eq!(q.recv_finish(a.ticket), Ok(1));
    assert_eq!(q.take_wakeups(), Vec::<u64>::new());
}

#[test]
fn polling_an_unknown_ticket_waits() {
    let q = Queue::<u8>::new();
    let stranger = Waiter { ticket: 99, deadline: Some(10) };
    assert_eq!(q.poll(&stranger, 4), Wait::Park(Some(6)));
    assert_eq!(q.poll(&stranger, 10), Wait::Cancel);
}

#[test]
fn a_slot_is_filled_and_emptied_once() {
    let mut slot = Slot::receiver(3);
    assert_eq!(slot.side, Side::Receiver);
    assert_eq!(slot.cell, None::<u8>);
    assert!(!slot.ready);
    assert_eq!(slot.put(9), 3);
    assert_eq!(slot.cell, Some(9));
    assert!(slot.ready);
    assert_eq!(slot.take(), (9, 3));
    assert_eq!(slot.cell, None);

    let mut slot = Slot::sender(4, 'x');
    assert_eq!(slot.side, Side::Sender);
    assert_eq!(slot.cell, Some('x'));
    assert!(!slot.ready);
    assert_eq!(slot.take(), ('x', 4));
    assert_eq!(slot.cell, None);
    assert!(slot.ready);

    let mut slot = Slot::sender(5, 'y');
    assert_eq!(slot.signal(), 5);
    assert!(slot.ready);
    assert_eq!(slot.cell, Some('y'));
}

#[test]
fn a_send_that_looks_too_early_sleeps_on() {
    let mut q = Queue::new();
    let a = waiter(q.send_timeout(7, 10, 90));
    assert_eq!(q.send_resume(&a, 10), Resume::Park(Some(90)));
    assert_eq!(q.send_resume(&a, 99), Resume::Park(Some(1)));
    assert!(q.sending(a.ticket));
    assert_eq!(q.send_resume(&a, 100), Resume::Done(Err(SendTimeoutError::Timeout(7))));
    assert!(!q.sending(a.ticket));
    assert!(q.is_idle());
}

#[test]
fn a_send_without_deadline_ends_only_served_or_closed() {
    let mut q = Queue::new();
    let a = waiter(q.send(1));
    let b = waiter(q.send(2));
    assert_eq!(q.send_resume(&a, u64::MAX), Resume::Park(None));
    assert_eq!(q.try_recv(), Ok(1));
    assert_eq!(q.send_resume(&a, 0), Resume::Done(Ok(())));
    assert_eq!(q.send_resume(&b, 0), Resume::Park(None));
    q.close();
    assert_eq!(q.send_resume(&b, 0), Resume::Done(Err(SendTimeoutError::Disconnected(2))));
}

#[test]
fn a_receive_that_looks_too_early_sleeps_on() {
    let mut q = Queue::<u8>::new();
    let a = waiter(q.recv_timeout(10, 90));
    assert_eq!(q.recv_resume(&a, 10), Resume::Park(Some(90)));
    assert_eq!(q.recv_resume(&a, 99), Resume::Park(Some(1)));
    assert!(q.receiving(a.ticket));
    assert_eq!(q.recv_resume(&a, 100), Resume::Done(Err(RecvTimeoutError::Timeout)));
    assert!(!q.receiving(a.ticket));
    assert!(q.is_idle());
}

#[test]
fn a_receive_without_deadline_ends_only_served_or_closed() {
    let mut q = Queue::new();
    let a = waiter(q.recv());
    let b = waiter(q.recv());
    assert_eq!(q.recv_resume(&a, u64::MAX), Resume::Park(None));
    assert_eq!(q.try_send(1), Ok(()));
    assert_eq!(q.recv_resume(&a, 0), Resume::Done(Ok(1)));
    assert_eq!(q.recv_resume(&b, 0), Resume::Park(None));
    q.close();
    assert_eq!(q.recv_resume(&b, 0), Resume::Done(Err(RecvTimeoutError::Disconnected)));
}
