//! Two-party and many-party schedules, written out step by step. Time is
//! counted in milliseconds from the start of each schedule.

use rendezvous::{
    Queue, RecvError, RecvTimeoutError, SendError, SendTimeoutError, Step, TryRecvError,
    TrySendError, Wait, Waiter,
};

fn blocked<R: std::fmt::Debug>(step: Step<R>) -> Waiter {
    match step {
        Step::Blocked(waiter) => waiter,
        Step::Done(result) => panic!("the call did not wait: {:?}", result),
    }
}

fn done<R>(step: Step<R>) -> R {
    match step {
        Step::Done(result) => result,
        Step::Blocked(waiter) => panic!("the call waits: {:?}", waiter),
    }
}

#[test]
fn smoke() {
    let mut q = Queue::new();
    assert_eq!(q.try_send(7), Err(TrySendError::Full(7)));
    assert_eq!(q.try_recv(), Err(TryRecvError::Empty));
}

#[test]
fn recv() {
    let mut q = Queue::new();

    // The receiver comes first and waits.
    let a = blocked(q.recv());
    assert_eq!(q.poll(&a, 0), Wait::Park(None));
    // At 150 the sender comes and finds it.
    assert_eq!(done(q.send(7)), Ok(()));
    assert_eq!(q.take_wakeups(), vec![a.ticket]);
    assert_eq!(q.poll(&a, 150), Wait::Ready);
    assert_eq!(q.recv_finish(a.ticket), Ok(7));

    // The sender is back before the receiver and waits in its turn.
    let b = blocked(q.send(8));
    assert_eq!(done(q.recv()), Ok(8));
    assert_eq!(q.take_wakeups(), vec![b.ticket]);
    assert_eq!(q.poll(&b, 250), Wait::Ready);
    assert_eq!(q.send_finish(b.ticket), Ok(()));

    let b = blocked(q.send(9));
    assert_eq!(done(q.recv()), Ok(9));
    assert_eq!(q.send_finish(b.ticket), Ok(()));
    q.close();

    assert_eq!(done(q.recv()), Err(RecvError));
}

#[test]
fn recv_timeout() {
    let mut q = Queue::new();

    let a = blocked(q.recv_timeout(0, 100));
    assert_eq!(q.poll(&a, 0), Wait::Park(Some(100)));
    assert_eq!(q.poll(&a, 100), Wait::Cancel);
    assert_eq!(q.recv_finish(a.ticket), Err(RecvTimeoutError::Timeout));

    let a = blocked(q.recv_timeout(100, 100));
    assert_eq!(q.poll(&a, 100), Wait::Park(Some(100)));
    // At 150 the sender comes.
    assert_eq!(done(q.send(7)), Ok(()));
    q.close();
    assert_eq!(q.poll(&a, 150), Wait::Ready);
    assert_eq!(q.recv_finish(a.ticket), Ok(7));

    assert_eq!(done(q.recv_timeout(150, 100)), Err(RecvTimeoutError::Disconnected));
}

#[test]
fn try_recv() {
    let mut q = Queue::new();

    assert_eq!(q.try_recv(), Err(TryRecvError::Empty));
    // At 100 the sender comes and waits.
    let b = blocked(q.send(7));
    // At 150 the receiver looks again.
    assert_eq!(q.try_recv(), Ok(7));
    assert_eq!(q.send_finish(b.ticket), Ok(()));
    q.close();
    assert_eq!(q.try_recv(), Err(TryRecvError::Disconnected));
}

#[test]
fn send() {
    let mut q = Queue::new();

    // The sender comes first and waits.
    let a = blocked(q.send(7));
    assert_eq!(q.poll(&a, 0), Wait::Park(None));
    // At 150 the receiver comes and finds it.
    assert_eq!(done(q.recv()), Ok(7));
    assert_eq!(q.take_wakeups(), vec![a.ticket]);
    assert_eq!(q.poll(&a, 150), Wait::Ready);
    assert_eq!(q.send_finish(a.ticket), Ok(()));

    // The receiver is back before the sender and waits in its turn.
    let b = blocked(q.recv());
    assert_eq!(done(q.send(8)), Ok(()));
    assert_eq!(q.recv_finish(b.ticket), Ok(8));

    let b = blocked(q.recv());
    assert_eq!(done(q.send(9)), Ok(()));
    assert_eq!(q.recv_finish(b.ticket), Ok(9));
    q.close();

    assert_eq!(done(q.send(10)), Err(SendError(10)));
}

#[test]
fn send_timeout() {
    let mut q = Queue::new();

    let a = blocked(q.send_timeout(7, 0, 100));
    assert_eq!(q.poll(&a, 0), Wait::Park(Some(100)));
    assert_eq!(q.poll(&a, 100), Wait::Cancel);
    assert_eq!(q.send_finish(a.ticket), Err(SendTimeoutError::Timeout(7)));

    let a = blocked(q.send_timeout(8, 100, 100));
    assert_eq!(q.poll(&a, 100), Wait::Park(Some(100)));
    // At 150 the receiver comes.
    assert_eq!(done(q.recv()), Ok(8));
    q.close();
    assert_eq!(q.poll(&a, 150), Wait::Ready);
    assert_eq!(q.send_finish(a.ticket), Ok(()));

    assert_eq!(done(q.send_timeout(9, 150, 100)), Err(SendTimeoutError::Disconnected(9)));
}

#[test]
fn try_send() {
    let mut q = Queue::new();

    assert_eq!(q.try_send(7), Err(TrySendError::Full(7)));
    // At 100 the receiver comes and waits.
    let b = blocked(q.recv());
    // At 150 the sender tries again.
    assert_eq!(q.try_send(8), Ok(()));
    assert_eq!(q.recv_finish(b.ticket), Ok(8));
    q.close();
    assert_eq!(q.try_send(9), Err(TrySendError::Disconnected(9)));
}

#[test]
fn is_closed() {
    let mut q = Queue::<()>::new();

    assert!(!q.is_closed());
    assert!(!q.is_closed());
    q.close();
    assert!(q.is_closed());
    assert!(q.is_closed());
}

#[test]
fn close_signals_sender() {
    let mut q = Queue::new();

    let a = blocked(q.send(()));
    assert_eq!(q.poll(&a, 0), Wait::Park(None));
    // At 100 the channel is closed.
    q.close();
    assert_eq!(q.take_wakeups(), vec![a.ticket]);
    assert_eq!(q.poll(&a, 100), Wait::Cancel);
    assert_eq!(q.send_finish(a.ticket), Err(SendTimeoutError::Disconnected(())));
    assert!(q.is_closed());
}

#[test]
fn close_signals_receiver() {
    let mut q = Queue::<()>::new();

    let a = blocked(q.recv());
    assert_eq!(q.poll(&a, 0), Wait::Park(None));
    // At 100 the channel is closed.
    q.close();
    assert_eq!(q.take_wakeups(), vec![a.ticket]);
    assert_eq!(q.poll(&a, 100), Wait::Cancel);
    assert_eq!(q.recv_finish(a.ticket), Err(RecvTimeoutError::Disconnected));
    assert!(q.is_closed());
}

#[test]
fn spsc() {
    const COUNT: usize = 100_000;

    let mut q = Queue::new();

    // The two ends take turns in coming first.
    for i in 0..COUNT {
        if i % 2 == 0 {
            let receiver = blocked(q.recv());
            assert_eq!(done(q.send(i)), Ok(()));
            assert_eq!(q.recv_finish(receiver.ticket), Ok(i));
        } else {
            let sender = blocked(q.send(i));
            assert_eq!(done(q.recv()), Ok(i));
            assert_eq!(q.send_finish(sender.ticket), Ok(()));
        }
    }
    q.close();
    assert_eq!(done(q.recv()), Err(RecvError));
    assert!(q.is_idle());
}

/// One party of the many-party schedule: what it has yet to do, and the
/// call that it waits in.
struct Party {
    left: usize,
    waiting: Option<Waiter>,
}

#[test]
fn mpmc() {
    const COUNT: usize = 25_000;
    const THREADS: usize = 4;

    let mut q = Queue::<usize>::new();
    let mut v = vec![0usize; COUNT];

    let mut receivers: Vec<Party> = Vec::new();
    let mut senders: Vec<Party> = Vec::new();
    for _ in 0..THREADS {
        receivers.push(Party { left: COUNT, waiting: None });
        senders.push(Party { left: COUNT, waiting: None });
    }

    // Each round gives every party one turn; the order of the turns
    // changes from round to round.
    let mut round = 0usize;
    while receivers.iter().chain(senders.iter()).any(|p| p.left > 0) {
        for turn in 0..2 * THREADS {
            let k = (turn + round) % (2 * THREADS);
            if k < THREADS {
                let party = &mut receivers[k];
                if party.left == 0 {
                    continue;
                }
                let got = match party.waiting {
                    None => match q.recv() {
                        Step::Done(result) => Some(result.unwrap()),
                        Step::Blocked(waiter) => {
                            party.waiting = Some(waiter);
                            None
                        }
                    },
                    Some(waiter) => match q.poll(&waiter, 0) {
                        Wait::Ready => {
                            party.waiting = None;
                            Some(q.recv_finish(waiter.ticket).unwrap())
                        }
                        Wait::Park(None) => None,
                        other => panic!("an open channel without deadlines said {:?}", other),
                    },
                };
                if let Some(n) = got {
                    v[n] += 1;
                    party.left -= 1;
                }
            } else {
                let party = &mut senders[k - THREADS];
                if party.left == 0 {
                    continue;
                }
                let i = COUNT - party.left;
                let sent = match party.waiting {
                    None => match q.send(i) {
                        Step::Done(result) => {
                            result.unwrap();
                            true
                        }
                        Step::Blocked(waiter) => {
                            party.waiting = Some(waiter);
                            false
                        }
                    },
                    Some(waiter) => match q.poll(&waiter, 0) {
                        Wait::Ready => {
                            party.waiting = None;
                            q.send_finish(waiter.ticket).unwrap();
                            true
                        }
                        Wait::Park(None) => false,
                        other => panic!("an open channel without deadlines said {:?}", other),
                    },
                };
                if sent {
                    party.left -= 1;
                }
            }
        }
        round += 1;
    }

    for c in v {
        assert_eq!(c, THREADS);
    }
    assert!(q.is_idle());
}
