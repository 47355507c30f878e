//! Runs of the channel: sequences of operations, and what they add up to.

use vstd::prelude::*;
use vstd::multiset::Multiset;
use crate::model::State;
use crate::wait::Step;

verus! {

/// One operation on the channel, with its arguments.
///
/// A waiting call that takes a look either sleeps on, which changes
/// nothing, or ends: a run records the end.
pub ghost enum Op<T> {
    TrySend(T),
    TryRecv,
    SendUntil(T, Option<u64>),
    RecvUntil(Option<u64>),
    SendFinish(u64),
    RecvFinish(u64),
    Close,
    TakeWakeups,
}

impl<T> Op<T> {
    /// The operation may be applied to `s`: a call that may have to wait
    /// needs a ticket, and only a call that has not returned can end.
    pub open spec fn enabled(self, s: State<T>) -> bool {
        match self {
            Op::SendUntil(_, _) => s.issued < u64::MAX,
            Op::RecvUntil(_) => s.issued < u64::MAX,
            Op::SendFinish(ticket) => s.sending(ticket),
            Op::RecvFinish(ticket) => s.receiving(ticket),
            _ => true,
        }
    }

    /// The state after the operation.
    pub open spec fn next(self, s: State<T>) -> State<T> {
        match self {
            Op::TrySend(value) => s.try_send(value).0,
            Op::TryRecv => s.try_recv().0,
            Op::SendUntil(value, deadline) => s.send_until(value, deadline).0,
            Op::RecvUntil(deadline) => s.recv_until(deadline).0,
            Op::SendFinish(ticket) => s.send_finish(ticket).0,
            Op::RecvFinish(ticket) => s.recv_finish(ticket).0,
            Op::Close => s.close().0,
            Op::TakeWakeups => s.take_wakeups().0,
        }
    }

    /// The value that the operation brings to the channel, if it is a
    /// send.
    pub open spec fn brings(self) -> Option<T> {
        match self {
            Op::TrySend(value) => Some(value),
            Op::SendUntil(value, _) => Some(value),
            _ => None,
        }
    }

    /// The value that the operation brings to the channel, as a multiset of
    /// at most one element.
    pub open spec fn offered(self) -> Multiset<T> {
        match self.brings() {
            Some(value) => Multiset::singleton(value),
            None => Multiset::empty(),
        }
    }

    /// The value that the operation's caller receives from the channel.
    pub open spec fn received(self, s: State<T>) -> Multiset<T> {
        match self {
            Op::TryRecv => match s.try_recv().1 {
                Ok(value) => Multiset::singleton(value),
                Err(_) => Multiset::empty(),
            },
            Op::RecvUntil(deadline) => match s.recv_until(deadline).1 {
                Step::Done(Ok(value)) => Multiset::singleton(value),
                _ => Multiset::empty(),
            },
            Op::RecvFinish(ticket) => match s.recv_finish(ticket).1 {
                Ok(value) => Multiset::singleton(value),
                Err(_) => Multiset::empty(),
            },
            _ => Multiset::empty(),
        }
    }

    /// The value that the operation hands back to the sender that brought
    /// it, undelivered.
    pub open spec fn returned(self, s: State<T>) -> Multiset<T> {
        match self {
            Op::TrySend(value) => match s.try_send(value).1 {
                Ok(_) => Multiset::empty(),
                Err(e) => Multiset::singleton(e.value()),
            },
            Op::SendUntil(value, deadline) => match s.send_until(value, deadline).1 {
                Step::Done(Err(e)) => Multiset::singleton(e.value()),
                _ => Multiset::empty(),
            },
            Op::SendFinish(ticket) => match s.send_finish(ticket).1 {
                Ok(_) => Multiset::empty(),
                Err(e) => Multiset::singleton(e.value()),
            },
            _ => Multiset::empty(),
        }
    }

    /// Whether the operation registers a call that has to wait.
    pub open spec fn blocks(self, s: State<T>) -> bool {
        match self {
            Op::SendUntil(value, deadline) => s.send_until(value, deadline).1 is Blocked,
            Op::RecvUntil(deadline) => s.recv_until(deadline).1 is Blocked,
            _ => false,
        }
    }

    /// Whether the operation ends a call that waited.
    pub open spec fn ends(self) -> bool {
        self is SendFinish || self is RecvFinish
    }
}

/// The state after the operations `ops`, applied in order to `s`.
pub open spec fn run<T>(s: State<T>, ops: Seq<Op<T>>) -> State<T>
    decreases ops.len(),
{
    if ops.len() == 0 {
        s
    } else {
        ops.last().next(run(s, ops.drop_last()))
    }
}

/// Each of `ops` may be applied in its turn, starting from `s`.
pub open spec fn feasible<T>(s: State<T>, ops: Seq<Op<T>>) -> bool
    decreases ops.len(),
{
    ops.len() > 0 ==> feasible(s, ops.drop_last()) && ops.last().enabled(run(s, ops.drop_last()))
}

/// All the values that `ops` bring to the channel.
pub open spec fn offered<T>(ops: Seq<Op<T>>) -> Multiset<T>
    decreases ops.len(),
{
    if ops.len() == 0 {
        Multiset::empty()
    } else {
        offered(ops.drop_last()).add(ops.last().offered())
    }
}

/// All the values that receivers get in the run of `ops` from `s`.
pub open spec fn received<T>(s: State<T>, ops: Seq<Op<T>>) -> Multiset<T>
    decreases ops.len(),
{
    if ops.len() == 0 {
        Multiset::empty()
    } else {
        received(s, ops.drop_last()).add(ops.last().received(run(s, ops.drop_last())))
    }
}

/// All the values that come back to their senders in the run of `ops`
/// from `s`.
pub open spec fn returned<T>(s: State<T>, ops: Seq<Op<T>>) -> Multiset<T>
    decreases ops.len(),
{
    if ops.len() == 0 {
        Multiset::empty()
    } else {
        returned(s, ops.drop_last()).add(ops.last().returned(run(s, ops.drop_last())))
    }
}

/// How many calls begin to wait in the run of `ops` from `s`.
pub open spec fn begun<T>(s: State<T>, ops: Seq<Op<T>>) -> nat
    decreases ops.len(),
{
    if ops.len() == 0 {
        0
    } else {
        begun(s, ops.drop_last()) + if ops.last().blocks(run(s, ops.drop_last())) {
            1nat
        } else {
            0nat
        }
    }
}

/// How many calls that waited end in `ops`.
pub open spec fn ended<T>(ops: Seq<Op<T>>) -> nat
    decreases ops.len(),
{
    if ops.len() == 0 {
        0
    } else {
        ended(ops.drop_last()) + if ops.last().ends() {
            1nat
        } else {
            0nat
        }
    }
}

/// A run can be cut in two at any point.
pub proof fn lemma_run_split<T>(s: State<T>, ops: Seq<Op<T>>, k: int)
    requires
        0 <= k <= ops.len(),
    ensures
        run(s, ops) == run(run(s, ops.take(k)), ops.skip(k)),
        feasible(s, ops) ==> feasible(s, ops.take(k)) && feasible(
            run(s, ops.take(k)),
            ops.skip(k),
        ),
    decreases ops.len(),
{
    if k == ops.len() {
        assert(ops.take(k) =~= ops);
    } else {
        lemma_run_split(s, ops.drop_last(), k);
        assert(ops.drop_last().take(k) =~= ops.take(k));
        assert(ops.drop_last().skip(k) =~= ops.skip(k).drop_last());
        assert(ops.skip(k).last() == ops.last());
    }
}

/// Tickets are never taken back: the count of those issued only grows.
pub proof fn lemma_issued_grows<T>(s: State<T>, ops: Seq<Op<T>>)
    ensures
        s.issued <= run(s, ops).issued,
    decreases ops.len(),
{
    if ops.len() > 0 {
        lemma_issued_grows(s, ops.drop_last());
    }
}

} // verus!
