//! First come, first served: each wait queue serves its calls in the
//! order in which they came.

use vstd::prelude::*;
use crate::history::{feasible, lemma_issued_grows, lemma_run_split, run, Op};
use crate::model::{distinct, holds, position, precedes, State};
use crate::slot::Slot;
use crate::transfer::{lemma_receiver_left_unserved, lemma_sender_left_unserved};
use crate::wellformed::{
    lemma_queued_not_detached, lemma_remove_keeps, lemma_run_wf, lemma_step_wf,
};

verus! {

/// First come, first served, among senders. While the send `a` waits ahead
/// of the send `b`, no operation relieves `b`, and as long as both wait
/// `a` stays ahead.
pub proof fn lemma_senders_in_order<T>(s: State<T>, op: Op<T>, a: u64, b: u64)
    requires
        s.wf(),
        precedes(s.senders, a, b),
        op.enabled(s),
    ensures
        !op.next(s).relieved(b),
        holds(op.next(s).senders, a) && holds(op.next(s).senders, b) ==> precedes(
            op.next(s).senders,
            a,
            b,
        ),
{
    let n = op.next(s);
    let (i, j) = choose|i: int, j: int|
        0 <= i < j < s.senders.len() && (#[trigger] s.senders[i]).ticket == a
            && (#[trigger] s.senders[j]).ticket == b;
    lemma_step_wf(s, op);
    assert(s.receivers.len() == 0);
    assert(s.senders[0].ticket != s.senders[j].ticket);
    assert forall|k: int| 0 <= k < n.detached.len() implies !((#[trigger] n.detached[k]).ticket == b
        && n.detached[k].ready) by {
        match op {
            Op::TryRecv => {
                if k < s.detached.len() {
                    assert(n.detached[k] == s.detached[k]);
                    assert(s.senders[j].ticket != s.detached[k].ticket);
                }
            },
            Op::RecvUntil(_) => {
                if k < s.detached.len() {
                    assert(n.detached[k] == s.detached[k]);
                    assert(s.senders[j].ticket != s.detached[k].ticket);
                }
            },
            Op::SendFinish(other) => {
                if holds(s.detached, other) {
                    lemma_remove_keeps(s.detached, other, k);
                }
                let k0 = if holds(s.detached, other) && k >= position(s.detached, other) {
                    k + 1
                } else {
                    k
                };
                assert(n.detached[k] == s.detached[k0]);
                assert(s.senders[j].ticket != s.detached[k0].ticket);
            },
            Op::RecvFinish(other) => {
                assert(!holds(s.receivers, other));
                if holds(s.detached, other) {
                    lemma_remove_keeps(s.detached, other, k);
                }
                let k0 = if holds(s.detached, other) && k >= position(s.detached, other) {
                    k + 1
                } else {
                    k
                };
                assert(n.detached[k] == s.detached[k0]);
                assert(s.senders[j].ticket != s.detached[k0].ticket);
            },
            Op::Close => {
                if k < s.detached.len() {
                    assert(n.detached[k] == s.detached[k]);
                    assert(s.senders[j].ticket != s.detached[k].ticket);
                } else {
                    assert(n.detached[k] == s.senders[k - s.detached.len()]);
                }
            },
            _ => {
                assert(n.detached[k] == s.detached[k]);
                assert(s.senders[j].ticket != s.detached[k].ticket);
            },
        }
    }
    if holds(n.senders, a) && holds(n.senders, b) {
        let x = position(n.senders, a);
        let y = position(n.senders, b);
        lemma_order_kept(s.senders, n.senders, i, j, x, y);
    }
}

/// First come, first served, among receivers. While the receive `a` waits
/// ahead of the receive `b`, no operation fills the slot of `b`, and as
/// long as both wait `a` stays ahead.
pub proof fn lemma_receivers_in_order<T>(s: State<T>, op: Op<T>, a: u64, b: u64)
    requires
        s.wf(),
        precedes(s.receivers, a, b),
        op.enabled(s),
    ensures
        !op.next(s).filled(b),
        holds(op.next(s).receivers, a) && holds(op.next(s).receivers, b) ==> precedes(
            op.next(s).receivers,
            a,
            b,
        ),
{
    let n = op.next(s);
    let (i, j) = choose|i: int, j: int|
        0 <= i < j < s.receivers.len() && (#[trigger] s.receivers[i]).ticket == a
            && (#[trigger] s.receivers[j]).ticket == b;
    lemma_step_wf(s, op);
    assert(s.senders.len() == 0);
    assert(s.receivers[0].ticket != s.receivers[j].ticket);
    assert forall|k: int| 0 <= k < n.detached.len() implies !((#[trigger] n.detached[k]).ticket == b
        && n.detached[k].ready) by {
        match op {
            Op::TrySend(_) => {
                if k < s.detached.len() {
                    assert(n.detached[k] == s.detached[k]);
                    assert(s.receivers[j].ticket != s.detached[k].ticket);
                }
            },
            Op::SendUntil(_, _) => {
                if k < s.detached.len() {
                    assert(n.detached[k] == s.detached[k]);
                    assert(s.receivers[j].ticket != s.detached[k].ticket);
                }
            },
            Op::SendFinish(other) => {
                assert(!holds(s.senders, other));
                if holds(s.detached, other) {
                    lemma_remove_keeps(s.detached, other, k);
                }
                let k0 = if holds(s.detached, other) && k >= position(s.detached, other) {
                    k + 1
                } else {
                    k
                };
                assert(n.detached[k] == s.detached[k0]);
                assert(s.receivers[j].ticket != s.detached[k0].ticket);
            },
            Op::RecvFinish(other) => {
                if holds(s.detached, other) {
                    lemma_remove_keeps(s.detached, other, k);
                }
                let k0 = if holds(s.detached, other) && k >= position(s.detached, other) {
                    k + 1
                } else {
                    k
                };
                assert(n.detached[k] == s.detached[k0]);
                assert(s.receivers[j].ticket != s.detached[k0].ticket);
            },
            Op::Close => {
                if k < s.detached.len() {
                    assert(n.detached[k] == s.detached[k]);
                    assert(s.receivers[j].ticket != s.detached[k].ticket);
                } else {
                    assert(n.detached[k] == s.receivers[k - s.detached.len()]);
                }
            },
            _ => {
                assert(n.detached[k] == s.detached[k]);
                assert(s.receivers[j].ticket != s.detached[k].ticket);
            },
        }
    }
    if holds(n.receivers, a) && holds(n.receivers, b) {
        let x = position(n.receivers, a);
        let y = position(n.receivers, b);
        lemma_order_kept(s.receivers, n.receivers, i, j, x, y);
    }
}

/// A call that begins to wait joins its queue behind every call that
/// waits there already.
pub proof fn lemma_joins_at_the_back<T>(s: State<T>, value: T, deadline: Option<u64>, a: u64)
    requires
        s.wf(),
        s.issued < u64::MAX,
    ensures
        s.send_until(value, deadline).1 is Blocked && holds(s.senders, a) ==> precedes(
            s.send_until(value, deadline).0.senders,
            a,
            s.send_until(value, deadline).1->Blocked_0.ticket,
        ),
        s.recv_until(deadline).1 is Blocked && holds(s.receivers, a) ==> precedes(
            s.recv_until(deadline).0.receivers,
            a,
            s.recv_until(deadline).1->Blocked_0.ticket,
        ),
{
    if s.send_until(value, deadline).1 is Blocked && holds(s.senders, a) {
        let n = s.send_until(value, deadline).0;
        let i = position(s.senders, a);
        assert(n.senders[i].ticket == a);
        assert(n.senders[s.senders.len() as int].ticket == s.issued as u64);
    }
    if s.recv_until(deadline).1 is Blocked && holds(s.receivers, a) {
        let n = s.recv_until(deadline).0;
        let i = position(s.receivers, a);
        assert(n.receivers[i].ticket == a);
        assert(n.receivers[s.receivers.len() as int].ticket == s.issued as u64);
    }
}

/// A wait queue that loses its first slot or any one slot, gains a slot at
/// its back, is emptied or stays as it is keeps its slots in their order.
proof fn lemma_order_kept<T>(old_q: Seq<Slot<T>>, new_q: Seq<Slot<T>>, i: int, j: int, x: int, y: int)
    requires
        distinct(old_q),
        0 <= i < j < old_q.len(),
        0 <= x < new_q.len(),
        0 <= y < new_q.len(),
        new_q[x].ticket == old_q[i].ticket,
        new_q[y].ticket == old_q[j].ticket,
        new_q == old_q || new_q.len() == 0 || (exists|slot: Slot<T>|
            new_q == old_q.push(slot) && forall|k: int|
                0 <= k < old_q.len() ==> (#[trigger] old_q[k]).ticket != slot.ticket) || (exists|
            k: int,
        |
            0 <= k < old_q.len() && new_q == old_q.remove(k)) || new_q == old_q.drop_first(),
    ensures
        x < y,
{
    if new_q == old_q {
        assert(x == i) by {
            if x < i {
                assert(old_q[x].ticket != old_q[i].ticket);
            } else if i < x {
                assert(old_q[i].ticket != old_q[x].ticket);
            }
        }
        assert(y == j) by {
            if y < j {
                assert(old_q[y].ticket != old_q[j].ticket);
            } else if j < y {
                assert(old_q[j].ticket != old_q[y].ticket);
            }
        }
    } else if exists|slot: Slot<T>|
        new_q == old_q.push(slot) && forall|k: int|
            0 <= k < old_q.len() ==> (#[trigger] old_q[k]).ticket != slot.ticket {
        assert(x < old_q.len() && y < old_q.len());
        assert(new_q[x] == old_q[x] && new_q[y] == old_q[y]);
        if x < i {
            assert(old_q[x].ticket != old_q[i].ticket);
        } else if i < x {
            assert(old_q[i].ticket != old_q[x].ticket);
        }
        if y < j {
            assert(old_q[y].ticket != old_q[j].ticket);
        } else if j < y {
            assert(old_q[j].ticket != old_q[y].ticket);
        }
    } else {
        let k = if new_q == old_q.drop_first() {
            0
        } else {
            choose|k: int| 0 <= k < old_q.len() && new_q == old_q.remove(k)
        };
        if new_q == old_q.drop_first() {
            assert(new_q =~= old_q.remove(0));
        }
        let x0 = if x < k {
            x
        } else {
            x + 1
        };
        let y0 = if y < k {
            y
        } else {
            y + 1
        };
        assert(new_q[x] == old_q[x0] && new_q[y] == old_q[y0]);
        if x0 < i {
            assert(old_q[x0].ticket != old_q[i].ticket);
        } else if i < x0 {
            assert(old_q[i].ticket != old_q[x0].ticket);
        }
        if y0 < j {
            assert(old_q[y0].ticket != old_q[j].ticket);
        } else if j < y0 {
            assert(old_q[j].ticket != old_q[y0].ticket);
        }
    }
}

/// A call that has left its wait queue does not come back to it.
pub proof fn lemma_never_rejoins<T>(s: State<T>, op: Op<T>, ticket: u64)
    requires
        s.wf(),
        op.enabled(s),
        ticket < s.issued,
    ensures
        !holds(s.senders, ticket) ==> !holds(op.next(s).senders, ticket),
        !holds(s.receivers, ticket) ==> !holds(op.next(s).receivers, ticket),
{
    let n = op.next(s);
    if !holds(s.senders, ticket) {
        assert forall|i: int| 0 <= i < n.senders.len() implies (#[trigger] n.senders[i]).ticket
            != ticket by {
            match op {
                Op::TryRecv => {
                    assert(n.senders[i] == s.senders[i + 1]);
                },
                Op::RecvUntil(_) => {
                    assert(n.senders[i] == s.senders[i + 1]);
                },
                Op::SendUntil(_, _) => {
                    if i < s.senders.len() {
                        assert(n.senders[i] == s.senders[i]);
                    }
                },
                Op::SendFinish(other) => {
                    if holds(s.detached, other) {
                        assert(n.senders[i] == s.senders[i]);
                    } else {
                        lemma_remove_keeps(s.senders, other, i);
                    }
                },
                _ => {
                    assert(n.senders[i] == s.senders[i]);
                },
            }
        }
    }
    if !holds(s.receivers, ticket) {
        assert forall|i: int| 0 <= i < n.receivers.len() implies (#[trigger] n.receivers[i]).ticket
            != ticket by {
            match op {
                Op::TrySend(_) => {
                    assert(n.receivers[i] == s.receivers[i + 1]);
                },
                Op::SendUntil(_, _) => {
                    assert(n.receivers[i] == s.receivers[i + 1]);
                },
                Op::RecvUntil(_) => {
                    if i < s.receivers.len() {
                        assert(n.receivers[i] == s.receivers[i]);
                    }
                },
                Op::RecvFinish(other) => {
                    if holds(s.detached, other) {
                        assert(n.receivers[i] == s.receivers[i]);
                    } else {
                        lemma_remove_keeps(s.receivers, other, i);
                    }
                },
                _ => {
                    assert(n.receivers[i] == s.receivers[i]);
                },
            }
        }
    }
}

/// Over a whole run too, a call that has left its wait queue does not come
/// back to it.
pub proof fn lemma_run_never_rejoins<T>(s: State<T>, ops: Seq<Op<T>>, ticket: u64)
    requires
        s.wf(),
        feasible(s, ops),
        ticket < s.issued,
    ensures
        !holds(s.senders, ticket) ==> !holds(run(s, ops).senders, ticket),
        !holds(s.receivers, ticket) ==> !holds(run(s, ops).receivers, ticket),
    decreases ops.len(),
{
    if ops.len() > 0 {
        lemma_run_never_rejoins(s, ops.drop_last(), ticket);
        lemma_run_wf(s, ops.drop_last());
        lemma_issued_grows(s, ops.drop_last());
        lemma_never_rejoins(run(s, ops.drop_last()), ops.last(), ticket);
    }
}

/// First come, first served, at the end of every run. Where the send `a`
/// waits ahead of the send `b`, then after any run `b` is not relieved
/// while `a` still waits in the queue, and if both still wait there `a`
/// is still ahead.
pub proof fn lemma_senders_served_in_order<T>(s: State<T>, ops: Seq<Op<T>>, a: u64, b: u64)
    requires
        s.wf(),
        feasible(s, ops),
        precedes(s.senders, a, b),
    ensures
        run(s, ops).relieved(b) ==> !holds(run(s, ops).senders, a),
        holds(run(s, ops).senders, a) && holds(run(s, ops).senders, b) ==> precedes(
            run(s, ops).senders,
            a,
            b,
        ),
    decreases ops.len(),
{
    if ops.len() == 0 {
        lemma_queued_not_detached(s, b);
    } else {
        let init = ops.drop_last();
        let before = run(s, init);
        let op = ops.last();
        lemma_senders_served_in_order(s, init, a, b);
        lemma_run_wf(s, init);
        lemma_issued_grows(s, init);
        assert(a < s.issued && b < s.issued);
        lemma_never_rejoins(before, op, a);
        lemma_never_rejoins(before, op, b);
        if holds(before.senders, a) {
            if holds(before.senders, b) {
                lemma_senders_in_order(before, op, a, b);
            } else {
                lemma_sender_left_unserved(before, op, b);
            }
        }
    }
}

/// First come, first served, at the end of every run. Where the receive
/// `a` waits ahead of the receive `b`, then after any run the slot of `b`
/// is not filled while `a` still waits in the queue, and if both still
/// wait there `a` is still ahead.
pub proof fn lemma_receivers_served_in_order<T>(s: State<T>, ops: Seq<Op<T>>, a: u64, b: u64)
    requires
        s.wf(),
        feasible(s, ops),
        precedes(s.receivers, a, b),
    ensures
        run(s, ops).filled(b) ==> !holds(run(s, ops).receivers, a),
        holds(run(s, ops).receivers, a) && holds(run(s, ops).receivers, b) ==> precedes(
            run(s, ops).receivers,
            a,
            b,
        ),
    decreases ops.len(),
{
    if ops.len() == 0 {
        lemma_queued_not_detached(s, b);
    } else {
        let init = ops.drop_last();
        let before = run(s, init);
        let op = ops.last();
        lemma_receivers_served_in_order(s, init, a, b);
        lemma_run_wf(s, init);
        lemma_issued_grows(s, init);
        assert(a < s.issued && b < s.issued);
        lemma_never_rejoins(before, op, a);
        lemma_never_rejoins(before, op, b);
        if holds(before.receivers, a) {
            if holds(before.receivers, b) {
                lemma_receivers_in_order(before, op, a, b);
            } else {
                lemma_receiver_left_unserved(before, op, b);
            }
        }
    }
}

/// First come, first served, among senders. Where the send `a` waits ahead
/// of the send `b`, and `a` still waits in the queue at the end of a run,
/// then at no point of the run was `b` relieved: no receiver got the value
/// of `b` before that of `a`.
pub proof fn lemma_senders_first_come_first_served<T>(
    s: State<T>,
    ops: Seq<Op<T>>,
    k: int,
    a: u64,
    b: u64,
)
    requires
        s.wf(),
        feasible(s, ops),
        precedes(s.senders, a, b),
        0 <= k <= ops.len(),
        holds(run(s, ops).senders, a),
    ensures
        !run(s, ops.take(k)).relieved(b),
{
    let mid = run(s, ops.take(k));
    lemma_run_split(s, ops, k);
    lemma_senders_served_in_order(s, ops.take(k), a, b);
    lemma_run_wf(s, ops.take(k));
    lemma_issued_grows(s, ops.take(k));
    lemma_run_never_rejoins(mid, ops.skip(k), a);
}

/// First come, first served, among receivers. Where the receive `a` waits
/// ahead of the receive `b`, and `a` still waits in the queue at the end
/// of a run, then at no point of the run was the slot of `b` filled: `b`
/// got no value before `a`.
pub proof fn lemma_receivers_first_come_first_served<T>(
    s: State<T>,
    ops: Seq<Op<T>>,
    k: int,
    a: u64,
    b: u64,
)
    requires
        s.wf(),
        feasible(s, ops),
        precedes(s.receivers, a, b),
        0 <= k <= ops.len(),
        holds(run(s, ops).receivers, a),
    ensures
        !run(s, ops.take(k)).filled(b),
{
    let mid = run(s, ops.take(k));
    lemma_run_split(s, ops, k);
    lemma_receivers_served_in_order(s, ops.take(k), a, b);
    lemma_run_wf(s, ops.take(k));
    lemma_issued_grows(s, ops.take(k));
    lemma_run_never_rejoins(mid, ops.skip(k), a);
}

} // verus!
