//! No value is lost and none is made: what senders bring is held, is
//! received, or goes back to its sender. No call is lost either: every
//! slot belongs to a call that has not returned.

use vstd::prelude::*;
use vstd::multiset::Multiset;
use crate::history::{begun, ended, feasible, offered, received, returned, run, Op};
use crate::model::{cell_content, contents, holds, position, State};
use crate::slot::Slot;
use crate::wellformed::{lemma_only_position, lemma_run_wf};

verus! {

/// Appending a slot adds what its cell holds.
pub proof fn lemma_contents_push<T>(slots: Seq<Slot<T>>, slot: Slot<T>)
    ensures
        contents(slots.push(slot)) =~= contents(slots).add(cell_content(slot)),
{
    assert(slots.push(slot).drop_last() =~= slots);
}

/// Removing a slot takes away what its cell holds.
pub proof fn lemma_contents_remove<T>(slots: Seq<Slot<T>>, i: int)
    requires
        0 <= i < slots.len(),
    ensures
        contents(slots) =~= contents(slots.remove(i)).add(cell_content(slots[i])),
    decreases slots.len(),
{
    if i == slots.len() - 1 {
        assert(slots.remove(i) =~= slots.drop_last());
    } else {
        lemma_contents_remove(slots.drop_last(), i);
        assert(slots.remove(i).drop_last() =~= slots.drop_last().remove(i));
        assert(slots.remove(i).last() == slots.last());
    }
}

/// Joining two sequences of slots joins what their cells hold.
pub proof fn lemma_contents_concat<T>(a: Seq<Slot<T>>, b: Seq<Slot<T>>)
    ensures
        contents(a + b) =~= contents(a).add(contents(b)),
    decreases b.len(),
{
    if b.len() == 0 {
        assert(a + b =~= a);
    } else {
        lemma_contents_concat(a, b.drop_last());
        assert((a + b).drop_last() =~= a + b.drop_last());
        assert((a + b).last() == b.last());
    }
}

/// Handing a value to the oldest waiting receiver adds it to what the
/// channel holds.
proof fn lemma_hand_over_held<T>(s: State<T>, value: T)
    requires
        s.wf(),
        s.receivers.len() > 0,
    ensures
        s.hand_over(value).held() =~= s.held().add(Multiset::singleton(value)),
{
    let slot = s.receivers[0];
    assert(slot.queued() && slot.side is Receiver);
    assert(s.receivers.drop_first() =~= s.receivers.remove(0));
    lemma_contents_remove(s.receivers, 0);
    lemma_contents_push(s.detached, Slot { cell: Some(value), ready: true, ..slot });
}

/// Relieving the oldest waiting sender takes its value from what the
/// channel holds.
proof fn lemma_relieve_held<T>(s: State<T>)
    requires
        s.wf(),
        s.senders.len() > 0,
    ensures
        s.held() =~= s.relieve().held().add(Multiset::singleton(s.senders[0].cell->0)),
{
    let slot = s.senders[0];
    assert(slot.queued() && slot.side is Sender);
    assert(s.senders.drop_first() =~= s.senders.remove(0));
    lemma_contents_remove(s.senders, 0);
    lemma_contents_push(s.detached, Slot { cell: None, ready: true, ..slot });
}

/// In one operation, what the channel held and what was brought to it is
/// what it holds afterwards, what a receiver got and what went back to the
/// sender.
pub proof fn lemma_step_conserves<T>(s: State<T>, op: Op<T>)
    requires
        s.wf(),
        op.enabled(s),
    ensures
        op.next(s).held().add(op.received(s)).add(op.returned(s)) =~= s.held().add(op.offered()),
{
    match op {
        Op::TrySend(value) => {
            if !s.closed && s.receivers.len() > 0 {
                lemma_hand_over_held(s, value);
            }
        },
        Op::TryRecv => {
            if !s.closed && s.senders.len() > 0 {
                lemma_relieve_held(s);
            }
        },
        Op::SendUntil(value, _) => {
            if !s.closed {
                if s.receivers.len() > 0 {
                    lemma_hand_over_held(s, value);
                } else {
                    lemma_contents_push(
                        s.senders,
                        s.enlist_sender(value).senders[s.senders.len() as int],
                    );
                    assert(s.enlist_sender(value).senders =~= s.senders.push(
                        s.enlist_sender(value).senders[s.senders.len() as int],
                    ));
                }
            }
        },
        Op::RecvUntil(_) => {
            if !s.closed {
                if s.senders.len() > 0 {
                    lemma_relieve_held(s);
                } else {
                    lemma_contents_push(
                        s.receivers,
                        s.enlist_receiver().receivers[s.receivers.len() as int],
                    );
                    assert(s.enlist_receiver().receivers =~= s.receivers.push(
                        s.enlist_receiver().receivers[s.receivers.len() as int],
                    ));
                }
            }
        },
        Op::SendFinish(ticket) => {
            if holds(s.detached, ticket) {
                let i = position(s.detached, ticket);
                lemma_only_position(s.detached, ticket);
                assert(s.detached[i].side is Sender);
                lemma_contents_remove(s.detached, i);
            } else {
                let i = position(s.senders, ticket);
                assert(s.senders[i].queued() && s.senders[i].side is Sender);
                lemma_contents_remove(s.senders, i);
            }
        },
        Op::RecvFinish(ticket) => {
            if holds(s.detached, ticket) {
                let i = position(s.detached, ticket);
                lemma_only_position(s.detached, ticket);
                assert(s.detached[i].side is Receiver);
                lemma_contents_remove(s.detached, i);
            } else {
                let i = position(s.receivers, ticket);
                assert(s.receivers[i].queued() && s.receivers[i].side is Receiver);
                lemma_contents_remove(s.receivers, i);
            }
        },
        Op::Close => {
            if !s.closed {
                lemma_contents_concat(s.detached, s.senders);
                lemma_contents_concat(s.detached + s.senders, s.receivers);
            }
        },
        Op::TakeWakeups => {},
    }
}

/// Conservation. Over every run, the values that the channel held at the
/// start and those that senders brought are exactly those that it holds at
/// the end, those that receivers got and those that went back to their
/// senders undelivered. So no value is received that was not sent, none is
/// received twice, and none is lost.
pub proof fn lemma_run_conserves<T>(s: State<T>, ops: Seq<Op<T>>)
    requires
        s.wf(),
        feasible(s, ops),
    ensures
        run(s, ops).held().add(received(s, ops)).add(returned(s, ops)) =~= s.held().add(
            offered(ops),
        ),
    decreases ops.len(),
{
    if ops.len() > 0 {
        let init = ops.drop_last();
        let op = ops.last();
        let before = run(s, init);
        lemma_run_conserves(s, init);
        lemma_run_wf(s, init);
        lemma_step_conserves(before, op);
        let so_far = before.held().add(received(s, init)).add(returned(s, init));
        let step = op.next(before).held().add(op.received(before)).add(op.returned(before));
        let total = run(s, ops).held().add(received(s, ops)).add(returned(s, ops));
        assert forall|x: T| total.count(x) == s.held().add(offered(ops)).count(x) by {
            assert(so_far.count(x) == s.held().add(offered(init)).count(x));
            assert(step.count(x) == before.held().add(op.offered()).count(x));
        }
    }
}

/// On a channel that starts out as made, the values that senders brought
/// are those received, those handed back and those still held for calls
/// that have not returned. So the values received are among those sent and
/// not handed back; once no call is left, they are exactly those.
pub proof fn lemma_received_were_sent<T>(ops: Seq<Op<T>>)
    requires
        feasible(State::<T>::initial(), ops),
    ensures
        run(State::<T>::initial(), ops).held().add(received(State::<T>::initial(), ops)).add(
            returned(State::<T>::initial(), ops),
        ) =~= offered(ops),
        received(State::<T>::initial(), ops).add(returned(State::<T>::initial(), ops)).subset_of(
            offered(ops),
        ),
        received(State::<T>::initial(), ops).subset_of(
            offered(ops).sub(returned(State::<T>::initial(), ops)),
        ),
        run(State::<T>::initial(), ops).outstanding() == 0 ==> received(
            State::<T>::initial(),
            ops,
        ).add(returned(State::<T>::initial(), ops)) =~= offered(ops),
{
    let s = State::<T>::initial();
    lemma_run_conserves(s, ops);
    assert(s.held() =~= Multiset::empty());
    let end = run(s, ops);
    let out = received(s, ops).add(returned(s, ops));
    let all = end.held().add(received(s, ops)).add(returned(s, ops));
    assert forall|x: T| out.count(x) <= offered(ops).count(x) by {
        assert(all.count(x) == s.held().add(offered(ops)).count(x));
    }
    assert forall|x: T|
        received(s, ops).count(x) <= offered(ops).sub(returned(s, ops)).count(x) by {
        assert(out.count(x) <= offered(ops).count(x));
    }
    if end.outstanding() == 0 {
        assert(end.senders =~= Seq::empty());
        assert(end.receivers =~= Seq::empty());
        assert(end.detached =~= Seq::empty());
        assert(end.held() =~= Multiset::empty());
        assert forall|x: T| out.count(x) == offered(ops).count(x) by {
            assert(all.count(x) == s.held().add(offered(ops)).count(x));
        }
    }
}

/// One operation changes the number of calls that have not returned by the
/// call that it registers or the call that it ends.
pub proof fn lemma_step_outstanding<T>(s: State<T>, op: Op<T>)
    requires
        s.wf(),
        op.enabled(s),
    ensures
        op.next(s).outstanding() + (if op.ends() {
            1nat
        } else {
            0nat
        }) == s.outstanding() + (if op.blocks(s) {
            1nat
        } else {
            0nat
        }),
{
    match op {
        Op::SendFinish(ticket) => {
            if !holds(s.detached, ticket) {
                assert(holds(s.senders, ticket));
            }
        },
        Op::RecvFinish(ticket) => {
            if !holds(s.detached, ticket) {
                assert(holds(s.receivers, ticket));
            }
        },
        _ => {},
    }
}

/// Over every run, the calls that have not returned are those that had not
/// at the start and those that began to wait, less those that ended.
pub proof fn lemma_run_outstanding<T>(s: State<T>, ops: Seq<Op<T>>)
    requires
        s.wf(),
        feasible(s, ops),
    ensures
        run(s, ops).outstanding() + ended(ops) == s.outstanding() + begun(s, ops),
    decreases ops.len(),
{
    if ops.len() > 0 {
        lemma_run_outstanding(s, ops.drop_last());
        lemma_run_wf(s, ops.drop_last());
        lemma_step_outstanding(run(s, ops.drop_last()), ops.last());
    }
}

/// A channel with no call left is clean. Where every call that began to
/// wait has ended, both wait queues are empty and both length hints are
/// zero.
pub proof fn lemma_idle_is_clean<T>(ops: Seq<Op<T>>)
    requires
        feasible(State::<T>::initial(), ops),
        begun(State::<T>::initial(), ops) == ended(ops),
    ensures
        run(State::<T>::initial(), ops).senders.len() == 0,
        run(State::<T>::initial(), ops).receivers.len() == 0,
        run(State::<T>::initial(), ops).detached.len() == 0,
        run(State::<T>::initial(), ops).senders_len == 0,
        run(State::<T>::initial(), ops).receivers_len == 0,
{
    lemma_run_wf(State::<T>::initial(), ops);
    lemma_run_outstanding(State::<T>::initial(), ops);
}

} // verus!
