//! Properties of the kernel model that relate several operations.
use vstd::prelude::*;

use crate::memory::{lemma_truncated_idempotent, truncated};
use crate::simulation::{
    add_trigger_model, changed_in_round, commit_model, fires, index_of, is_registered, model_wf,
    processes_unique, register_model, set_model, slot_wf, update_model, woken_by, woken_in_round,
    fresh_slot, KernelModel, SignalDescriptor, SimulationError, SlotModel,
};

verus! {

/// One write to a slot's next buffer before a commit: `Assign` stands for
/// `set`, `Refresh` for `update`.
pub enum SlotWrite {
    Assign(u64),
    Refresh(u64),
}

pub open spec fn write_value(w: SlotWrite) -> u64 {
    match w {
        SlotWrite::Assign(v) => v,
        SlotWrite::Refresh(v) => v,
    }
}

/// The model after applying `writes` to slot `i`, in order.
pub open spec fn apply_writes(m: KernelModel, i: int, writes: Seq<SlotWrite>) -> KernelModel
    decreases writes.len(),
{
    if writes.len() == 0 {
        m
    } else {
        let before = apply_writes(m, i, writes.drop_last());
        match writes.last() {
            SlotWrite::Assign(v) => set_model(before, i, v),
            SlotWrite::Refresh(v) => update_model(before, i, v),
        }
    }
}

/// A `set` keeps the kernel invariant and touches only slot `i`'s next
/// buffer.
pub proof fn lemma_set_keeps_wf(m: KernelModel, i: int, v: u64)
    requires
        model_wf(m),
        0 <= i < m.slots.len(),
    ensures
        model_wf(set_model(m, i, v)),
        set_model(m, i, v).slots.len() == m.slots.len(),
        set_model(m, i, v).slots[i].width == m.slots[i].width,
{
    lemma_truncated_idempotent(v, m.slots[i].width);
    let r = set_model(m, i, v);
    assert forall|j: int| 0 <= j < r.slots.len() implies slot_wf(#[trigger] r.slots[j]) by {
        assert(slot_wf(m.slots[j]));
    }
}

/// An `update` keeps the kernel invariant and the slot's width.
pub proof fn lemma_update_keeps_wf(m: KernelModel, i: int, v: u64)
    requires
        model_wf(m),
        0 <= i < m.slots.len(),
    ensures
        model_wf(update_model(m, i, v)),
        update_model(m, i, v).slots.len() == m.slots.len(),
        update_model(m, i, v).slots[i].width == m.slots[i].width,
{
    lemma_set_keeps_wf(m, i, v);
}

/// Whatever sequence of `set` and `update` calls reaches slot `i` before a
/// commit, its next buffer ends with the last value written, and the commit
/// makes that value current.
pub proof fn lemma_last_write_wins(m: KernelModel, i: int, writes: Seq<SlotWrite>)
    requires
        model_wf(m),
        0 <= i < m.slots.len(),
        writes.len() > 0,
    ensures
        apply_writes(m, i, writes).slots[i].next == truncated(
            write_value(writes.last()),
            m.slots[i].width,
        ),
        commit_model(apply_writes(m, i, writes)).slots[i].curr == truncated(
            write_value(writes.last()),
            m.slots[i].width,
        ),
{
    lemma_apply_writes_wf(m, i, writes);
    let before = apply_writes(m, i, writes.drop_last());
    lemma_apply_writes_wf(m, i, writes.drop_last());
    let after = apply_writes(m, i, writes);
    assert(slot_wf(before.slots[i]));
    match writes.last() {
        SlotWrite::Assign(v) => {},
        SlotWrite::Refresh(v) => {},
    }
    assert(slot_wf(after.slots[i]));
    if !after.pending.contains(i) {
        assert(after.slots[i].curr == after.slots[i].next);
    }
}

proof fn lemma_apply_writes_wf(m: KernelModel, i: int, writes: Seq<SlotWrite>)
    requires
        model_wf(m),
        0 <= i < m.slots.len(),
    ensures
        model_wf(apply_writes(m, i, writes)),
        apply_writes(m, i, writes).slots.len() == m.slots.len(),
        apply_writes(m, i, writes).slots[i].width == m.slots[i].width,
    decreases writes.len(),
{
    if writes.len() > 0 {
        lemma_apply_writes_wf(m, i, writes.drop_last());
        let before = apply_writes(m, i, writes.drop_last());
        match writes.last() {
            SlotWrite::Assign(v) => lemma_set_keeps_wf(before, i, v),
            SlotWrite::Refresh(v) => lemma_update_keeps_wf(before, i, v),
        }
    }
}

/// `update` with the value the next buffer already holds leaves the kernel,
/// and so its pending set, unchanged; `set` puts the slot in the pending set
/// whatever it held.
pub proof fn lemma_update_dedups_set_does_not(m: KernelModel, i: int, v: u64)
    requires
        0 <= i < m.slots.len(),
    ensures
        m.slots[i].next == v ==> update_model(m, i, v) == m,
        set_model(m, i, v).pending == m.pending.insert(i),
        set_model(m, i, v).pending.contains(i),
{
}

/// A commit moves a differing next value into the current buffer and
/// reports the change; a second commit with no write in between changes
/// nothing and reports convergence.
pub proof fn lemma_commit_once(m: KernelModel, i: int)
    requires
        model_wf(m),
        0 <= i < m.slots.len(),
        m.slots[i].curr != m.slots[i].next,
    ensures
        changed_in_round(m, i),
        commit_model(m).slots[i].curr == m.slots[i].next,
        forall|j: int| !#[trigger] changed_in_round(commit_model(m), j),
        commit_model(commit_model(m)) == commit_model(m),
{
    let c = commit_model(m);
    let cc = commit_model(c);
    assert(cc.slots =~= c.slots);
    assert(cc.pending =~= c.pending);
}

/// A waiter fires on a commit to `value` exactly when its trigger matches:
/// always for `None`, only for that value for `Some`.
pub proof fn lemma_waiter_fires(
    waiters: Seq<(u64, Option<u64>)>,
    process: u64,
    trigger: Option<u64>,
    value: u64,
)
    requires
        processes_unique(waiters),
        waiters.contains((process, trigger)),
    ensures
        woken_by(waiters, value).contains(process) <==> fires(trigger, value),
    decreases waiters.len(),
{
    let rest = waiters.drop_last();
    let last = waiters.last();
    let k = choose|k: int| 0 <= k < waiters.len() && waiters[k] == (process, trigger);
    if k == waiters.len() - 1 {
        assert forall|q: int| 0 <= q < rest.len() implies #[trigger] rest[q].0 != process by {
            assert(waiters[q].0 != waiters[k].0);
        }
        lemma_not_woken_when_absent(rest, process, value);
        if fires(trigger, value) {
            assert(woken_by(waiters, value).last() == process);
        }
    } else {
        assert(rest[k] == (process, trigger));
        assert(processes_unique(rest)) by {
            assert forall|a: int, b: int| 0 <= a < b < rest.len() implies #[trigger] rest[a].0
                != #[trigger] rest[b].0 by {
                assert(waiters[a].0 != waiters[b].0);
            }
        }
        lemma_waiter_fires(rest, process, trigger, value);
        assert(last.0 != process) by {
            assert(waiters[k].0 != waiters[waiters.len() - 1].0);
        }
        if fires(last.1, value) {
            lemma_push_contains(woken_by(rest, value), last.0, process);
        }
    }
}

proof fn lemma_push_contains(s: Seq<u64>, x: u64, y: u64)
    ensures
        s.push(x).contains(y) <==> s.contains(y) || x == y,
{
    if s.contains(y) {
        let k = choose|k: int| 0 <= k < s.len() && s[k] == y;
        assert(s.push(x)[k] == y);
    }
    if s.push(x).contains(y) {
        let k = choose|k: int| 0 <= k < s.push(x).len() && s.push(x)[k] == y;
        if k < s.len() {
            assert(s[k] == y);
        }
    }
    if x == y {
        assert(s.push(x)[s.len() as int] == y);
    }
}

proof fn lemma_not_woken_when_absent(waiters: Seq<(u64, Option<u64>)>, process: u64, value: u64)
    requires
        forall|k: int| 0 <= k < waiters.len() ==> #[trigger] waiters[k].0 != process,
    ensures
        !woken_by(waiters, value).contains(process),
    decreases waiters.len(),
{
    if waiters.len() > 0 {
        let rest = waiters.drop_last();
        assert forall|k: int| 0 <= k < rest.len() implies #[trigger] rest[k].0 != process by {
            assert(waiters[k].0 != process);
        }
        lemma_not_woken_when_absent(rest, process, value);
        lemma_push_contains(woken_by(rest, value), waiters.last().0, process);
    }
}

/// In a commit pass, a process that waits on a changing slot with a
/// matching trigger is woken.
pub proof fn lemma_commit_wakes_matching(m: KernelModel, j: int, process: u64, trigger: Option<u64>)
    requires
        model_wf(m),
        0 <= j < m.slots.len(),
        m.slots[j].curr != m.slots[j].next,
        m.slots[j].waiters.contains((process, trigger)),
        fires(trigger, m.slots[j].next),
    ensures
        woken_in_round(m, process),
{
    assert(slot_wf(m.slots[j]));
    lemma_waiter_fires(m.slots[j].waiters, process, trigger, m.slots[j].next);
    assert(changed_in_round(m, j));
}

/// Adding a trigger that the process already has on that signal is refused
/// with `DuplicateTrigger` and leaves the kernel unchanged.
pub proof fn lemma_duplicate_trigger_refused(
    m: KernelModel,
    process: u64,
    signal: u64,
    d: SignalDescriptor,
    trigger: Option<u64>,
)
    requires
        model_wf(m),
        is_registered(m, signal),
        m.slots[index_of(m, signal)].waiters.contains((process, trigger)),
    ensures
        add_trigger_model(m, process, signal, d, trigger) == (
            m,
            Err::<(), SimulationError>(SimulationError::DuplicateTrigger),
        ),
{
    let i = index_of(m, signal);
    assert(0 <= i < m.slots.len());
}

/// Registering a signal twice returns the same index and leaves the kernel
/// as the first registration made it: the second descriptor is ignored.
pub proof fn lemma_register_idempotent(
    m: KernelModel,
    signal: u64,
    first: SignalDescriptor,
    second: SignalDescriptor,
)
    requires
        model_wf(m),
        register_model(m, signal, first).1 is Ok,
    ensures
        register_model(register_model(m, signal, first).0, signal, second) == register_model(
            m,
            signal,
            first,
        ),
        !is_registered(m, signal) ==> register_model(m, signal, first).0.slots.last()
            == fresh_slot(signal, first),
{
    let (m1, r1) = register_model(m, signal, first);
    if is_registered(m, signal) {
        let i = index_of(m, signal);
        assert(0 <= i < m.slots.len());
    } else {
        let n = m.slots.len() as int;
        assert(m1.slots[n].signal == signal);
        assert(is_registered(m1, signal));
        let i = index_of(m1, signal);
        if i < n {
            assert(m.slots[i].signal == signal);
        }
    }
}

/// Committing the single slot `j`: its next value becomes current and it
/// leaves the pending set.
pub open spec fn commit_slot_model(m: KernelModel, j: int) -> KernelModel {
    KernelModel {
        slots: m.slots.update(j, SlotModel { curr: m.slots[j].next, ..m.slots[j] }),
        pending: m.pending.remove(j),
    }
}

/// Committing slots one at a time, in the order that `order` lists them.
pub open spec fn commit_in_order(m: KernelModel, order: Seq<int>) -> KernelModel
    decreases order.len(),
{
    if order.len() == 0 {
        m
    } else {
        commit_slot_model(commit_in_order(m, order.drop_last()), order.last())
    }
}

proof fn lemma_commit_in_order_shape(m: KernelModel, order: Seq<int>)
    requires
        forall|k: int| 0 <= k < order.len() ==> 0 <= #[trigger] order[k] < m.slots.len(),
    ensures
        commit_in_order(m, order).slots =~= Seq::new(
            m.slots.len(),
            |j: int|
                if order.contains(j) {
                    SlotModel { curr: m.slots[j].next, ..m.slots[j] }
                } else {
                    m.slots[j]
                },
        ),
        commit_in_order(m, order).pending =~= m.pending.filter(|j: int| !order.contains(j)),
    decreases order.len(),
{
    if order.len() > 0 {
        let prev = order.drop_last();
        let last = order.last();
        assert forall|k: int| 0 <= k < prev.len() implies 0 <= #[trigger] prev[k] < m.slots.len() by {
            assert(prev[k] == order[k]);
        }
        lemma_commit_in_order_shape(m, prev);
        assert forall|j: int| #[trigger] order.contains(j) <==> prev.contains(j) || j == last by {
            if order.contains(j) {
                let k = choose|k: int| 0 <= k < order.len() && order[k] == j;
                if k < prev.len() {
                    assert(prev[k] == j);
                }
            }
            if prev.contains(j) {
                let k = choose|k: int| 0 <= k < prev.len() && prev[k] == j;
                assert(order[k] == j);
            }
            if j == last {
                assert(order[order.len() - 1] == j);
            }
        }
        assert(0 <= last < m.slots.len()) by {
            assert(order[order.len() - 1] == last);
        }
    }
}

/// The commit pass does not depend on the order in which it visits the
/// pending slots: committing them one by one, in any order that lists each
/// pending slot (repeats allowed), ends in the same kernel state.
pub proof fn lemma_commit_order_irrelevant(m: KernelModel, order: Seq<int>)
    requires
        model_wf(m),
        forall|j: int| m.pending.contains(j) <==> #[trigger] order.contains(j),
    ensures
        commit_in_order(m, order) == commit_model(m),
{
    assert forall|k: int| 0 <= k < order.len() implies 0 <= #[trigger] order[k] < m.slots.len() by {
        assert(order.contains(order[k]));
    }
    lemma_commit_in_order_shape(m, order);
    let r = commit_in_order(m, order);
    let c = commit_model(m);
    assert(r.slots =~= c.slots);
    assert(r.pending =~= c.pending);
}

} // verus!
