//! Signal slots and the simulation kernel: registration, writes, wake-up
//! triggers and the delta-cycle commit pass.
use vstd::prelude::*;

use crate::laws::lemma_waiter_fires;
use crate::memory::{grown, lemma_truncated_idempotent, truncated, WASMInstance, WASMValue};

verus! {

/// What the host tells the kernel about a signal when it is first seen.
#[derive(Clone, Copy, Debug, PartialEq, Eq, Structural)]
pub struct SignalDescriptor {
    /// Number of bits of the signal's value.
    pub width: u64,
    /// The value both buffers of the slot start from.
    pub reset: u64,
}

/// Errors that the kernel reports to its caller.
#[derive(Clone, Copy, Debug, PartialEq, Eq, Structural)]
pub enum SimulationError {
    /// The process already waits on that signal with the same trigger.
    DuplicateTrigger,
    /// A signal wider than one 64-bit word was registered.
    UnsupportedWidth,
}

/// The observable state of one slot: its width and both buffers.
#[derive(Clone, Copy, Debug, PartialEq, Eq, Structural)]
pub struct SlotSnapshot {
    pub width: u64,
    pub curr: u64,
    pub next: u64,
}

/// Whether a waiter with `trigger` wakes when the slot's current value
/// becomes `value`; `None` wakes on any change.
pub open spec fn fires(trigger: Option<u64>, value: u64) -> bool {
    match trigger {
        None => true,
        Some(t) => t == value,
    }
}

/// The processes that a commit to `value` wakes, in registration order.
pub open spec fn woken_by(waiters: Seq<(u64, Option<u64>)>, value: u64) -> Seq<u64>
    decreases waiters.len(),
{
    if waiters.len() == 0 {
        Seq::empty()
    } else {
        let rest = woken_by(waiters.drop_last(), value);
        if fires(waiters.last().1, value) {
            rest.push(waiters.last().0)
        } else {
            rest
        }
    }
}

/// Each process waits at most once on a slot.
pub open spec fn processes_unique(waiters: Seq<(u64, Option<u64>)>) -> bool {
    forall|a: int, b: int|
        0 <= a < b < waiters.len() ==> #[trigger] waiters[a].0 != #[trigger] waiters[b].0
}

/// One signal slot as the kernel's model sees it.
pub struct SlotModel {
    pub signal: u64,
    pub width: u64,
    pub curr: u64,
    pub next: u64,
    pub waiters: Seq<(u64, Option<u64>)>,
}

/// The kernel as a mathematical value: the slot table in registration order
/// and the set of pending slot indices.
pub struct KernelModel {
    pub slots: Seq<SlotModel>,
    pub pending: Set<int>,
}

pub open spec fn slot_wf(s: SlotModel) -> bool {
    &&& s.width <= 64
    &&& truncated(s.curr, s.width) == s.curr
    &&& truncated(s.next, s.width) == s.next
    &&& processes_unique(s.waiters)
}

/// The kernel's invariant: slots are well formed, identities are distinct,
/// pending indices name slots, and every slot whose buffers differ is pending.
pub open spec fn model_wf(m: KernelModel) -> bool {
    &&& m.slots.len() <= usize::MAX
    &&& forall|i: int| 0 <= i < m.slots.len() ==> slot_wf(#[trigger] m.slots[i])
    &&& forall|i: int, j: int|
        0 <= i < j < m.slots.len() ==> #[trigger] m.slots[i].signal != #[trigger] m.slots[j].signal
    &&& forall|i: int| #[trigger] m.pending.contains(i) ==> 0 <= i < m.slots.len()
    &&& forall|i: int|
        0 <= i < m.slots.len() && !m.pending.contains(i) ==> #[trigger] m.slots[i].curr
            == m.slots[i].next
}

/// The slot that a first registration creates.
pub open spec fn fresh_slot(signal: u64, d: SignalDescriptor) -> SlotModel {
    SlotModel {
        signal,
        width: d.width,
        curr: truncated(d.reset, d.width),
        next: truncated(d.reset, d.width),
        waiters: Seq::empty(),
    }
}

pub open spec fn is_registered(m: KernelModel, signal: u64) -> bool {
    exists|i: int| 0 <= i < m.slots.len() && #[trigger] m.slots[i].signal == signal
}

/// The index of a registered signal.
pub open spec fn index_of(m: KernelModel, signal: u64) -> int {
    choose|i: int| 0 <= i < m.slots.len() && #[trigger] m.slots[i].signal == signal
}

/// Lazy registration: the existing index of a known signal; otherwise a new
/// slot at the end of the table, or an error for a width over 64 bits.
pub open spec fn register_model(m: KernelModel, signal: u64, d: SignalDescriptor) -> (
    KernelModel,
    Result<usize, SimulationError>,
) {
    if is_registered(m, signal) {
        (m, Ok(index_of(m, signal) as usize))
    } else if d.width > 64 {
        (m, Err(SimulationError::UnsupportedWidth))
    } else {
        (
            KernelModel { slots: m.slots.push(fresh_slot(signal, d)), pending: m.pending },
            Ok(m.slots.len() as usize),
        )
    }
}

/// `set`: the next buffer takes the truncated value and the slot is pending.
pub open spec fn set_model(m: KernelModel, i: int, value: u64) -> KernelModel {
    KernelModel {
        slots: m.slots.update(
            i,
            SlotModel { next: truncated(value, m.slots[i].width), ..m.slots[i] },
        ),
        pending: m.pending.insert(i),
    }
}

/// `update`: a `set` unless the next buffer already holds `value`.
pub open spec fn update_model(m: KernelModel, i: int, value: u64) -> KernelModel {
    if m.slots[i].next == value {
        m
    } else {
        set_model(m, i, value)
    }
}

/// Whether slot `j` changes in the commit pass over `m`.
pub open spec fn changed_in_round(m: KernelModel, j: int) -> bool {
    m.pending.contains(j) && m.slots[j].curr != m.slots[j].next
}

/// Whether the commit pass over `m` wakes `process`.
pub open spec fn woken_in_round(m: KernelModel, process: u64) -> bool {
    exists|j: int|
        changed_in_round(m, j) && #[trigger] woken_by(m.slots[j].waiters, m.slots[j].next).contains(
            process,
        )
}

/// What the commit pass over `m` appends to the woken list when it has
/// visited slots `0` to `n - 1`: for each changed slot, in index order, its
/// waiters whose trigger matches, in registration order.
pub open spec fn woken_upto(m: KernelModel, n: int) -> Seq<u64>
    decreases n,
{
    if n <= 0 {
        Seq::empty()
    } else {
        woken_upto(m, n - 1) + if changed_in_round(m, n - 1) {
            woken_by(m.slots[n - 1].waiters, m.slots[n - 1].next)
        } else {
            Seq::empty()
        }
    }
}

/// What the whole commit pass over `m` appends to the woken list.
pub open spec fn round_woken(m: KernelModel) -> Seq<u64> {
    woken_upto(m, m.slots.len() as int)
}

/// One commit pass: every pending slot takes its next value as current, and
/// the pending set empties. Each slot's outcome depends on that slot alone.
pub open spec fn commit_model(m: KernelModel) -> KernelModel {
    KernelModel {
        slots: Seq::new(
            m.slots.len(),
            |j: int|
                if m.pending.contains(j) {
                    SlotModel { curr: m.slots[j].next, ..m.slots[j] }
                } else {
                    m.slots[j]
                },
        ),
        pending: Set::empty(),
    }
}

/// The waiter list after `process` asks to wake on `trigger`: its entry is
/// replaced in place, or appended when it had none.
pub open spec fn waiters_with(
    ws: Seq<(u64, Option<u64>)>,
    process: u64,
    trigger: Option<u64>,
) -> Seq<(u64, Option<u64>)> {
    if exists|k: int| 0 <= k < ws.len() && #[trigger] ws[k].0 == process {
        let k = choose|k: int| 0 <= k < ws.len() && #[trigger] ws[k].0 == process;
        ws.update(k, (process, trigger))
    } else {
        ws.push((process, trigger))
    }
}

/// The waiter list without `process`'s entry, if it had one.
pub open spec fn waiters_without(ws: Seq<(u64, Option<u64>)>, process: u64) -> Seq<
    (u64, Option<u64>),
> {
    if exists|k: int| 0 <= k < ws.len() && #[trigger] ws[k].0 == process {
        let k = choose|k: int| 0 <= k < ws.len() && #[trigger] ws[k].0 == process;
        ws.remove(k)
    } else {
        ws
    }
}

/// `remove_trigger` on the model: a known signal loses `process`'s entry;
/// the result says whether there was one. An unknown signal is left alone.
pub open spec fn remove_trigger_model(m: KernelModel, process: u64, signal: u64) -> (
    KernelModel,
    bool,
) {
    if is_registered(m, signal) {
        let i = index_of(m, signal);
        let ws = m.slots[i].waiters;
        (
            with_waiters(m, i, waiters_without(ws, process)),
            exists|k: int| 0 <= k < ws.len() && #[trigger] ws[k].0 == process,
        )
    } else {
        (m, false)
    }
}

/// The model with the waiter list of slot `i` replaced.
pub open spec fn with_waiters(m: KernelModel, i: int, ws: Seq<(u64, Option<u64>)>) -> KernelModel {
    KernelModel { slots: m.slots.update(i, SlotModel { waiters: ws, ..m.slots[i] }), pending: m.pending }
}

/// `add_trigger` on the model: registration first, then the waiter entry.
pub open spec fn add_trigger_model(
    m: KernelModel,
    process: u64,
    signal: u64,
    d: SignalDescriptor,
    trigger: Option<u64>,
) -> (KernelModel, Result<(), SimulationError>) {
    let (m1, r) = register_model(m, signal, d);
    match r {
        Err(e) => (m1, Err(e)),
        Ok(i) => if m1.slots[i as int].waiters.contains((process, trigger)) {
            (m1, Err(SimulationError::DuplicateTrigger))
        } else {
            (with_waiters(m1, i as int, waiters_with(m1.slots[i as int].waiters, process, trigger)), Ok(()))
        },
    }
}

proof fn lemma_concat_contains<T>(a: Seq<T>, b: Seq<T>, x: T)
    ensures
        (a + b).contains(x) <==> a.contains(x) || b.contains(x),
{
    if (a + b).contains(x) {
        let k = choose|k: int| 0 <= k < (a + b).len() && (a + b)[k] == x;
        if k >= a.len() {
            assert(b[k - a.len()] == x);
        }
    }
    if a.contains(x) {
        let k = choose|k: int| 0 <= k < a.len() && a[k] == x;
        assert((a + b)[k] == x);
    }
    if b.contains(x) {
        let k = choose|k: int| 0 <= k < b.len() && b[k] == x;
        assert((a + b)[a.len() + k] == x);
    }
}

/// One signal: its identity, the cells of its current and next value, and
/// the processes waiting on it with their triggers.
pub struct WASMSignalState {
    pub signal: u64,
    pub curr: WASMValue,
    pub next: WASMValue,
    pub waiters: Vec<(u64, Option<u64>)>,
}

impl WASMSignalState {
    /// The slot's current value in the arena `words`.
    pub open spec fn curr_value(&self, words: Seq<u64>) -> u64 {
        words[self.curr.offset as int]
    }

    /// The slot's next value in the arena `words`.
    pub open spec fn next_value(&self, words: Seq<u64>) -> u64 {
        words[self.next.offset as int]
    }

    /// The slot's invariant over the arena `words`: its two cells are
    /// distinct words of the arena with one width of at most 64 bits, both
    /// stored values fit that width, and each process waits at most once.
    pub open spec fn wf_in(&self, words: Seq<u64>) -> bool {
        &&& self.curr.offset < words.len()
        &&& self.next.offset < words.len()
        &&& self.curr.offset != self.next.offset
        &&& self.curr.length == self.next.length
        &&& self.curr.length <= 64
        &&& truncated(self.curr_value(words), self.curr.length) == self.curr_value(words)
        &&& truncated(self.next_value(words), self.curr.length) == self.next_value(words)
        &&& processes_unique(self.waiters@)
    }

    /// The slot at `index` for `signal`: its cells are words `2 * index`
    /// and `2 * index + 1`, both set to the descriptor's reset value. The
    /// arena grows to hold them if it is too short.
    pub fn new(
        instance: &mut WASMInstance,
        index: usize,
        signal: u64,
        descriptor: SignalDescriptor,
    ) -> (r: Result<Self, SimulationError>)
        requires
            2 * index + 2 <= usize::MAX,
        ensures
            descriptor.width > 64 ==> r == Err::<Self, _>(SimulationError::UnsupportedWidth)
                && final(instance)@ == old(instance)@,
            descriptor.width <= 64 ==> r is Ok && ({
                let s = r->Ok_0;
                let t = truncated(descriptor.reset, descriptor.width);
                &&& s.signal == signal
                &&& s.curr == WASMValue { offset: (2 * index) as usize, length: descriptor.width }
                &&& s.next == WASMValue { offset: (2 * index + 1) as usize, length: descriptor.width }
                &&& s.waiters@ == Seq::<(u64, Option<u64>)>::empty()
                &&& final(instance)@ == grown(old(instance)@, (2 * index + 2) as nat).update(
                    2 * index as int,
                    t,
                ).update(2 * index as int + 1, t)
                &&& s.wf_in(final(instance)@)
            }),
    {
        if descriptor.width > 64 {
            return Err(SimulationError::UnsupportedWidth);
        }
        let ghost start = instance@;
        let ghost t = truncated(descriptor.reset, descriptor.width);
        let curr = WASMValue::new(instance, descriptor.width, 2 * index, descriptor.reset);
        let next = WASMValue::new(instance, descriptor.width, 2 * index + 1, descriptor.reset);
        proof {
            lemma_truncated_idempotent(descriptor.reset, descriptor.width);
            let n = (2 * index + 2) as nat;
            assert(instance@ =~= grown(start, n).update(2 * index as int, t).update(
                2 * index as int + 1,
                t,
            ));
        }
        Ok(WASMSignalState { signal, curr, next, waiters: Vec::new() })
    }

    /// Writes `value`, truncated to the slot's width, to the next buffer.
    /// The slot always becomes pending, so the result is always `true`.
    pub fn set(&self, instance: &mut WASMInstance, value: u64) -> (r: bool)
        requires
            self.next.offset < old(instance)@.len(),
            self.next.length <= 64,
        ensures
            r,
            final(instance)@ == old(instance)@.update(
                self.next.offset as int,
                truncated(value, self.next.length),
            ),
            self.wf_in(old(instance)@) ==> {
                &&& self.wf_in(final(instance)@)
                &&& self.next_value(final(instance)@) == truncated(value, self.curr.length)
                &&& self.curr_value(final(instance)@) == self.curr_value(old(instance)@)
            },
    {
        self.next.set(instance, value);
        proof {
            lemma_truncated_idempotent(value, self.next.length);
        }
        true
    }

    /// Writes `value` to the next buffer unless it already holds exactly
    /// that word; returns whether it wrote, that is whether the slot
    /// becomes pending. Either way the next buffer ends up holding `value`
    /// truncated to the slot's width.
    pub fn update(&self, instance: &mut WASMInstance, value: u64) -> (r: bool)
        requires
            self.next.offset < old(instance)@.len(),
            self.next.length <= 64,
        ensures
            r == (old(instance)@[self.next.offset as int] != value),
            r ==> final(instance)@ == old(instance)@.update(
                self.next.offset as int,
                truncated(value, self.next.length),
            ),
            !r ==> final(instance)@ == old(instance)@,
            self.wf_in(old(instance)@) ==> {
                &&& self.wf_in(final(instance)@)
                &&& self.next_value(final(instance)@) == truncated(value, self.curr.length)
                &&& self.curr_value(final(instance)@) == self.curr_value(old(instance)@)
            },
    {
        if self.next.get(instance) != value {
            self.set(instance, value);
            true
        } else {
            false
        }
    }

    /// Moves the next value into the current buffer when the two differ,
    /// appending to `woken` each waiter whose trigger matches the new value,
    /// in registration order. Returns whether the current value changed.
    pub fn commit(&self, instance: &mut WASMInstance, woken: &mut Vec<u64>) -> (r: bool)
        requires
            self.curr.offset < old(instance)@.len(),
            self.next.offset < old(instance)@.len(),
            self.curr.offset != self.next.offset,
            self.curr.length <= 64,
        ensures
            r == (old(instance)@[self.curr.offset as int] != old(instance)@[self.next.offset as int]),
            r ==> final(instance)@ == old(instance)@.update(
                self.curr.offset as int,
                truncated(old(instance)@[self.next.offset as int], self.curr.length),
            ),
            r ==> final(woken)@ == old(woken)@ + woken_by(
                self.waiters@,
                truncated(old(instance)@[self.next.offset as int], self.curr.length),
            ),
            !r ==> final(instance)@ == old(instance)@ && final(woken)@ == old(woken)@,
            self.wf_in(old(instance)@) ==> {
                &&& self.wf_in(final(instance)@)
                &&& self.curr_value(final(instance)@) == self.next_value(old(instance)@)
                &&& self.next_value(final(instance)@) == self.next_value(old(instance)@)
                &&& r ==> final(woken)@ == old(woken)@ + woken_by(
                    self.waiters@,
                    self.next_value(old(instance)@),
                )
                &&& forall|p: u64, t: Option<u64>|
                    #[trigger] self.waiters@.contains((p, t)) ==> (final(woken)@.contains(p)
                        <==> old(woken)@.contains(p) || (r && fires(
                        t,
                        self.next_value(old(instance)@),
                    )))
            },
    {
        let ghost words0 = instance@;
        let ghost woken0 = woken@;
        let c = self.curr.get(instance);
        let n = self.next.get(instance);
        if c == n {
            return false;
        }
        self.curr.set(instance, n);
        let v = self.curr.get(instance);
        let ghost start = woken@;
        let mut k: usize = 0;
        while k < self.waiters.len()
            invariant
                k <= self.waiters@.len(),
                woken@ == start + woken_by(self.waiters@.take(k as int), v),
            decreases self.waiters@.len() - k,
        {
            let w = self.waiters[k];
            let fire = match w.1 {
                None => true,
                Some(t) => t == v,
            };
            if fire {
                woken.push(w.0);
            }
            proof {
                assert(self.waiters@.take(k + 1).drop_last() =~= self.waiters@.take(k as int));
            }
            k = k + 1;
        }
        proof {
            assert(self.waiters@.take(k as int) =~= self.waiters@);
            if self.wf_in(words0) {
                assert forall|p: u64, t: Option<u64>|
                    #[trigger] self.waiters@.contains((p, t)) implies (woken@.contains(p)
                        <==> woken0.contains(p) || fires(t, self.next_value(words0))) by {
                    lemma_concat_contains(woken0, woken_by(self.waiters@, v), p);
                    lemma_waiter_fires(self.waiters@, p, t, v);
                }
            }
        }
        true
    }
}

/// The simulation kernel: the arena, the slot table in registration order,
/// and a pending flag per slot. Callers reach slots by index only.
pub struct WASMSimulation {
    memory: WASMInstance,
    slots: Vec<WASMSignalState>,
    pending: Vec<bool>,
}

impl View for WASMSimulation {
    type V = KernelModel;

    closed spec fn view(&self) -> KernelModel {
        KernelModel {
            slots: Seq::new(
                self.slots@.len(),
                |i: int|
                    SlotModel {
                        signal: self.slots@[i].signal,
                        width: self.slots@[i].curr.length,
                        curr: self.memory@[2 * i],
                        next: self.memory@[2 * i + 1],
                        waiters: self.slots@[i].waiters@,
                    },
            ),
            pending: Set::new(|i: int| 0 <= i < self.pending@.len() && self.pending@[i]),
        }
    }
}

impl WASMSimulation {
    /// The layout invariant tying the slot table to the arena, together
    /// with the model's own invariant.
    pub closed spec fn wf(&self) -> bool {
        &&& self.memory@.len() == 2 * self.slots@.len()
        &&& self.pending@.len() == self.slots@.len()
        &&& forall|i: int|
            0 <= i < self.slots@.len() ==> {
                &&& (#[trigger] self.slots@[i]).curr.offset == 2 * i
                &&& self.slots@[i].next.offset == 2 * i + 1
                &&& self.slots@[i].next.length == self.slots@[i].curr.length
            }
        &&& model_wf(self@)
    }

    /// The kernel's invariant, as callers can use it.
    pub proof fn lemma_wf(&self)
        requires
            self.wf(),
        ensures
            model_wf(self@),
    {
    }

    /// A kernel with no signals.
    pub fn new() -> (r: Self)
        ensures
            r.wf(),
            r@.slots.len() == 0,
            r@.pending == Set::<int>::empty(),
    {
        let r = WASMSimulation { memory: WASMInstance::new(), slots: Vec::new(), pending: Vec::new() };
        assert(r@.pending =~= Set::<int>::empty());
        r
    }

    /// The number of registered signals.
    pub fn len(&self) -> (r: usize)
        requires
            self.wf(),
        ensures
            r == self@.slots.len(),
    {
        self.slots.len()
    }

    /// The index of `signal` if it is registered; nothing is registered.
    pub fn lookup(&self, signal: u64) -> (r: Option<usize>)
        requires
            self.wf(),
        ensures
            r is Some <==> is_registered(self@, signal),
            r is Some ==> r->Some_0 == index_of(self@, signal),
    {
        let mut i: usize = 0;
        while i < self.slots.len()
            invariant
                self.wf(),
                i <= self.slots@.len(),
                self@.slots.len() == self.slots@.len(),
                forall|j: int| 0 <= j < i ==> #[trigger] self@.slots[j].signal != signal,
            decreases self.slots@.len() - i,
        {
            if self.slots[i].signal == signal {
                proof {
                    assert(self@.slots[i as int].signal == signal);
                    let j = index_of(self@, signal);
                    assert(self@.slots[j].signal == signal);
                    assert(model_wf(self@));
                    if j < i {
                        assert(self@.slots[j].signal != self@.slots[i as int].signal);
                    } else if j > i {
                        assert(self@.slots[i as int].signal != self@.slots[j].signal);
                    }
                }
                return Some(i);
            }
            i = i + 1;
        }
        None
    }

    /// The index of `signal`, registering it from `descriptor` when it is new.
    /// A known signal keeps its index, width and values; a new one takes the
    /// next index. A width over 64 bits is refused.
    pub fn get_signal(&mut self, signal: u64, descriptor: SignalDescriptor) -> (r: Result<
        usize,
        SimulationError,
    >)
        requires
            old(self).wf(),
            2 * old(self)@.slots.len() + 2 <= usize::MAX,
        ensures
            final(self).wf(),
            (final(self)@, r) == register_model(old(self)@, signal, descriptor),
    {
        if let Some(i) = self.lookup(signal) {
            return Ok(i);
        }
        let ghost old_m = self@;
        let index = self.slots.len();
        let slot = WASMSignalState::new(&mut self.memory, index, signal, descriptor);
        match slot {
            Err(e) => Err(e),
            Ok(slot) => {
                self.slots.push(slot);
                self.pending.push(false);
                proof {
                    let m = register_model(old_m, signal, descriptor).0;
                    lemma_truncated_idempotent(descriptor.reset, descriptor.width);
                    assert(self@.slots =~= m.slots);
                    assert(self@.pending =~= m.pending);
                }
                Ok(index)
            }
        }
    }

    /// The width and both buffers of slot `index`.
    pub fn get_slot(&self, index: usize) -> (r: SlotSnapshot)
        requires
            self.wf(),
            index < self@.slots.len(),
        ensures
            r == (SlotSnapshot {
                width: self@.slots[index as int].width,
                curr: self@.slots[index as int].curr,
                next: self@.slots[index as int].next,
            }),
    {
        let slot = &self.slots[index];
        SlotSnapshot {
            width: slot.curr.length,
            curr: slot.curr.get(&self.memory),
            next: slot.next.get(&self.memory),
        }
    }

    /// Writes `value` to the next buffer of slot `index` and marks the slot
    /// pending, whatever it held before.
    pub fn set_slot(&mut self, index: u64, value: u64)
        requires
            old(self).wf(),
            index < old(self)@.slots.len(),
        ensures
            final(self).wf(),
            final(self)@ == set_model(old(self)@, index as int, value),
    {
        let ghost old_m = self@;
        let i = index as usize;
        assert(slot_wf(self@.slots[i as int]));
        self.slots[i].set(&mut self.memory, value);
        self.pending.set(i, true);
        proof {
            let m = set_model(old_m, i as int, value);
            lemma_truncated_idempotent(value, old_m.slots[i as int].width);
            assert(self@.slots =~= m.slots);
            assert(self@.pending =~= m.pending);
        }
    }

    /// Like `set_slot`, but leaves the kernel as it is when the next buffer
    /// of slot `index` already holds `value`.
    pub fn update_slot(&mut self, index: u64, value: u64)
        requires
            old(self).wf(),
            index < old(self)@.slots.len(),
        ensures
            final(self).wf(),
            final(self)@ == update_model(old(self)@, index as int, value),
    {
        let ghost old_m = self@;
        let i = index as usize;
        assert(slot_wf(self@.slots[i as int]));
        if self.slots[i].update(&mut self.memory, value) {
            self.pending.set(i, true);
            proof {
                let m = set_model(old_m, i as int, value);
                lemma_truncated_idempotent(value, old_m.slots[i as int].width);
                assert(self@.slots =~= m.slots);
                assert(self@.pending =~= m.pending);
            }
        } else {
            assert(self@.slots =~= old_m.slots);
        }
    }

    /// One commit pass over the pending slots. Each pending slot whose next
    /// value differs from its current one takes it as current; its index is
    /// added to `changed`, and every process waiting on it with a matching
    /// trigger to `woken`. The pending set is then empty. Returns whether no
    /// slot changed.
    pub fn commit(&mut self, changed: &mut Vec<usize>, woken: &mut Vec<u64>) -> (r: bool)
        requires
            old(self).wf(),
        ensures
            final(self).wf(),
            final(self)@ == commit_model(old(self)@),
            r == (forall|j: int| !#[trigger] changed_in_round(old(self)@, j)),
            forall|x: usize|
                #[trigger] final(changed)@.contains(x) <==> old(changed)@.contains(x)
                    || changed_in_round(old(self)@, x as int),
            final(woken)@ == old(woken)@ + round_woken(old(self)@),
            forall|p: u64|
                #[trigger] final(woken)@.contains(p) <==> old(woken)@.contains(p)
                    || woken_in_round(old(self)@, p),
    {
        let ghost m0 = self@;
        let ghost slots0 = self.slots@;
        let ghost mem0 = self.memory@;
        let ghost pend0 = self.pending@;
        let ghost ch0 = changed@;
        let ghost wk0 = woken@;
        let mut converged = true;
        let mut j: usize = 0;
        while j < self.slots.len()
            invariant
                j <= self.slots@.len(),
                self.slots@ == slots0,
                self.memory@.len() == mem0.len(),
                self.pending@.len() == pend0.len(),
                mem0.len() == 2 * slots0.len(),
                pend0.len() == slots0.len(),
                forall|i: int|
                    0 <= i < slots0.len() ==> {
                        &&& (#[trigger] slots0[i]).curr.offset == 2 * i
                        &&& slots0[i].next.offset == 2 * i + 1
                        &&& slots0[i].next.length == slots0[i].curr.length
                    },
                m0.slots.len() == slots0.len(),
                forall|i: int|
                    0 <= i < slots0.len() ==> #[trigger] m0.slots[i] == (SlotModel {
                        signal: slots0[i].signal,
                        width: slots0[i].curr.length,
                        curr: mem0[2 * i],
                        next: mem0[2 * i + 1],
                        waiters: slots0[i].waiters@,
                    }),
                forall|i: int| #[trigger] m0.pending.contains(i) <==> 0 <= i < pend0.len() && pend0[i],
                model_wf(m0),
                forall|i: int| 0 <= i < j ==> #[trigger] self.memory@[2 * i] == mem0[2 * i + 1],
                forall|i: int| 0 <= i < j ==> #[trigger] self.memory@[2 * i + 1] == mem0[2 * i + 1],
                forall|i: int| 0 <= i < j ==> !#[trigger] self.pending@[i],
                forall|i: int| j <= i < slots0.len() ==> #[trigger] self.memory@[2 * i] == mem0[2 * i],
                forall|i: int|
                    j <= i < slots0.len() ==> #[trigger] self.memory@[2 * i + 1] == mem0[2 * i + 1],
                forall|i: int| j <= i < slots0.len() ==> #[trigger] self.pending@[i] == pend0[i],
                converged == (forall|i: int| 0 <= i < j ==> !#[trigger] changed_in_round(m0, i)),
                woken@ == wk0 + woken_upto(m0, j as int),
                forall|x: usize|
                    #[trigger] changed@.contains(x) <==> ch0.contains(x) || (x < j
                        && changed_in_round(m0, x as int)),
                forall|p: u64|
                    #[trigger] woken@.contains(p) <==> wk0.contains(p) || exists|i: int|
                        0 <= i < j && changed_in_round(m0, i) && #[trigger] woken_by(
                            m0.slots[i].waiters,
                            m0.slots[i].next,
                        ).contains(p),
            decreases slots0.len() - j,
        {
            let ghost jj = j as int;
            let ghost wk_prev = woken@;
            let ghost ch_prev = changed@;
            let ghost step = changed_in_round(m0, jj);
            let ghost fired = woken_by(m0.slots[jj].waiters, m0.slots[jj].next);
            assert(slot_wf(m0.slots[jj]));
            assert(slots0[jj].curr.offset == 2 * jj);
            assert(self.memory@[2 * jj] == mem0[2 * jj]);
            assert(step == (pend0[jj] && mem0[2 * jj] != mem0[2 * jj + 1]));
            if self.pending[j] {
                let c = self.slots[j].commit(&mut self.memory, woken);
                if c {
                    changed.push(j);
                    converged = false;
                    proof {
                        assert(changed@ =~= ch_prev + seq![j]);
                        assert forall|x: usize| #[trigger] changed@.contains(x) <==> ch_prev.contains(x) || x == j by {
                            lemma_concat_contains(ch_prev, seq![j], x);
                            if x == j {
                                assert(seq![j][0] == x);
                            }
                            if seq![j].contains(x) {
                                assert(seq![j][0] == x);
                            }
                        }
                        assert forall|p: u64| #[trigger] woken@.contains(p) <==> wk_prev.contains(p)
                            || fired.contains(p) by {
                            lemma_concat_contains(wk_prev, fired, p);
                        }
                    }
                }
                self.pending.set(j, false);
            }
            proof {
                if step {
                    assert(woken@ =~= wk0 + woken_upto(m0, j + 1));
                } else {
                    assert(woken@ =~= wk0 + woken_upto(m0, j + 1));
                }
                assert forall|x: usize| #[trigger] changed@.contains(x) <==> ch_prev.contains(x) || (x == j && step) by {
                }
                assert forall|p: u64| #[trigger] woken@.contains(p) <==> wk_prev.contains(p)
                    || (step && fired.contains(p)) by {
                }
                assert forall|p: u64| #[trigger] woken@.contains(p) <==> wk0.contains(p) || exists|i: int|
                        0 <= i < j + 1 && changed_in_round(m0, i) && #[trigger] woken_by(
                            m0.slots[i].waiters,
                            m0.slots[i].next,
                        ).contains(p) by {
                    if woken@.contains(p) && !wk0.contains(p) {
                        if wk_prev.contains(p) {
                            let i = choose|i: int|
                                0 <= i < j && changed_in_round(m0, i) && #[trigger] woken_by(
                                    m0.slots[i].waiters,
                                    m0.slots[i].next,
                                ).contains(p);
                            assert(0 <= i < j + 1);
                        } else {
                            assert(0 <= jj < j + 1 && changed_in_round(m0, jj) && fired.contains(p));
                        }
                    }
                    if exists|i: int|
                        0 <= i < j + 1 && changed_in_round(m0, i) && #[trigger] woken_by(
                            m0.slots[i].waiters,
                            m0.slots[i].next,
                        ).contains(p) {
                        let i = choose|i: int|
                            0 <= i < j + 1 && changed_in_round(m0, i) && #[trigger] woken_by(
                                m0.slots[i].waiters,
                                m0.slots[i].next,
                            ).contains(p);
                        if i < j {
                            assert(wk_prev.contains(p));
                        }
                    }
                }
            }
            j = j + 1;
        }
        proof {
            let m = commit_model(m0);
            assert forall|i: int| 0 <= i < slots0.len() implies #[trigger] self@.slots[i] == m.slots[i] by {
                assert(slots0[i].curr.offset == 2 * i);
            }
            assert(self@.slots =~= m.slots);
            assert(self@.pending =~= m.pending);
        }
        converged
    }

    /// Registers `process` to wake when `signal` commits to `trigger`, or on
    /// any commit when `trigger` is `None`; the signal is registered from
    /// `descriptor` when it is new. A process has at most one trigger per
    /// signal: a different one replaces it, the same one is an error.
    pub fn add_trigger(
        &mut self,
        process: u64,
        signal: u64,
        descriptor: SignalDescriptor,
        trigger: Option<u64>,
    ) -> (r: Result<(), SimulationError>)
        requires
            old(self).wf(),
            2 * old(self)@.slots.len() + 2 <= usize::MAX,
        ensures
            final(self).wf(),
            (final(self)@, r) == add_trigger_model(old(self)@, process, signal, descriptor, trigger),
    {
        let index = match self.get_signal(signal, descriptor) {
            Err(e) => return Err(e),
            Ok(i) => i,
        };
        let ghost m1 = self@;
        let ghost ii = index as int;
        proof {
            if is_registered(old(self)@, signal) {
                let i = index_of(old(self)@, signal);
                assert(0 <= i < old(self)@.slots.len());
            }
        }
        assert(0 <= ii < m1.slots.len());
        assert(slot_wf(m1.slots[ii]));
        let ghost ws = m1.slots[ii].waiters;
        assert(ws == self.slots@[ii].waiters@);
        let found = find_waiter(&self.slots[index].waiters, process);
        match found {
            Some(k) => {
                let w = self.slots[index].waiters[k];
                if same_trigger(w.1, trigger) {
                    assert(ws[k as int] == (process, trigger));
                    assert(ws.contains((process, trigger)));
                    return Err(SimulationError::DuplicateTrigger);
                }
                proof {
                    if ws.contains((process, trigger)) {
                        let q = choose|q: int| 0 <= q < ws.len() && ws[q] == (process, trigger);
                        if q < k {
                            assert(ws[q].0 != ws[k as int].0);
                        } else if q > k {
                            assert(ws[k as int].0 != ws[q].0);
                        }
                    }
                    assert(ws[k as int].0 == process);
                    let c = choose|q: int| 0 <= q < ws.len() && #[trigger] ws[q].0 == process;
                    if c < k {
                        assert(ws[c].0 != ws[k as int].0);
                    } else if c > k {
                        assert(ws[k as int].0 != ws[c].0);
                    }
                    assert(waiters_with(ws, process, trigger) == ws.update(k as int, (process, trigger)));
                }
                self.slots[index].waiters.set(k, (process, trigger));
                assert(self.slots@[ii].waiters@ == waiters_with(ws, process, trigger));
            },
            None => {
                proof {
                    if ws.contains((process, trigger)) {
                        let q = choose|q: int| 0 <= q < ws.len() && ws[q] == (process, trigger);
                        assert(ws[q].0 == process);
                    }
                }
                self.slots[index].waiters.push((process, trigger));
                assert(self.slots@[ii].waiters@ == waiters_with(ws, process, trigger));
            },
        }
        proof {
            let m = add_trigger_model(m1, process, signal, descriptor, trigger).0;
            assert(self@.slots =~= m.slots);
            assert(self@.pending =~= m.pending);
            assert(slot_wf(self@.slots[ii]));
        }
        Ok(())
    }

    /// Stops `process` from waiting on `signal`. Waiters are not removed
    /// when they fire, so a process that wants one wake-up removes itself.
    /// Returns whether the process was waiting there.
    pub fn remove_trigger(&mut self, process: u64, signal: u64) -> (r: bool)
        requires
            old(self).wf(),
        ensures
            final(self).wf(),
            (final(self)@, r) == remove_trigger_model(old(self)@, process, signal),
    {
        let index = match self.lookup(signal) {
            None => return false,
            Some(i) => i,
        };
        let ghost m1 = self@;
        let ghost ii = index as int;
        assert(slot_wf(m1.slots[ii]));
        let ghost ws = m1.slots[ii].waiters;
        assert(ws == self.slots@[ii].waiters@);
        match find_waiter(&self.slots[index].waiters, process) {
            None => {
                assert(ws =~= waiters_without(ws, process));
                assert(self@ == with_waiters(m1, ii, ws)) by {
                    assert(self@.slots =~= with_waiters(m1, ii, ws).slots);
                }
                false
            },
            Some(k) => {
                proof {
                    let c = choose|q: int| 0 <= q < ws.len() && #[trigger] ws[q].0 == process;
                    if c < k {
                        assert(ws[c].0 != ws[k as int].0);
                    } else if c > k {
                        assert(ws[k as int].0 != ws[c].0);
                    }
                    assert(waiters_without(ws, process) == ws.remove(k as int));
                }
                self.slots[index].waiters.remove(k);
                proof {
                    let m = remove_trigger_model(m1, process, signal).0;
                    let nw = ws.remove(k as int);
                    assert(self.slots@[ii].waiters@ == nw);
                    assert forall|a: int, b: int| 0 <= a < b < nw.len() implies #[trigger] nw[a].0
                        != #[trigger] nw[b].0 by {
                        let a0 = if a < k { a } else { a + 1 };
                        let b0 = if b < k { b } else { b + 1 };
                        assert(ws[a0].0 != ws[b0].0);
                    }
                    assert(self@.slots =~= m.slots);
                    assert(self@.pending =~= m.pending);
                    assert(slot_wf(self@.slots[ii]));
                }
                true
            },
        }
    }
}

/// The position of `process` in `ws`, if it waits there.
fn find_waiter(ws: &Vec<(u64, Option<u64>)>, process: u64) -> (r: Option<usize>)
    ensures
        r is None ==> forall|q: int| 0 <= q < ws@.len() ==> #[trigger] ws@[q].0 != process,
        r is Some ==> r->Some_0 < ws@.len() && ws@[r->Some_0 as int].0 == process,
{
    let mut k: usize = 0;
    while k < ws.len()
        invariant
            k <= ws@.len(),
            forall|q: int| 0 <= q < k ==> #[trigger] ws@[q].0 != process,
        decreases ws@.len() - k,
    {
        if ws[k].0 == process {
            return Some(k);
        }
        k = k + 1;
    }
    None
}

fn same_trigger(a: Option<u64>, b: Option<u64>) -> (r: bool)
    ensures
        r == (a == b),
{
    match (a, b) {
        (None, None) => true,
        (Some(x), Some(y)) => x == y,
        _ => false,
    }
}

} // verus!
