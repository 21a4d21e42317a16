//! The mathematical model of the arena, and what holds of every run of it.

use vstd::prelude::*;
use crate::slotmap::id::SlotMapId;

verus! {

/// The generation a slot gets when it is reused: the next one, going from
/// the largest back to 1 and never through 0.
pub open spec fn next_generation(generation: u32) -> u32 {
    if generation == u32::MAX {
        1u32
    } else {
        (generation + 1) as u32
    }
}

/// What an arena holds, as mathematics.
///
/// `generations[i]` is the current generation of slot `i`, for every slot
/// that was ever created. `values` maps the index of each occupied slot to
/// the value stored there; a slot outside its domain is free.
pub struct SlotMapView<T> {
    pub generations: Seq<u32>,
    pub values: Map<int, T>,
}

/// One step of a run of the arena.
pub enum SlotOp<T> {
    Add(T),
    Remove(SlotMapId),
}

impl<T> SlotMapView<T> {
    /// The arena with no slot.
    pub open spec fn empty() -> Self {
        SlotMapView { generations: Seq::empty(), values: Map::empty() }
    }

    /// Occupied slots exist, no generation is zero, and slot indices fit in 32 bits.
    pub open spec fn wf(self) -> bool {
        &&& self.generations.len() <= u32::MAX
        &&& self.values.dom().finite()
        &&& forall|i: int| self.values.contains_key(i) ==> 0 <= i < self.generations.len()
        &&& forall|i: int| 0 <= i < self.generations.len() ==> self.generations[i] != 0
    }

    /// Number of values stored.
    pub open spec fn len(self) -> nat {
        self.values.dom().len()
    }

    /// Slot `i` exists and holds no value.
    pub open spec fn is_free(self, i: int) -> bool {
        0 <= i < self.generations.len() && !self.values.contains_key(i)
    }

    /// Slot `i` is free and no free slot has a smaller index.
    pub open spec fn is_lowest_free(self, i: int) -> bool {
        self.is_free(i) && forall|j: int| self.is_free(j) ==> i <= j
    }

    pub open spec fn has_free(self) -> bool {
        exists|i: int| self.is_free(i)
    }

    /// The slot the next `add` fills: the lowest free slot, or a new slot
    /// after the last one when none is free.
    pub open spec fn next_index(self) -> int {
        if self.has_free() {
            choose|i: int| self.is_lowest_free(i)
        } else {
            self.generations.len() as int
        }
    }

    /// The generation the next `add` issues: 1 for a new slot, the
    /// successor of the slot's generation for a reused one.
    pub open spec fn next_generation(self) -> u32 {
        if self.has_free() {
            next_generation(self.generations[self.next_index()])
        } else {
            1u32
        }
    }

    /// `id` names a value that is stored now.
    pub open spec fn contains(self, id: SlotMapId) -> bool {
        &&& id.index() < self.generations.len()
        &&& self.generations[id.index() as int] == id.generation()
        &&& self.values.contains_key(id.index() as int)
    }

    /// The value that `id` names, if it names one.
    pub open spec fn get(self, id: SlotMapId) -> Option<T> {
        if self.contains(id) {
            Some(self.values[id.index() as int])
        } else {
            None
        }
    }

    /// The arena after `item` was stored under
    /// (`self.next_index()`, `self.next_generation()`).
    pub open spec fn add(self, item: T) -> Self {
        let i = self.next_index();
        SlotMapView {
            generations: if self.has_free() {
                self.generations.update(i, self.next_generation())
            } else {
                self.generations.push(1u32)
            },
            values: self.values.insert(i, item),
        }
    }

    /// The arena after the value that `id` names, if any, was taken out.
    /// The slot keeps its generation.
    pub open spec fn remove(self, id: SlotMapId) -> Self {
        if self.contains(id) {
            SlotMapView {
                generations: self.generations,
                values: self.values.remove(id.index() as int),
            }
        } else {
            self
        }
    }

    /// `id` could have been handed out at some time up to now, provided
    /// the generation of its slot never started over: its slot exists and
    /// has reached the generation of `id`.
    pub open spec fn issued(self, id: SlotMapId) -> bool {
        &&& id.index() < self.generations.len()
        &&& 1 <= id.generation() <= self.generations[id.index() as int]
    }

    /// The arena after one step.
    pub open spec fn step(self, op: SlotOp<T>) -> Self {
        match op {
            SlotOp::Add(item) => self.add(item),
            SlotOp::Remove(id) => self.remove(id),
        }
    }

    /// The arena after the steps of `ops`, first to last.
    pub open spec fn run(self, ops: Seq<SlotOp<T>>) -> Self
        decreases ops.len(),
    {
        if ops.len() == 0 {
            self
        } else {
            self.run(ops.drop_last()).step(ops.last())
        }
    }

    /// This step reuses slot `i` while its generation is the largest one,
    /// so that the generation starts over at 1.
    pub open spec fn step_wraps(self, op: SlotOp<T>, i: int) -> bool {
        &&& op is Add
        &&& self.has_free()
        &&& self.next_index() == i
        &&& self.generations[i] == u32::MAX
    }

    /// Some step of the run starts the generation of slot `i` over.
    pub open spec fn run_wraps(self, ops: Seq<SlotOp<T>>, i: int) -> bool
        decreases ops.len(),
    {
        if ops.len() == 0 {
            false
        } else {
            self.run_wraps(ops.drop_last(), i) || self.run(ops.drop_last()).step_wraps(
                ops.last(),
                i,
            )
        }
    }

    /// A slot that is shown to be the lowest free one is the one `add` fills.
    pub proof fn lemma_next_index_is(self, i: int)
        requires
            self.is_lowest_free(i),
        ensures
            self.has_free(),
            self.next_index() == i,
    {
        let j = choose|j: int| self.is_lowest_free(j);
        assert(self.is_lowest_free(j));
    }

    /// Where a slot is free, `add` fills a free slot; else the index after the last.
    pub proof fn lemma_next_index(self)
        requires
            self.wf(),
        ensures
            self.has_free() ==> self.is_lowest_free(self.next_index()),
            !self.has_free() ==> self.next_index() == self.generations.len(),
            0 <= self.next_index() <= self.generations.len(),
            !self.values.contains_key(self.next_index()),
            self.next_generation() != 0,
    {
        if self.has_free() {
            let w = choose|i: int| self.is_free(i);
            self.lemma_lowest_free_exists(w);
        }
    }

    proof fn lemma_lowest_free_exists(self, w: int)
        requires
            self.is_free(w),
        ensures
            exists|i: int| self.is_lowest_free(i),
        decreases w,
    {
        if exists|j: int| self.is_free(j) && j < w {
            let j = choose|j: int| self.is_free(j) && j < w;
            self.lemma_lowest_free_exists(j);
        } else {
            assert(self.is_lowest_free(w));
        }
    }

    /// `add` and `remove` keep the model well formed, and `add` stores one
    /// value more.
    pub proof fn law_step_keeps_wf(self, op: SlotOp<T>)
        requires
            self.wf(),
            op is Add ==> self.len() < u32::MAX,
        ensures
            self.step(op).wf(),
            op is Add ==> self.step(op).len() == self.len() + 1,
    {
        self.lemma_next_index();
        match op {
            SlotOp::Add(item) => {
                if !self.has_free() {
                    self.lemma_full_len();
                }
            },
            SlotOp::Remove(id) => {},
        }
    }

    /// An identifier resolves to the value it was issued for: right after
    /// `add`, `get` on the new identifier finds the stored value.
    pub proof fn law_add_then_get(self, item: T, id: SlotMapId)
        requires
            id.index() == self.next_index(),
            id.generation() == self.next_generation(),
        ensures
            self.add(item).contains(id),
            self.add(item).get(id) == Some(item),
    {
        if self.has_free() {
            let w = choose|i: int| self.is_free(i);
            self.lemma_lowest_free_exists(w);
        }
    }

    /// After `remove(id)`, `get(id)` finds nothing.
    pub proof fn law_remove_then_get(self, id: SlotMapId)
        ensures
            !self.remove(id).contains(id),
            self.remove(id).get(id) is None,
    {
    }

    /// An identifier that names a value keeps naming that value through
    /// every run that does not remove it.
    pub proof fn law_live_id_is_kept(self, id: SlotMapId, ops: Seq<SlotOp<T>>)
        requires
            self.contains(id),
            forall|k: int| 0 <= k < ops.len() ==> ops[k] != SlotOp::<T>::Remove(id),
        ensures
            self.run(ops).contains(id),
            self.run(ops).get(id) == self.get(id),
        decreases ops.len(),
    {
        if ops.len() > 0 {
            let before = self.run(ops.drop_last());
            self.law_live_id_is_kept(id, ops.drop_last());
            match ops.last() {
                SlotOp::Add(item) => {
                    if before.has_free() {
                        let w = choose|i: int| before.is_free(i);
                        before.lemma_lowest_free_exists(w);
                    }
                },
                SlotOp::Remove(other) => {
                    assert(other != id);
                    if other.index() == id.index() && before.contains(other) {
                        id.lemma_ext_equal(other);
                    }
                },
            }
        }
    }

    /// A stale identifier never resolves again: once `id` has been issued
    /// and names no value, `get(id)` finds nothing after any run of `add`
    /// and `remove`, also when its slot is reused, as long as the
    /// generation of its slot does not start over.
    pub proof fn law_stale_id_stays_stale(self, id: SlotMapId, ops: Seq<SlotOp<T>>)
        requires
            self.issued(id),
            !self.contains(id),
            !self.run_wraps(ops, id.index() as int),
        ensures
            self.run(ops).issued(id),
            !self.run(ops).contains(id),
            self.run(ops).get(id) is None,
        decreases ops.len(),
    {
        if ops.len() > 0 {
            let before = self.run(ops.drop_last());
            self.law_stale_id_stays_stale(id, ops.drop_last());
            match ops.last() {
                SlotOp::Add(item) => {
                    if before.has_free() {
                        let w = choose|i: int| before.is_free(i);
                        before.lemma_lowest_free_exists(w);
                    }
                },
                SlotOp::Remove(other) => {},
            }
        }
    }

    /// The generation of a slot never goes down, and no slot goes away,
    /// as long as the generation does not start over.
    pub proof fn law_generation_never_decreases(self, ops: Seq<SlotOp<T>>, i: int)
        requires
            0 <= i < self.generations.len(),
            !self.run_wraps(ops, i),
        ensures
            i < self.run(ops).generations.len(),
            self.run(ops).generations[i] >= self.generations[i],
        decreases ops.len(),
    {
        if ops.len() > 0 {
            let before = self.run(ops.drop_last());
            self.law_generation_never_decreases(ops.drop_last(), i);
            match ops.last() {
                SlotOp::Add(item) => {
                    if before.has_free() {
                        let w = choose|w: int| before.is_free(w);
                        before.lemma_lowest_free_exists(w);
                    }
                },
                SlotOp::Remove(other) => {},
            }
        }
    }

    /// A reused slot is handed out under a newer generation: where `id`
    /// was issued before the run and the `add` after the run fills the
    /// slot of `id`, the identifier it returns has a strictly greater
    /// generation, as long as the generation of that slot does not start
    /// over.
    pub proof fn law_reissued_generation_is_greater(
        self,
        id: SlotMapId,
        ops: Seq<SlotOp<T>>,
        item: T,
    )
        requires
            self.issued(id),
            !self.run_wraps(ops.push(SlotOp::Add(item)), id.index() as int),
            self.run(ops).next_index() == id.index(),
        ensures
            self.run(ops).next_generation() > id.generation(),
    {
        let all = ops.push(SlotOp::Add(item));
        assert(all.drop_last() =~= ops);
        assert(all.last() == SlotOp::Add(item));
        self.law_generation_never_decreases(ops, id.index() as int);
        let before = self.run(ops);
        assert(!before.step_wraps(SlotOp::Add(item), id.index() as int));
    }

    /// With no free slot, there are as many values as slots.
    pub proof fn lemma_full_len(self)
        requires
            self.wf(),
            !self.has_free(),
        ensures
            self.len() == self.generations.len(),
    {
        let n = self.generations.len() as int;
        let all = Set::new(|i: int| 0 <= i < n);
        assert forall|i: int| all.contains(i) implies self.values.dom().contains(i) by {
            if !self.values.contains_key(i) {
                assert(self.is_free(i));
            }
        }
        assert(self.values.dom() =~= all);
        lemma_range_len(n);
    }
}

/// The integers from 0 up to `n`, `n` excluded, are `n` in number.
pub proof fn lemma_range_len(n: int)
    requires
        n >= 0,
    ensures
        Set::new(|i: int| 0 <= i < n).finite(),
        Set::new(|i: int| 0 <= i < n).len() == n,
    decreases n,
{
    let s = Set::new(|i: int| 0 <= i < n);
    if n == 0 {
        assert(s =~= Set::<int>::empty());
    } else {
        lemma_range_len(n - 1);
        let t = Set::new(|i: int| 0 <= i < n - 1);
        assert(s =~= t.insert(n - 1));
    }
}

} // verus!
