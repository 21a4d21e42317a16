//! The arena: a packed array of values behind generational identifiers.

use vstd::prelude::*;
use std::collections::BTreeMap;
use crate::slotmap::bitmap::Bitmap;
use crate::slotmap::bitmap::BITS_PER_WORD;
use crate::slotmap::id::SlotMapId;
use crate::slotmap::model::next_generation;
use crate::slotmap::model::SlotMapView;
use crate::sorted::least_key;

verus! {

/// Stands in the slot-to-element table for a slot that holds no value.
/// No element has this position: the arena never holds that many values.
const VACANT: u32 = u32::MAX;

/// A reusable-slot arena.
///
/// Values sit in `elements` without gaps. `slot_element_indices` leads from
/// a slot to the position of its value, `element_slot_indices` leads back.
/// Free slots are recorded in 64-slot blocks, keyed by block position.
pub struct SlotMap<T> {
    elements: Vec<T>,
    element_slot_indices: Vec<u32>,
    slot_element_indices: Vec<u32>,
    slot_generations: Vec<u32>,
    freed_bitmaps: BTreeMap<u32, Bitmap>,
}

impl<T> View for SlotMap<T> {
    type V = SlotMapView<T>;

    closed spec fn view(&self) -> SlotMapView<T> {
        SlotMapView {
            generations: self.slot_generations@,
            values: Map::new(
                |s: int| self.slot_is_occupied(s),
                |s: int| self.value_at(s),
            ),
        }
    }
}

impl<T> SlotMap<T> {
    spec fn slot_is_occupied(&self, s: int) -> bool {
        0 <= s < self.slot_element_indices@.len() && self.slot_element_indices@[s] != VACANT
    }

    spec fn slot_is_vacant(&self, s: int) -> bool {
        0 <= s < self.slot_element_indices@.len() && self.slot_element_indices@[s] == VACANT
    }

    /// The value that slot `s` leads to.
    spec fn value_at(&self, s: int) -> T {
        self.elements@[self.slot_element_indices@[s] as int]
    }

    /// The free list records slot `s` as free.
    spec fn slot_is_listed(&self, s: int) -> bool {
        &&& 0 <= s
        &&& s / 64 <= u32::MAX
        &&& self.freed_bitmaps@.contains_key((s / 64) as u32)
        &&& self.freed_bitmaps@[(s / 64) as u32]@.contains((s % 64) as u32)
    }

    spec fn tables_agree(&self) -> bool {
        &&& self.slot_element_indices@.len() == self.slot_generations@.len()
        &&& self.slot_generations@.len() <= u32::MAX
        &&& self.element_slot_indices@.len() == self.elements@.len()
        &&& self.elements@.len() <= u32::MAX
        &&& forall|e: int|
            0 <= e < self.elements@.len() ==> {
                &&& (#[trigger] self.element_slot_indices@[e]) < self.slot_element_indices@.len()
                &&& self.slot_element_indices@[self.element_slot_indices@[e] as int] == e
            }
        &&& forall|s: int|
            0 <= s < self.slot_element_indices@.len() && (#[trigger] self.slot_element_indices@[s])
                != VACANT ==> {
                &&& self.slot_element_indices@[s] < self.elements@.len()
                &&& self.element_slot_indices@[self.slot_element_indices@[s] as int] == s
            }
        &&& forall|s: int|
            0 <= s < self.slot_generations@.len() ==> #[trigger] self.slot_generations@[s] != 0
    }

    /// The free list records exactly the slots that hold no value.
    spec fn blocks_agree(&self) -> bool {
        forall|s: int|
            #![trigger self.slot_is_listed(s)]
            #![trigger self.slot_is_vacant(s)]
            self.slot_is_listed(s) == self.slot_is_vacant(s)
    }

    /// The tables lead to each other, the free list records exactly the
    /// free slots, and the view is well formed and counts as many values
    /// as are stored.
    pub closed spec fn wf(&self) -> bool {
        &&& self.tables_agree()
        &&& self.blocks_agree()
        &&& self@.values.dom().finite()
        &&& self@.values.dom().len() == self.elements@.len()
    }

    /// The view of a well-formed arena is well formed.
    pub proof fn lemma_view_wf(&self)
        requires
            self.wf(),
        ensures
            self@.wf(),
    {
    }

    /// An arena with no slot.
    pub fn new() -> (r: Self)
        ensures
            r.wf(),
            r@ == SlotMapView::<T>::empty(),
            r@.wf(),
    {
        let r = Self {
            elements: Vec::new(),
            element_slot_indices: Vec::new(),
            slot_element_indices: Vec::new(),
            slot_generations: Vec::new(),
            freed_bitmaps: BTreeMap::new(),
        };
        proof {
            assert(r@.values =~= Map::<int, T>::empty());
            assert(r@.generations =~= Seq::<u32>::empty());
        }
        r
    }

    /// Number of values stored.
    pub fn len(&self) -> (r: usize)
        requires
            self.wf(),
        ensures
            r == self@.len(),
    {
        self.elements.len()
    }

    /// The value that `id` names, or `None` where `id` is stale or was
    /// never issued.
    pub fn get(&self, id: SlotMapId) -> (r: Option<&T>)
        requires
            self.wf(),
        ensures
            match r {
                Some(v) => self@.get(id) == Some(*v),
                None => self@.get(id) is None,
            },
    {
        let index: usize = id.index() as usize;
        if index >= self.slot_generations.len() {
            return None;
        }
        if self.slot_generations[index] != id.generation() {
            return None;
        }
        let element_index: usize = self.slot_element_indices[index] as usize;
        if element_index < self.elements.len() {
            Some(&self.elements[element_index])
        } else {
            None
        }
    }

    /// What holds of an arena in which one value was changed in place.
    proof fn lemma_value_changed(before: Self, after: Self, slot: int, value: T)
        requires
            before.wf(),
            before.slot_is_occupied(slot),
            after.elements@ == before.elements@.update(
                before.slot_element_indices@[slot] as int,
                value,
            ),
            after.element_slot_indices == before.element_slot_indices,
            after.slot_element_indices == before.slot_element_indices,
            after.slot_generations == before.slot_generations,
            after.freed_bitmaps == before.freed_bitmaps,
        ensures
            after.wf(),
            after@.generations == before@.generations,
            after@.values == before@.values.insert(slot, value),
    {
        assert forall|s: int| after.slot_is_occupied(s) == before.slot_is_occupied(s) by {}
        assert forall|s: int|
            #![trigger after.slot_is_listed(s)]
            #![trigger after.slot_is_vacant(s)]
            after.slot_is_listed(s) == after.slot_is_vacant(s) by {
            assert(before.slot_is_listed(s) == before.slot_is_vacant(s));
        }
        assert(after@.values =~= before@.values.insert(slot, value));
        assert(after@.values.dom() =~= before@.values.dom());
    }

    /// The value that `id` names, for changing in place; `None` where
    /// `id` is stale or was never issued. Nothing but that value changes.
    pub fn get_mut(&mut self, id: SlotMapId) -> (r: Option<&mut T>)
        requires
            old(self).wf(),
        ensures
            final(self).wf(),
            final(self)@.wf(),
            final(self)@.generations == old(self)@.generations,
            match r {
                Some(v) => {
                    &&& old(self)@.get(id) == Some(*v)
                    &&& final(self)@.values == old(self)@.values.insert(
                        id.index() as int,
                        *final(v),
                    )
                },
                None => old(self)@.get(id) is None && final(self)@ == old(self)@,
            },
    {
        let index: usize = id.index() as usize;
        if index >= self.slot_generations.len() {
            return None;
        }
        if self.slot_generations[index] != id.generation() {
            return None;
        }
        let element_index: usize = self.slot_element_indices[index] as usize;
        if element_index < self.elements.len() {
            let ghost before = *self;
            let value = &mut self.elements[element_index];
            proof {
                let after = SlotMap {
                    elements: after_borrow(self.elements),
                    element_slot_indices: self.element_slot_indices,
                    slot_element_indices: self.slot_element_indices,
                    slot_generations: self.slot_generations,
                    freed_bitmaps: self.freed_bitmaps,
                };
                Self::lemma_value_changed(before, after, index as int, *final(value));
            }
            Some(value)
        } else {
            None
        }
    }

    /// What holds once the value at `slot` was taken out and the slot
    /// entered in the free list.
    proof fn lemma_removed(before: Self, after: Self, slot: int, bitmap: Bitmap)
        requires
            before.wf(),
            before.slot_is_occupied(slot),
            ({
                let position = before.slot_element_indices@[slot] as int;
                let last = before.elements@.len() - 1;
                let moved = before.element_slot_indices@[last] as int;
                &&& after.elements@ == before.elements@.update(
                    position,
                    before.elements@.last(),
                ).drop_last()
                &&& after.element_slot_indices@ == before.element_slot_indices@.update(
                    position,
                    before.element_slot_indices@.last(),
                ).drop_last()
                &&& after.slot_element_indices@ == before.slot_element_indices@.update(
                    moved,
                    position as u32,
                ).update(slot, VACANT)
            }),
            after.slot_generations == before.slot_generations,
            after.freed_bitmaps@ == before.freed_bitmaps@.insert((slot / 64) as u32, bitmap),
            bitmap@ == (if before.freed_bitmaps@.contains_key((slot / 64) as u32) {
                before.freed_bitmaps@[(slot / 64) as u32]@
            } else {
                Set::<u32>::empty()
            }).insert((slot % 64) as u32),
        ensures
            after.wf(),
            after@.generations == before@.generations,
            after@.values == before@.values.remove(slot),
    {
        let position = before.slot_element_indices@[slot] as int;
        let last = before.elements@.len() - 1;
        let moved = before.element_slot_indices@[last] as int;
        assert forall|s: int| after.slot_is_occupied(s) == (before.slot_is_occupied(s) && s
            != slot) by {}
        assert forall|s: int| after.slot_is_vacant(s) == (before.slot_is_vacant(s) || s
            == slot) by {}
        assert forall|s: int| after.slot_is_occupied(s) implies after.value_at(s)
            == before.value_at(s) by {
            if s != moved {
                assert(before.slot_element_indices@[s] != VACANT);
            }
        }
        assert(after@.values =~= before@.values.remove(slot));
        assert(after.tables_agree());
        assert forall|s: int|
            #![trigger after.slot_is_listed(s)]
            #![trigger after.slot_is_vacant(s)]
            after.slot_is_listed(s) == after.slot_is_vacant(s) by {
            assert(before.slot_is_listed(s) == before.slot_is_vacant(s));
            if 0 <= s && s / 64 == slot / 64 && s != slot {
                assert(s % 64 != slot % 64);
            }
        }
    }

    /// Takes out the value that `id` names and frees its slot, which keeps
    /// its generation. Returns `None`, and changes nothing, where `id` is
    /// stale or was never issued.
    pub fn remove(&mut self, id: SlotMapId) -> (r: Option<T>)
        requires
            old(self).wf(),
        ensures
            final(self).wf(),
            final(self)@.wf(),
            r == old(self)@.get(id),
            final(self)@ == old(self)@.remove(id),
    {
        let slot_index: usize = id.index() as usize;
        if slot_index >= self.slot_generations.len() {
            return None;
        }
        if self.slot_generations[slot_index] != id.generation() {
            return None;
        }
        let element_index: usize = self.slot_element_indices[slot_index] as usize;
        if self.elements.len() <= element_index {
            return None;
        }
        let removed = self.elements.swap_remove(element_index);
        self.element_slot_indices.swap_remove(element_index);

        if element_index != self.elements.len() {
            // The last value moved into the vacated position: its slot follows it.
            let moved_slot_index: usize = self.element_slot_indices[element_index] as usize;
            self.slot_element_indices.set(moved_slot_index, element_index as u32);
        }
        self.slot_element_indices.set(slot_index, VACANT);

        let block_index: u32 = id.index() / BITS_PER_WORD;
        let local_index: u32 = id.index() % BITS_PER_WORD;
        let mut bitmap = match self.freed_bitmaps.remove(&block_index) {
            Some(bitmap) => bitmap,
            None => Bitmap::new(block_index),
        };
        bitmap.mark_as_empty(local_index);
        let ghost marked = bitmap;
        self.freed_bitmaps.insert(block_index, bitmap);

        proof {
            assert(self.freed_bitmaps@ =~= old(self).freed_bitmaps@.insert(block_index, marked));
            assert(self.slot_element_indices@ =~= old(self).slot_element_indices@.update(
                old(self).element_slot_indices@[old(self).elements@.len() - 1] as int,
                element_index as u32,
            ).update(slot_index as int, VACANT));
            Self::lemma_removed(*old(self), *self, slot_index as int, marked);
        }
        Some(removed)
    }

    /// Dropping a block that records no free slot changes nothing else.
    proof fn lemma_prune(before: Self, after: Self, block_index: u32)
        requires
            before.wf(),
            before.freed_bitmaps@.contains_key(block_index),
            before.freed_bitmaps@[block_index]@ == Set::<u32>::empty(),
            after.freed_bitmaps@ == before.freed_bitmaps@.remove(block_index),
            after.elements == before.elements,
            after.element_slot_indices == before.element_slot_indices,
            after.slot_element_indices == before.slot_element_indices,
            after.slot_generations == before.slot_generations,
        ensures
            after.wf(),
            after@ == before@,
    {
        assert(after@.values =~= before@.values);
        assert forall|s: int|
            #![trigger after.slot_is_listed(s)]
            #![trigger after.slot_is_vacant(s)]
            after.slot_is_listed(s) == after.slot_is_vacant(s) by {
            assert(before.slot_is_listed(s) == before.slot_is_vacant(s));
        }
    }

    /// The lowest free slot of the lowest block is the lowest free slot.
    proof fn lemma_lowest_free(self, block_index: u32, local_index: u32)
        requires
            self.wf(),
            self.freed_bitmaps@.contains_key(block_index),
            forall|k: u32| self.freed_bitmaps@.contains_key(k) ==> block_index <= k,
            self.freed_bitmaps@[block_index]@.contains(local_index),
            forall|b: u32| self.freed_bitmaps@[block_index]@.contains(b) ==> local_index <= b,
            local_index < 64,
            block_index * 64 + local_index <= u32::MAX,
        ensures
            self.slot_is_vacant(block_index * 64 + local_index),
            self@.has_free(),
            self@.next_index() == block_index * 64 + local_index,
    {
        let slot = block_index * 64 + local_index;
        let view = self@;
        assert(slot / 64 == block_index && slot % 64 == local_index);
        assert(self.slot_is_listed(slot));
        assert(self.slot_is_vacant(slot));
        assert forall|s: int| view.is_free(s) implies slot <= s by {
            assert(self.slot_is_vacant(s));
            assert(self.slot_is_listed(s));
            let k = (s / 64) as u32;
            assert(block_index <= k);
            if k == block_index {
                assert(local_index <= (s % 64) as u32);
            }
        }
        assert(view.is_free(slot));
        assert(view.is_lowest_free(slot));
        view.lemma_next_index_is(slot);
    }

    /// A listed slot exists, so its index fits in 32 bits.
    proof fn lemma_listed_in_range(self, block_index: u32, local_index: u32)
        requires
            self.wf(),
            self.freed_bitmaps@.contains_key(block_index),
            self.freed_bitmaps@[block_index]@.contains(local_index),
            local_index < 64,
        ensures
            block_index * 64 + local_index < self.slot_generations@.len(),
            block_index * 64 + local_index < u32::MAX,
    {
        let slot = block_index * 64 + local_index;
        assert(slot / 64 == block_index && slot % 64 == local_index);
        assert(self.slot_is_listed(slot));
        assert(self.slot_is_vacant(slot));
    }

    /// What holds once a free slot was filled.
    proof fn lemma_reuse(
        before: Self,
        after: Self,
        block_index: u32,
        local_index: u32,
        bitmap: Bitmap,
        item: T,
    )
        requires
            before.wf(),
            before.elements@.len() < u32::MAX,
            local_index < 64,
            block_index * 64 + local_index <= u32::MAX,
            before.slot_is_vacant(block_index * 64 + local_index),
            before@.has_free(),
            before@.next_index() == block_index * 64 + local_index,
            before.freed_bitmaps@.contains_key(block_index),
            bitmap@ == before.freed_bitmaps@[block_index]@.remove(local_index),
            after.freed_bitmaps@ == before.freed_bitmaps@.insert(block_index, bitmap),
            after.elements@ == before.elements@.push(item),
            after.element_slot_indices@ == before.element_slot_indices@.push(
                (block_index * 64 + local_index) as u32,
            ),
            after.slot_element_indices@ == before.slot_element_indices@.update(
                block_index * 64 + local_index,
                before.elements@.len() as u32,
            ),
            after.slot_generations@ == before.slot_generations@.update(
                block_index * 64 + local_index,
                next_generation(before.slot_generations@[block_index * 64 + local_index]),
            ),
        ensures
            after.wf(),
            after@ == before@.add(item),
    {
        let slot = block_index * 64 + local_index;
        assert(slot / 64 == block_index && slot % 64 == local_index);
        assert forall|s: int| after.slot_is_occupied(s) == (before.slot_is_occupied(s) || s
            == slot) by {}
        assert forall|s: int| after.slot_is_vacant(s) == (before.slot_is_vacant(s) && s
            != slot) by {}
        assert(after@.values =~= before@.values.insert(slot, item));
        assert(after@.values.dom() =~= before@.values.dom().insert(slot));
        assert(after@.generations =~= before@.add(item).generations);
        assert(after.tables_agree());
        assert forall|s: int|
            #![trigger after.slot_is_listed(s)]
            #![trigger after.slot_is_vacant(s)]
            after.slot_is_listed(s) == after.slot_is_vacant(s) by {
            assert(before.slot_is_listed(s) == before.slot_is_vacant(s));
            if 0 <= s && s / 64 == slot / 64 && s != slot {
                assert(s % 64 != slot % 64);
            }
        }
    }

    /// What holds once a new slot was made for a value, no slot being free.
    proof fn lemma_append(before: Self, after: Self, item: T)
        requires
            before.wf(),
            before.elements@.len() < u32::MAX,
            forall|k: u32| !before.freed_bitmaps@.contains_key(k),
            after.freed_bitmaps == before.freed_bitmaps,
            after.elements@ == before.elements@.push(item),
            after.element_slot_indices@ == before.element_slot_indices@.push(
                before.elements@.len() as u32,
            ),
            after.slot_element_indices@ == before.slot_element_indices@.push(
                before.elements@.len() as u32,
            ),
            after.slot_generations@ == before.slot_generations@.push(1u32),
        ensures
            after.wf(),
            after@ == before@.add(item),
            !before@.has_free(),
            before@.next_index() == before.elements@.len(),
    {
        before.lemma_full(item);
        let view = before@;
        let slot = before.elements@.len() as int;
        assert forall|s: int| after.slot_is_occupied(s) == (before.slot_is_occupied(s) || s
            == slot) by {}
        assert forall|s: int| after.slot_is_vacant(s) == before.slot_is_vacant(s) by {}
        assert(after@.values =~= view.values.insert(slot, item));
        assert(after@.values.dom() =~= view.values.dom().insert(slot));
        assert(after.tables_agree());
        assert forall|s: int|
            #![trigger after.slot_is_listed(s)]
            #![trigger after.slot_is_vacant(s)]
            after.slot_is_listed(s) == after.slot_is_vacant(s) by {
            assert(before.slot_is_listed(s) == before.slot_is_vacant(s));
        }
    }

    /// With an empty free list every slot holds a value.
    proof fn lemma_full(self, item: T)
        requires
            self.wf(),
            forall|k: u32| !self.freed_bitmaps@.contains_key(k),
        ensures
            !self@.has_free(),
            self.slot_generations@.len() == self.elements@.len(),
    {
        let view = self@;
        assert forall|s: int| !view.is_free(s) by {
            if view.is_free(s) {
                assert(self.slot_is_vacant(s));
                assert(self.slot_is_listed(s));
            }
        }
        view.lemma_full_len();
    }

    /// Stores `item` and returns the identifier that names it from now on.
    ///
    /// The lowest free slot is reused, under the successor of its
    /// generation; where no slot is free a new one is made, with
    /// generation 1. Blocks of the free list found without a free slot
    /// are dropped on the way.
    pub fn add(&mut self, item: T) -> (id: SlotMapId)
        requires
            old(self).wf(),
            old(self)@.len() < u32::MAX,
        ensures
            final(self).wf(),
            final(self)@.wf(),
            id.index() == old(self)@.next_index(),
            id.generation() == old(self)@.next_generation(),
            final(self)@ == old(self)@.add(item),
    {
        loop
            invariant_except_break
                self.wf(),
                self@ == old(self)@,
                self@.len() < u32::MAX,
            ensures
                self.wf(),
                self@ == old(self)@,
                self@.len() < u32::MAX,
                forall|k: u32| !self.freed_bitmaps@.contains_key(k),
            decreases self.freed_bitmaps@.len(),
        {
            let ghost before = *self;
            let block_index: u32 = match least_key(&self.freed_bitmaps) {
                Some(block_index) => block_index,
                None => {
                    break ;
                },
            };
            let mut bitmap = match self.freed_bitmaps.remove(&block_index) {
                Some(bitmap) => bitmap,
                None => {
                    break ;
                },
            };
            if bitmap.is_full() {
                proof {
                    Self::lemma_prune(before, *self, block_index);
                }
                continue ;
            }
            let element_index: usize = self.elements.len();
            let local_index: u32 = bitmap.find_first_empty_index();
            proof {
                bitmap.lemma_view_bounded();
                before.lemma_listed_in_range(block_index, local_index);
                before.lemma_lowest_free(block_index, local_index);
            }
            bitmap.mark_as_filled(local_index);
            let slot_index: u32 = block_index * BITS_PER_WORD + local_index;
            let ghost filled = bitmap;
            self.freed_bitmaps.insert(block_index, bitmap);

            self.elements.push(item);
            self.element_slot_indices.push(slot_index);
            self.slot_element_indices.set(slot_index as usize, element_index as u32);
            let generation: u32 = if self.slot_generations[slot_index as usize] == u32::MAX {
                1
            } else {
                self.slot_generations[slot_index as usize] + 1
            };
            self.slot_generations.set(slot_index as usize, generation);

            proof {
                assert(self.freed_bitmaps@ =~= before.freed_bitmaps@.insert(block_index, filled));
                Self::lemma_reuse(before, *self, block_index, local_index, filled, item);
            }
            return SlotMapId::new(slot_index, generation);
        }

        let ghost before = *self;
        let element_index: u32 = self.elements.len() as u32;
        self.elements.push(item);

        let slot_index: u32 = element_index;
        self.element_slot_indices.push(slot_index);
        self.slot_element_indices.push(element_index);
        self.slot_generations.push(1);

        proof {
            Self::lemma_append(before, *self, item);
        }
        SlotMapId::new(slot_index, 1)
    }
}

} // verus!
