//! One 64-bit block of the arena's free list.

use vstd::prelude::*;

verus! {

/// The machine word that holds the bits of one block.
pub type BitmapType = u64;

/// Number of slots covered by one block.
pub const BITS_PER_WORD: u32 = 64;

/// Whether bit `i` of `bits` is set, counting from the least significant bit.
pub open spec fn bit_is_set(bits: u64, i: u32) -> bool {
    i < 64 && (bits >> (i as u64)) & 1 == 1
}

/// A block of 64 slots; a set bit marks a slot that is free for reuse.
pub struct Bitmap {
    bits: u64,
    index: u32,
}

impl View for Bitmap {
    type V = Set<u32>;

    /// The local indices (0 to 63) of the slots that are free.
    closed spec fn view(&self) -> Set<u32> {
        Set::new(|i: u32| bit_is_set(self.bits, i))
    }
}

proof fn lemma_zero_has_no_bit(i: u64)
    by (bit_vector)
    requires
        i < 64,
    ensures
        (0u64 >> i) & 1 == 0,
{
}

proof fn lemma_set_bit(bits: u64, i: u64, j: u64)
    by (bit_vector)
    requires
        i < 64,
        j < 64,
    ensures
        (((bits | (1u64 << i)) >> j) & 1 == 1) <==> (j == i || (bits >> j) & 1 == 1),
{
}

proof fn lemma_clear_bit(bits: u64, i: u64, j: u64)
    by (bit_vector)
    requires
        i < 64,
        j < 64,
    ensures
        (((bits & !(1u64 << i)) >> j) & 1 == 1) <==> (j != i && (bits >> j) & 1 == 1),
{
}

impl Bitmap {
    /// The position of this block among the blocks of the arena.
    pub closed spec fn spec_index(&self) -> u32 {
        self.index
    }

    /// Every member of the view is a local index below 64.
    pub proof fn lemma_view_bounded(&self)
        ensures
            forall|i: u32| self@.contains(i) ==> i < BITS_PER_WORD,
    {
    }

    /// A block for position `index` with no free slot recorded.
    pub fn new(index: u32) -> (r: Self)
        ensures
            r.spec_index() == index,
            r@ == Set::<u32>::empty(),
    {
        let r = Self { index, bits: 0 };
        proof {
            assert forall|i: u32| !r@.contains(i) by {
                if i < 64 {
                    lemma_zero_has_no_bit(i as u64);
                }
            }
            assert(r@ =~= Set::<u32>::empty());
        }
        r
    }

    /// Whether every slot of the block is claimed, that is, no bit is set.
    pub fn is_full(&self) -> (r: bool)
        ensures
            r == self@.is_empty(),
    {
        proof {
            let bits = self.bits;
            if bits == 0 {
                assert forall|i: u32| !self@.contains(i) by {
                    if i < 64 {
                        lemma_zero_has_no_bit(i as u64);
                    }
                }
                assert(self@ =~= Set::<u32>::empty());
            } else {
                vstd::std_specs::bits::axiom_u64_trailing_zeros(bits);
                let tz: u32 = vstd::std_specs::bits::u64_trailing_zeros(bits);
                assert(self@.contains(tz));
            }
        }
        self.bits == 0
    }

    /// The position of this block among the blocks of the arena.
    pub fn index(&self) -> (r: u32)
        ensures
            r == self.spec_index(),
    {
        self.index
    }

    /// Records local slot `index` as free.
    pub fn mark_as_empty(&mut self, index: u32)
        requires
            index < BITS_PER_WORD,
        ensures
            final(self)@ == old(self)@.insert(index),
            final(self).spec_index() == old(self).spec_index(),
    {
        let ghost before = self.bits;
        self.bits = self.bits | (1u64 << index);
        proof {
            assert forall|j: u32| self@.contains(j) == old(self)@.insert(index).contains(j) by {
                if j < 64 {
                    lemma_set_bit(before, index as u64, j as u64);
                }
            }
            assert(self@ =~= old(self)@.insert(index));
        }
    }

    /// Records local slot `index` as claimed.
    pub fn mark_as_filled(&mut self, index: u32)
        requires
            index < BITS_PER_WORD,
        ensures
            final(self)@ == old(self)@.remove(index),
            final(self).spec_index() == old(self).spec_index(),
    {
        let ghost before = self.bits;
        self.bits = self.bits & !(1u64 << index);
        proof {
            assert forall|j: u32| self@.contains(j) == old(self)@.remove(index).contains(j) by {
                if j < 64 {
                    lemma_clear_bit(before, index as u64, j as u64);
                }
            }
            assert(self@ =~= old(self)@.remove(index));
        }
    }

    /// The lowest free local slot of a block that has one.
    pub fn find_first_empty_index(&self) -> (r: u32)
        requires
            !self@.is_empty(),
        ensures
            self@.contains(r),
            forall|j: u32| self@.contains(j) ==> r <= j,
    {
        proof {
            let bits = self.bits;
            vstd::std_specs::bits::axiom_u64_trailing_zeros(bits);
            if bits == 0 {
                assert forall|i: u32| !self@.contains(i) by {
                    if i < 64 {
                        lemma_zero_has_no_bit(i as u64);
                    }
                }
                assert(self@ =~= Set::<u32>::empty());
            }
        }
        self.bits.trailing_zeros()
    }
}

} // verus!
