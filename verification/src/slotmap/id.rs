//! Identifiers handed out by the arena.

use vstd::prelude::*;

verus! {

/// Names one occupancy of one slot: the slot's index and the generation the
/// slot had when the value was stored. Generations are never zero.
#[derive(Debug, Clone, Copy, PartialEq, Eq, PartialOrd, Ord, Hash, Structural)]
pub struct SlotMapId {
    index: u32,
    generation: u32,
}

impl SlotMapId {
    #[verifier::type_invariant]
    spec fn generation_is_not_zero(self) -> bool {
        self.generation != 0
    }

    /// The slot this identifier points at.
    pub closed spec fn spec_index(&self) -> u32 {
        self.index
    }

    /// The generation of the slot at the time the identifier was issued.
    pub closed spec fn spec_generation(&self) -> u32 {
        self.generation
    }

    /// Two identifiers with the same index and generation are the same.
    pub proof fn lemma_ext_equal(self, other: SlotMapId)
        requires
            self.spec_index() == other.spec_index(),
            self.spec_generation() == other.spec_generation(),
        ensures
            self == other,
    {
    }

    pub(crate) fn new(index: u32, generation: u32) -> (r: Self)
        requires
            generation != 0,
        ensures
            r.spec_index() == index,
            r.spec_generation() == generation,
    {
        Self { index, generation }
    }

    /// The slot this identifier points at.
    #[verifier::when_used_as_spec(spec_index)]
    pub fn index(&self) -> (r: u32)
        ensures
            r == self.spec_index(),
    {
        self.index
    }

    /// The generation of the slot at the time the identifier was issued.
    #[verifier::when_used_as_spec(spec_generation)]
    pub fn generation(&self) -> (r: u32)
        ensures
            r == self.spec_generation(),
            r != 0,
    {
        proof {
            use_type_invariant(self);
        }
        self.generation
    }
}

} // verus!
