//! Identifiers of objects.

use vstd::prelude::*;

verus! {

/// Names an object. The runtime hands these out from a counter that starts
/// at 1 and only grows, so the number of an identifier is never zero.
#[derive(Debug, Clone, Copy, PartialEq, Eq, PartialOrd, Ord, Hash, Structural)]
pub struct ObjectId(u32);

impl View for ObjectId {
    type V = u32;

    /// The number behind the identifier.
    closed spec fn view(&self) -> u32 {
        self.0
    }
}

impl ObjectId {
    /// No identifier has the number zero.
    #[verifier::type_invariant]
    pub open spec fn number_is_not_zero(self) -> bool {
        self@ != 0
    }

    /// The identifier with number `id`.
    pub fn new(id: u32) -> (r: Self)
        requires
            id != 0,
        ensures
            r@ == id,
    {
        Self(id)
    }

    /// The number behind the identifier.
    pub fn get(&self) -> (r: u32)
        ensures
            r == self@,
            r != 0,
    {
        proof {
            use_type_invariant(self);
        }
        self.0
    }

    /// Identifiers with the same number are the same.
    pub proof fn lemma_ext_equal(self, other: ObjectId)
        requires
            self@ == other@,
        ensures
            self == other,
    {
    }
}

} // verus!
