//! A component as an object holds it: identifier, type identity, payload.

use vstd::prelude::*;
use crate::component::Component;
use crate::component_id::ComponentId;

verus! {

/// A payload together with its identifier and the type identity that was
/// recorded for it. The recorded identity never changes, whatever is done
/// to the payload.
pub struct AnyComponent<C> {
    id: ComponentId,
    type_id: u64,
    inner: C,
}

impl<C> AnyComponent<C> {
    pub closed spec fn spec_id(&self) -> ComponentId {
        self.id
    }

    pub closed spec fn spec_type_id(&self) -> u64 {
        self.type_id
    }

    /// The payload.
    pub closed spec fn payload(&self) -> C {
        self.inner
    }

    /// The same component with another payload.
    pub closed spec fn with_payload(&self, payload: C) -> Self {
        AnyComponent { id: self.id, type_id: self.type_id, inner: payload }
    }

    /// The component named `id`, of type `type_id`, with payload `inner`.
    pub closed spec fn spec_with_type(id: ComponentId, type_id: u64, inner: C) -> Self {
        AnyComponent { id, type_id, inner }
    }

    /// The parts of a component made of parts.
    pub proof fn lemma_with_type(id: ComponentId, type_id: u64, inner: C)
        ensures
            Self::spec_with_type(id, type_id, inner).spec_id() == id,
            Self::spec_with_type(id, type_id, inner).spec_type_id() == type_id,
            Self::spec_with_type(id, type_id, inner).payload() == inner,
    {
    }

    /// What `with_payload` keeps and what it changes.
    pub proof fn lemma_with_payload(self, payload: C)
        ensures
            self.with_payload(payload).spec_id() == self.spec_id(),
            self.with_payload(payload).spec_type_id() == self.spec_type_id(),
            self.with_payload(payload).payload() == payload,
            self.with_payload(self.payload()) == self,
    {
    }

    /// Wraps `inner` under `id`, with `type_id` as its recorded type identity.
    #[verifier::when_used_as_spec(spec_with_type)]
    pub fn with_type(id: ComponentId, type_id: u64, inner: C) -> (r: Self)
        ensures
            r == Self::spec_with_type(id, type_id, inner),
            r.spec_id() == id,
            r.spec_type_id() == type_id,
            r.payload() == inner,
    {
        Self { id, type_id, inner }
    }

    /// Wraps `inner` under `id`. The type identity recorded is the one the
    /// payload reports at this moment.
    pub fn new(id: ComponentId, inner: C) -> (r: Self) where C: Component
        ensures
            r == Self::with_type(id, r.type_id(), inner),
            call_ensures(C::type_tag, (&inner,), r.type_id()),
    {
        let type_id: u64 = inner.type_tag();
        Self::with_type(id, type_id, inner)
    }

    #[verifier::when_used_as_spec(spec_id)]
    pub fn id(&self) -> (r: ComponentId)
        ensures
            r == self.spec_id(),
    {
        self.id
    }

    /// The display name that the payload gives itself: what its `name`
    /// returns for it.
    pub fn name(&self) -> (r: &'static str) where C: Component
        ensures
            call_ensures(C::name, (&self.payload(),), r),
    {
        self.inner.name()
    }

    /// The recorded type identity.
    #[verifier::when_used_as_spec(spec_type_id)]
    pub fn type_id(&self) -> (r: u64)
        ensures
            r == self.spec_type_id(),
    {
        self.type_id
    }

    /// Whether the recorded type identity is `type_id`.
    pub fn is_type_of(&self, type_id: u64) -> (r: bool)
        ensures
            r == (self.spec_type_id() == type_id),
    {
        self.type_id == type_id
    }

    /// The payload, where the recorded type identity is `type_id`.
    pub fn downcast_ref(&self, type_id: u64) -> (r: Option<&C>)
        ensures
            r == if self.spec_type_id() == type_id {
                Some(&self.payload())
            } else {
                None
            },
    {
        if self.type_id == type_id {
            Some(&self.inner)
        } else {
            None
        }
    }

    /// The payload for changing in place, where the recorded type identity
    /// is `type_id`. Identifier and recorded type identity stay.
    pub fn downcast_mut(&mut self, type_id: u64) -> (r: Option<&mut C>)
        ensures
            match r {
                Some(payload) => {
                    &&& old(self).spec_type_id() == type_id
                    &&& *payload == old(self).payload()
                    &&& *final(self) == old(self).with_payload(*final(payload))
                },
                None => old(self).spec_type_id() != type_id && *final(self) == *old(self),
            },
    {
        if self.type_id == type_id {
            Some(&mut self.inner)
        } else {
            None
        }
    }
}

} // verus!
