//! An object: an identifier and the components it holds, in order.

use vstd::prelude::*;
use crate::any_component::AnyComponent;
use crate::component_id::ComponentId;
use crate::object_id::ObjectId;

verus! {

/// Position `i` holds the first component of `components` named `id`.
pub open spec fn is_first_with_id<C>(
    components: Seq<AnyComponent<C>>,
    id: ComponentId,
    i: int,
) -> bool {
    &&& 0 <= i < components.len()
    &&& components[i].id() == id
    &&& forall|j: int| 0 <= j < i ==> components[j].id() != id
}

/// Position `i` holds the first component of `components` of type `type_id`.
pub open spec fn is_first_with_type<C>(
    components: Seq<AnyComponent<C>>,
    type_id: u64,
    i: int,
) -> bool {
    &&& 0 <= i < components.len()
    &&& components[i].type_id() == type_id
    &&& forall|j: int| 0 <= j < i ==> components[j].type_id() != type_id
}

/// Some component of `components` is named `id`.
pub open spec fn has_id<C>(components: Seq<AnyComponent<C>>, id: ComponentId) -> bool {
    exists|i: int| 0 <= i < components.len() && components[i].id() == id
}

/// Some component of `components` is of type `type_id`.
pub open spec fn has_type<C>(components: Seq<AnyComponent<C>>, type_id: u64) -> bool {
    exists|i: int| 0 <= i < components.len() && components[i].type_id() == type_id
}

/// `after` holds the components of `before`, in the same order, under the
/// same identifiers and types; only payloads may differ.
pub open spec fn same_shape<C>(
    before: Seq<AnyComponent<C>>,
    after: Seq<AnyComponent<C>>,
) -> bool {
    &&& before.len() == after.len()
    &&& forall|i: int|
        0 <= i < before.len() ==> {
            &&& (#[trigger] after[i]).id() == before[i].id()
            &&& after[i].type_id() == before[i].type_id()
        }
}

/// `components` with the payloads of those of type `type_id` replaced,
/// in order, by `payloads`.
pub open spec fn with_payloads<C>(
    components: Seq<AnyComponent<C>>,
    type_id: u64,
    payloads: Seq<C>,
) -> Seq<AnyComponent<C>>
    decreases components.len(),
{
    if components.len() == 0 {
        components
    } else if components.last().type_id() == type_id && payloads.len() > 0 {
        with_payloads(components.drop_last(), type_id, payloads.drop_last()).push(
            components.last().with_payload(payloads.last()),
        )
    } else {
        with_payloads(components.drop_last(), type_id, payloads).push(components.last())
    }
}

/// An aggregate of components. The order of the components is the order
/// in which they were added.
pub struct Object<C> {
    id: ObjectId,
    components: Vec<AnyComponent<C>>,
}

impl<C> View for Object<C> {
    type V = Seq<AnyComponent<C>>;

    /// The components, in order.
    closed spec fn view(&self) -> Seq<AnyComponent<C>> {
        self.components@
    }
}

impl<C> Object<C> {
    pub closed spec fn spec_id(&self) -> ObjectId {
        self.id
    }

    /// An object without components.
    pub(crate) fn new(id: ObjectId) -> (r: Self)
        ensures
            r.spec_id() == id,
            r@ == Seq::<AnyComponent<C>>::empty(),
    {
        Self { id, components: Vec::new() }
    }

    /// An object that holds `components`, in that order.
    pub(crate) fn with_components(id: ObjectId, components: Vec<AnyComponent<C>>) -> (r: Self)
        ensures
            r.spec_id() == id,
            r@ == components@,
    {
        Self { id, components }
    }

    #[verifier::when_used_as_spec(spec_id)]
    pub fn id(&self) -> (r: ObjectId)
        ensures
            r == self.spec_id(),
    {
        self.id
    }

    /// The components, in order.
    pub fn components(&self) -> (r: &[AnyComponent<C>])
        ensures
            r@ == self@,
    {
        self.components.as_slice()
    }

    /// Position of the first component named `component_id`.
    fn position_of_id(&self, component_id: ComponentId) -> (r: Option<usize>)
        ensures
            match r {
                Some(i) => is_first_with_id(self@, component_id, i as int),
                None => !has_id(self@, component_id),
            },
    {
        let mut i: usize = 0;
        while i < self.components.len()
            invariant
                i <= self.components@.len(),
                forall|j: int| 0 <= j < i ==> self.components@[j].id() != component_id,
            decreases self.components@.len() - i,
        {
            if self.components[i].id().get() == component_id.get() {
                proof {
                    self.components@[i as int].id().lemma_ext_equal(component_id);
                }
                return Some(i);
            }
            i += 1;
        }
        None
    }

    /// Position of the first component of type `type_id`.
    fn position_of_type(&self, type_id: u64) -> (r: Option<usize>)
        ensures
            match r {
                Some(i) => is_first_with_type(self@, type_id, i as int),
                None => !has_type(self@, type_id),
            },
    {
        let mut i: usize = 0;
        while i < self.components.len()
            invariant
                i <= self.components@.len(),
                forall|j: int| 0 <= j < i ==> self.components@[j].type_id() != type_id,
            decreases self.components@.len() - i,
        {
            if self.components[i].is_type_of(type_id) {
                return Some(i);
            }
            i += 1;
        }
        None
    }

    /// Whether some component is named `component_id`.
    pub fn has_component(&self, component_id: ComponentId) -> (r: bool)
        ensures
            r == has_id(self@, component_id),
    {
        self.position_of_id(component_id).is_some()
    }

    /// Whether some component is of type `type_id`.
    pub fn has_component_of_type(&self, type_id: u64) -> (r: bool)
        ensures
            r == has_type(self@, type_id),
    {
        self.position_of_type(type_id).is_some()
    }

    /// The payload of the first component named `component_id`, where
    /// that component is of type `type_id`.
    pub fn find_component_by_id(&self, component_id: ComponentId, type_id: u64) -> (r: Option<&C>)
        ensures
            match r {
                Some(payload) => exists|i: int|
                    {
                        &&& is_first_with_id(self@, component_id, i)
                        &&& self@[i].type_id() == type_id
                        &&& *payload == self@[i].payload()
                    },
                None => forall|i: int|
                    is_first_with_id(self@, component_id, i) ==> self@[i].type_id() != type_id,
            },
    {
        match self.position_of_id(component_id) {
            Some(i) => self.components[i].downcast_ref(type_id),
            None => None,
        }
    }

    /// As `find_component_by_id`, for changing the payload in place.
    /// Nothing but that payload changes.
    pub fn find_component_by_id_mut(&mut self, component_id: ComponentId, type_id: u64) -> (r:
        Option<&mut C>)
        ensures
            final(self).spec_id() == old(self).spec_id(),
            same_shape(old(self)@, final(self)@),
            match r {
                Some(payload) => exists|i: int|
                    {
                        &&& is_first_with_id(old(self)@, component_id, i)
                        &&& old(self)@[i].type_id() == type_id
                        &&& *payload == old(self)@[i].payload()
                        &&& final(self)@ == old(self)@.update(
                            i,
                            old(self)@[i].with_payload(*final(payload)),
                        )
                    },
                None => {
                    &&& *final(self) == *old(self)
                    &&& forall|i: int|
                        is_first_with_id(old(self)@, component_id, i) ==> old(self)@[i].type_id()
                            != type_id
                },
            },
    {
        match self.position_of_id(component_id) {
            Some(i) => {
                if !self.components[i].is_type_of(type_id) {
                    return None;
                }
                let r = self.components[i].downcast_mut(type_id);
                proof {
                    if r is Some {
                        old(self)@[i as int].lemma_with_payload(*final(r->0));
                    }
                }
                r
            },
            None => None,
        }
    }

    /// The payload of the first component of type `type_id`.
    pub fn find_component_by_type(&self, type_id: u64) -> (r: Option<&C>)
        ensures
            match r {
                Some(payload) => exists|i: int|
                    is_first_with_type(self@, type_id, i) && *payload == self@[i].payload(),
                None => !has_type(self@, type_id),
            },
    {
        match self.position_of_type(type_id) {
            Some(i) => self.components[i].downcast_ref(type_id),
            None => None,
        }
    }

    /// As `find_component_by_type`, for changing the payload in place.
    /// Nothing but that payload changes.
    pub fn find_component_by_type_mut(&mut self, type_id: u64) -> (r: Option<&mut C>)
        ensures
            final(self).spec_id() == old(self).spec_id(),
            same_shape(old(self)@, final(self)@),
            match r {
                Some(payload) => exists|i: int|
                    {
                        &&& is_first_with_type(old(self)@, type_id, i)
                        &&& *payload == old(self)@[i].payload()
                        &&& final(self)@ == old(self)@.update(
                            i,
                            old(self)@[i].with_payload(*final(payload)),
                        )
                    },
                None => *final(self) == *old(self) && !has_type(old(self)@, type_id),
            },
    {
        match self.position_of_type(type_id) {
            Some(i) => {
                let r = self.components[i].downcast_mut(type_id);
                proof {
                    if r is Some {
                        old(self)@[i as int].lemma_with_payload(*final(r->0));
                    }
                }
                r
            },
            None => None,
        }
    }

    /// The payloads of all components of type `type_id`, in order.
    pub fn find_components_by_type(&self, type_id: u64) -> (r: Vec<&C>)
        ensures
            r@.map_values(|payload: &C| *payload) == self@.filter(
                |c: AnyComponent<C>| c.type_id() == type_id,
            ).map_values(|c: AnyComponent<C>| c.payload()),
    {
        let mut found: Vec<&C> = Vec::new();
        let mut i: usize = 0;
        let ghost of_type = |c: AnyComponent<C>| c.type_id() == type_id;
        let ghost payload_of = |c: AnyComponent<C>| c.payload();
        let ghost deref = |payload: &C| *payload;
        proof {
            assert(self@.take(0) =~= Seq::<AnyComponent<C>>::empty());
            reveal(Seq::filter);
            assert(self@.take(0).filter(of_type) =~= Seq::<AnyComponent<C>>::empty());
        }
        while i < self.components.len()
            invariant
                i <= self.components@.len(),
                of_type == |c: AnyComponent<C>| c.type_id() == type_id,
                payload_of == |c: AnyComponent<C>| c.payload(),
                deref == |payload: &C| *payload,
                found@.map_values(deref) == self@.take(i as int).filter(of_type).map_values(
                    payload_of,
                ),
            decreases self.components@.len() - i,
        {
            proof {
                let prefix = self@.take(i as int);
                let next = self@.take(i + 1);
                assert(next =~= prefix.push(self@[i as int]));
                prefix.lemma_filter_push(self@[i as int], of_type);
            }
            match self.components[i].downcast_ref(type_id) {
                Some(payload) => {
                    let ghost found_before = found@;
                    found.push(payload);
                    proof {
                        let kept = self@.take(i as int).filter(of_type);
                        assert(self@.take(i + 1).filter(of_type) == kept.push(self@[i as int]));
                        assert(found@.map_values(deref) =~= found_before.map_values(deref).push(
                            *payload,
                        ));
                        assert(kept.push(self@[i as int]).map_values(payload_of)
                            =~= kept.map_values(payload_of).push(self@[i as int].payload()));
                    }
                },
                None => {},
            }
            i += 1;
        }
        proof {
            assert(self@.take(i as int) =~= self@);
        }
        found
    }

    /// The payloads of all components of type `type_id`, in order, for
    /// changing in place. Nothing but those payloads changes.
    pub fn find_components_by_type_mut(&mut self, type_id: u64) -> (r: Vec<&mut C>)
        ensures
            final(self).spec_id() == old(self).spec_id(),
            r@.map_values(|payload: &mut C| *payload) == old(self)@.filter(
                |c: AnyComponent<C>| c.type_id() == type_id,
            ).map_values(|c: AnyComponent<C>| c.payload()),
            final(self)@ == with_payloads(
                old(self)@,
                type_id,
                r@.map_values(|payload: &mut C| *final(payload)),
            ),
    {
        let ghost all = self.components@;
        let ghost of_type = |c: AnyComponent<C>| c.type_id() == type_id;
        let ghost payload_of = |c: AnyComponent<C>| c.payload();
        let ghost now = |payload: &mut C| *payload;
        let ghost at_end = |payload: &mut C| *final(payload);
        let mut found: Vec<&mut C> = Vec::new();
        let mut rest: &mut [AnyComponent<C>] = self.components.as_mut_slice();
        let ghost mut done: int = 0;
        proof {
            assert(all.take(0) =~= Seq::<AnyComponent<C>>::empty());
            assert(all.take(0).filter(of_type) =~= Seq::<AnyComponent<C>>::empty()) by {
                reveal(Seq::filter);
            }
            assert(found@.map_values(at_end) =~= Seq::<C>::empty());
            let nothing = with_payloads(all.take(0), type_id, found@.map_values(at_end));
            assert(nothing + (*final(rest))@ =~= (*final(rest))@);
            assert(all.subrange(0, all.len() as int) =~= all);
        }
        while rest.len() > 0
            invariant
                0 <= done <= all.len(),
                done + rest@.len() == all.len(),
                rest@ == all.subrange(done, all.len() as int),
                of_type == |c: AnyComponent<C>| c.type_id() == type_id,
                payload_of == |c: AnyComponent<C>| c.payload(),
                now == |payload: &mut C| *payload,
                at_end == |payload: &mut C| *final(payload),
                found@.map_values(now) == all.take(done).filter(of_type).map_values(payload_of),
                after_borrow(self.components)@ == with_payloads(
                    all.take(done),
                    type_id,
                    found@.map_values(at_end),
                ) + (*final(rest))@,
            decreases rest@.len(),
        {
            let ghost rest_before = rest;
            let ghost found_before = found@;
            let (head, tail) = rest.split_at_mut(1);
            let ghost head_before = head;
            proof {
                all.take(done).lemma_filter_push(all[done], of_type);
                assert(all.take(done + 1) =~= all.take(done).push(all[done]));
                assert(all.take(done + 1).drop_last() =~= all.take(done));
                assert(head@[0] == all[done]);
                assert(tail@ =~= all.subrange(done + 1, all.len() as int));
            }
            if head[0].is_type_of(type_id) {
                match head[0].downcast_mut(type_id) {
                    Some(payload) => {
                        let ghost current = *payload;
                        let ghost ending = *final(payload);
                        found.push(payload);
                        proof {
                            let kept = all.take(done).filter(of_type);
                            assert(found@.map_values(now) =~= found_before.map_values(now).push(
                                current,
                            ));
                            assert(kept.push(all[done]).map_values(payload_of)
                                =~= kept.map_values(payload_of).push(all[done].payload()));
                            assert(found@.map_values(at_end) =~= found_before.map_values(
                                at_end,
                            ).push(ending));
                            assert(found@.map_values(at_end).drop_last()
                                =~= found_before.map_values(at_end));
                            assert((*final(head_before))@ =~= seq![
                                all[done].with_payload(ending),
                            ]);
                        }
                    },
                    None => {},
                }
            } else {
                proof {
                    assert((*final(head_before))@ =~= seq![all[done]]);
                }
            }
            rest = tail;
            proof {
                let finals = found@.map_values(at_end);
                assert(with_payloads(all.take(done + 1), type_id, finals) + (*final(rest))@
                    =~= with_payloads(all.take(done), type_id, found_before.map_values(at_end))
                    + (*final(rest_before))@);
                done = done + 1;
            }
        }
        proof {
            assert(all.take(done) =~= all);
            assert((*final(rest))@ =~= Seq::<AnyComponent<C>>::empty());
        }
        found
    }

    /// Adds `component` after the components held so far.
    pub(crate) fn add_component(&mut self, component: AnyComponent<C>)
        ensures
            final(self).spec_id() == old(self).spec_id(),
            final(self)@ == old(self)@.push(component),
    {
        self.components.push(component);
    }

    /// Takes out the first component named `component_id`; the others
    /// keep their order.
    pub(crate) fn remove_component(&mut self, component_id: ComponentId) -> (r: Option<
        AnyComponent<C>,
    >)
        ensures
            final(self).spec_id() == old(self).spec_id(),
            match r {
                Some(component) => exists|i: int|
                    {
                        &&& is_first_with_id(old(self)@, component_id, i)
                        &&& component == old(self)@[i]
                        &&& final(self)@ == old(self)@.remove(i)
                    },
                None => !has_id(old(self)@, component_id) && *final(self) == *old(self),
            },
    {
        match self.position_of_id(component_id) {
            Some(i) => Some(self.components.remove(i)),
            None => None,
        }
    }
}

} // verus!
