//! The objects, and for each component type the objects that hold it.

use vstd::prelude::*;
use std::collections::HashMap;
use std::collections::HashSet;
use crate::any_component::AnyComponent;
use crate::component_id::ComponentId;
use crate::object::has_id;
use crate::object::has_type;
use crate::object::is_first_with_id;
use crate::object::same_shape;
use crate::object::Object;
use crate::object_id::ObjectId;

verus! {

/// The position of the first component of `components` named `id`.
pub open spec fn first_with_id<C>(components: Seq<AnyComponent<C>>, id: ComponentId) -> int {
    choose|i: int| is_first_with_id(components, id, i)
}

/// `components` without the first one named `id`; the others keep
/// their order.
pub open spec fn without_component<C>(
    components: Seq<AnyComponent<C>>,
    id: ComponentId,
) -> Seq<AnyComponent<C>> {
    components.remove(first_with_id(components, id))
}

/// Where some component is named `id`, one is the first.
pub proof fn lemma_first_with_id<C>(components: Seq<AnyComponent<C>>, id: ComponentId)
    requires
        has_id(components, id),
    ensures
        is_first_with_id(components, id, first_with_id(components, id)),
{
    let at = choose|i: int| 0 <= i < components.len() && components[i].id() == id;
    lemma_first_before(components, id, at);
}

proof fn lemma_first_before<C>(components: Seq<AnyComponent<C>>, id: ComponentId, at: int)
    requires
        0 <= at < components.len(),
        components[at].id() == id,
    ensures
        exists|i: int| is_first_with_id(components, id, i),
    decreases at,
{
    if exists|j: int| 0 <= j < at && components[j].id() == id {
        let j = choose|j: int| 0 <= j < at && components[j].id() == id;
        lemma_first_before(components, id, j);
    } else {
        assert(is_first_with_id(components, id, at));
    }
}

/// What an object store holds, as mathematics: for each stored object,
/// by the number of its identifier, the components it holds, in order;
/// and the type index, which leads from a component type to the objects
/// registered for it. A type is in the domain of the index from the
/// first time an object registers it.
pub struct ObjectStorageView<C> {
    pub objects: Map<u32, Seq<AnyComponent<C>>>,
    pub type_index: Map<u64, Set<u32>>,
}

impl<C> ObjectStorageView<C> {
    /// No object, no registered type.
    pub open spec fn empty() -> Self {
        ObjectStorageView { objects: Map::empty(), type_index: Map::empty() }
    }

    /// The objects that hold at least one component of type `type_id`.
    pub open spec fn holders(self, type_id: u64) -> Set<u32> {
        Set::new(|id: u32| self.objects.contains_key(id) && has_type(self.objects[id], type_id))
    }

    /// The objects registered for `type_id`; none where the type was never registered.
    pub open spec fn registered(self, type_id: u64) -> Set<u32> {
        if self.type_index.contains_key(type_id) {
            self.type_index[type_id]
        } else {
            Set::empty()
        }
    }

    /// The type index is exact: an object is registered for a type if
    /// and only if it is stored and holds a component of that type.
    pub open spec fn wf(self) -> bool {
        forall|type_id: u64| #[trigger] self.registered(type_id) == self.holders(type_id)
    }

    /// The store after `id` was registered for `type_id`.
    pub open spec fn register(self, id: u32, type_id: u64) -> Self {
        ObjectStorageView {
            objects: self.objects,
            type_index: self.type_index.insert(type_id, self.registered(type_id).insert(id)),
        }
    }

    /// The store after `id` was unregistered for `type_id`. A type that
    /// was never registered stays so.
    pub open spec fn unregister(self, id: u32, type_id: u64) -> Self {
        if self.type_index.contains_key(type_id) {
            ObjectStorageView {
                objects: self.objects,
                type_index: self.type_index.insert(type_id, self.type_index[type_id].remove(id)),
            }
        } else {
            self
        }
    }

    /// The store after `id` was registered for the type of each of `components`.
    pub open spec fn register_all(self, id: u32, components: Seq<AnyComponent<C>>) -> Self
        decreases components.len(),
    {
        if components.len() == 0 {
            self
        } else {
            self.register_all(id, components.drop_last()).register(id, components.last().type_id())
        }
    }

    /// The store after `id` was unregistered for the type of each of `components`.
    pub open spec fn unregister_all(self, id: u32, components: Seq<AnyComponent<C>>) -> Self
        decreases components.len(),
    {
        if components.len() == 0 {
            self
        } else {
            self.unregister_all(id, components.drop_last()).unregister(
                id,
                components.last().type_id(),
            )
        }
    }

    /// The store after an object that holds `components` was added
    /// under `id`. Nothing changes where `id` names a stored object.
    pub open spec fn insert(self, id: u32, components: Seq<AnyComponent<C>>) -> Self {
        if self.objects.contains_key(id) {
            self
        } else {
            ObjectStorageView {
                objects: self.objects.insert(id, components),
                type_index: self.register_all(id, components).type_index,
            }
        }
    }

    /// The store after the object named `id`, if any, was removed.
    pub open spec fn remove(self, id: u32) -> Self {
        if self.objects.contains_key(id) {
            ObjectStorageView {
                objects: self.objects.remove(id),
                type_index: self.unregister_all(id, self.objects[id]).type_index,
            }
        } else {
            self
        }
    }

    /// The store after the objects named by `ids`, as far as they are
    /// stored, were removed, first to last.
    pub open spec fn remove_all(self, ids: Seq<u32>) -> Self
        decreases ids.len(),
    {
        if ids.len() == 0 {
            self
        } else {
            self.remove_all(ids.drop_last()).remove(ids.last())
        }
    }

    /// The store after `component` was added to the object named `id`.
    /// Nothing changes where `id` names no stored object.
    pub open spec fn add_component(self, id: u32, component: AnyComponent<C>) -> Self {
        if self.objects.contains_key(id) {
            ObjectStorageView {
                objects: self.objects.insert(id, self.objects[id].push(component)),
                type_index: self.register(id, component.type_id()).type_index,
            }
        } else {
            self
        }
    }

    /// The object named `id` is stored and holds a component named `component_id`.
    pub open spec fn has_component(self, id: u32, component_id: ComponentId) -> bool {
        self.objects.contains_key(id) && has_id(self.objects[id], component_id)
    }

    /// The store after the first component named `component_id` was
    /// taken out of the object named `id`. The object stays registered
    /// for the type of that component where it holds another one of the
    /// type. Nothing changes where there is no such object or component.
    pub open spec fn remove_component(self, id: u32, component_id: ComponentId) -> Self {
        if self.has_component(id, component_id) {
            let held = self.objects[id];
            let left = without_component(held, component_id);
            let type_id = held[first_with_id(held, component_id)].type_id();
            ObjectStorageView {
                objects: self.objects.insert(id, left),
                type_index: if has_type(left, type_id) {
                    self.type_index
                } else {
                    self.unregister(id, type_id).type_index
                },
            }
        } else {
            self
        }
    }

    /// The store after the components of the object named `id` were
    /// replaced by `components`.
    pub open spec fn replace(self, id: u32, components: Seq<AnyComponent<C>>) -> Self {
        ObjectStorageView {
            objects: self.objects.insert(id, components),
            type_index: self.type_index,
        }
    }

    /// What registering for the types of `components` does to the index.
    pub proof fn lemma_register_all(self, id: u32, components: Seq<AnyComponent<C>>)
        ensures
            self.register_all(id, components).objects == self.objects,
            forall|type_id: u64| #[trigger]
                self.register_all(id, components).type_index.contains_key(type_id) == (
                self.type_index.contains_key(type_id) || has_type(components, type_id)),
            forall|type_id: u64| #[trigger]
                self.register_all(id, components).registered(type_id) == if has_type(
                    components,
                    type_id,
                ) {
                    self.registered(type_id).insert(id)
                } else {
                    self.registered(type_id)
                },
        decreases components.len(),
    {
        if components.len() > 0 {
            let rest = components.drop_last();
            let last = components.last();
            self.lemma_register_all(id, rest);
            let before = self.register_all(id, rest);
            assert(rest.push(last) =~= components);
            assert forall|type_id: u64| #[trigger]
                self.register_all(id, components).type_index.contains_key(type_id) == (
                self.type_index.contains_key(type_id) || has_type(components, type_id)) by {
                lemma_has_type_push(rest, last, type_id);
                assert(before.type_index.contains_key(type_id) == (self.type_index.contains_key(
                    type_id,
                ) || has_type(rest, type_id)));
            }
            assert forall|type_id: u64| #[trigger]
                self.register_all(id, components).registered(type_id) == if has_type(
                    components,
                    type_id,
                ) {
                    self.registered(type_id).insert(id)
                } else {
                    self.registered(type_id)
                } by {
                lemma_has_type_push(rest, last, type_id);
                assert(before.registered(type_id) == if has_type(rest, type_id) {
                    self.registered(type_id).insert(id)
                } else {
                    self.registered(type_id)
                });
                if type_id == last.type_id() {
                    assert(self.registered(type_id).insert(id).insert(id)
                        =~= self.registered(type_id).insert(id));
                }
            }
        }
    }

    /// What unregistering for the types of `components` does to the index.
    pub proof fn lemma_unregister_all(self, id: u32, components: Seq<AnyComponent<C>>)
        ensures
            self.unregister_all(id, components).objects == self.objects,
            self.unregister_all(id, components).type_index.dom() == self.type_index.dom(),
            forall|type_id: u64| #[trigger]
                self.unregister_all(id, components).registered(type_id) == if has_type(
                    components,
                    type_id,
                ) {
                    self.registered(type_id).remove(id)
                } else {
                    self.registered(type_id)
                },
        decreases components.len(),
    {
        if components.len() > 0 {
            let rest = components.drop_last();
            let last = components.last();
            self.lemma_unregister_all(id, rest);
            let before = self.unregister_all(id, rest);
            assert(rest.push(last) =~= components);
            assert(self.unregister_all(id, components).type_index.dom()
                =~= self.type_index.dom());
            assert forall|type_id: u64| #[trigger]
                self.unregister_all(id, components).registered(type_id) == if has_type(
                    components,
                    type_id,
                ) {
                    self.registered(type_id).remove(id)
                } else {
                    self.registered(type_id)
                } by {
                lemma_has_type_push(rest, last, type_id);
                assert(before.registered(type_id) == if has_type(rest, type_id) {
                    self.registered(type_id).remove(id)
                } else {
                    self.registered(type_id)
                });
                if type_id == last.type_id() {
                    assert(self.registered(type_id).remove(id).remove(id)
                        =~= self.registered(type_id).remove(id));
                    assert(Set::<u32>::empty().remove(id) =~= Set::<u32>::empty());
                }
            }
        }
    }

    /// What unregistering does to the index depends on the index alone.
    pub proof fn lemma_unregister_all_goes_by_index(
        self,
        other: Self,
        id: u32,
        components: Seq<AnyComponent<C>>,
    )
        requires
            self.type_index == other.type_index,
        ensures
            self.unregister_all(id, components).type_index == other.unregister_all(
                id,
                components,
            ).type_index,
        decreases components.len(),
    {
        if components.len() > 0 {
            self.lemma_unregister_all_goes_by_index(other, id, components.drop_last());
        }
    }

    /// The type index stays exact when an object is added.
    pub proof fn law_insert_keeps_index_exact(self, id: u32, components: Seq<AnyComponent<C>>)
        requires
            self.wf(),
        ensures
            self.insert(id, components).wf(),
    {
        let after = self.insert(id, components);
        if !self.objects.contains_key(id) {
            self.lemma_register_all(id, components);
            assert forall|type_id: u64| #[trigger]
                after.registered(type_id) == after.holders(type_id) by {
                assert(self.registered(type_id) == self.holders(type_id));
                assert(after.registered(type_id) == self.register_all(id, components).registered(
                    type_id,
                ));
                assert(after.holders(type_id) =~= if has_type(components, type_id) {
                    self.holders(type_id).insert(id)
                } else {
                    self.holders(type_id)
                });
            }
        }
    }

    /// The type index stays exact when an object is removed.
    pub proof fn law_remove_keeps_index_exact(self, id: u32)
        requires
            self.wf(),
        ensures
            self.remove(id).wf(),
    {
        let after = self.remove(id);
        if self.objects.contains_key(id) {
            let held = self.objects[id];
            self.lemma_unregister_all(id, held);
            assert forall|type_id: u64| #[trigger]
                after.registered(type_id) == after.holders(type_id) by {
                assert(self.registered(type_id) == self.holders(type_id));
                assert(after.registered(type_id) == self.unregister_all(id, held).registered(
                    type_id,
                ));
                assert(after.holders(type_id) =~= self.holders(type_id).remove(id));
                if !has_type(held, type_id) {
                    assert(self.holders(type_id).remove(id) =~= self.holders(type_id));
                }
            }
        }
    }

    /// Removing objects keeps the type index exact, stores none of them
    /// and adds none.
    pub proof fn law_remove_all(self, ids: Seq<u32>)
        requires
            self.wf(),
        ensures
            self.remove_all(ids).wf(),
            forall|i: int|
                0 <= i < ids.len() ==> !self.remove_all(ids).objects.contains_key(
                    #[trigger] ids[i],
                ),
            forall|id: u32| #[trigger]
                self.remove_all(ids).objects.contains_key(id) ==> self.objects.contains_key(id),
        decreases ids.len(),
    {
        if ids.len() > 0 {
            self.law_remove_all(ids.drop_last());
            self.remove_all(ids.drop_last()).law_remove_keeps_index_exact(ids.last());
            assert forall|i: int| 0 <= i < ids.len() implies !self.remove_all(
                ids,
            ).objects.contains_key(#[trigger] ids[i]) by {
                if i < ids.len() - 1 {
                    assert(ids.drop_last()[i] == ids[i]);
                }
            }
        }
    }

    /// The type index stays exact when a component is added.
    pub proof fn law_add_component_keeps_index_exact(self, id: u32, component: AnyComponent<C>)
        requires
            self.wf(),
        ensures
            self.add_component(id, component).wf(),
    {
        let after = self.add_component(id, component);
        if self.objects.contains_key(id) {
            assert forall|type_id: u64| #[trigger]
                after.registered(type_id) == after.holders(type_id) by {
                assert(self.registered(type_id) == self.holders(type_id));
                lemma_has_type_push(self.objects[id], component, type_id);
                assert(after.holders(type_id) =~= if type_id == component.type_id() {
                    self.holders(type_id).insert(id)
                } else {
                    self.holders(type_id)
                });
            }
        }
    }

    /// The type index stays exact when a component is removed.
    pub proof fn law_remove_component_keeps_index_exact(self, id: u32, component_id: ComponentId)
        requires
            self.wf(),
        ensures
            self.remove_component(id, component_id).wf(),
            self.remove_component(id, component_id).type_index.dom() == self.type_index.dom(),
    {
        let after = self.remove_component(id, component_id);
        if self.has_component(id, component_id) {
            let held = self.objects[id];
            lemma_first_with_id(held, component_id);
            let at = first_with_id(held, component_id);
            let left = without_component(held, component_id);
            let removed_type = held[at].type_id();
            assert(self.registered(removed_type) == self.holders(removed_type));
            assert(self.holders(removed_type).contains(id));
            assert(after.type_index.dom() =~= self.type_index.dom());
            assert forall|type_id: u64| #[trigger]
                after.registered(type_id) == after.holders(type_id) by {
                assert(self.registered(type_id) == self.holders(type_id));
                lemma_has_type_remove(held, at, type_id);
                if type_id == removed_type && !has_type(left, removed_type) {
                    assert(after.holders(type_id) =~= self.holders(type_id).remove(id));
                } else {
                    assert(after.holders(type_id) =~= self.holders(type_id));
                }
            }
        }
    }

    /// The type index stays exact when only payloads change.
    pub proof fn law_replace_keeps_index_exact(self, id: u32, components: Seq<AnyComponent<C>>)
        requires
            self.wf(),
            self.objects.contains_key(id),
        ensures
            same_shape(self.objects[id], components) ==> {
                &&& self.replace(id, components).wf()
                &&& forall|type_id: u64|
                    self.replace(id, components).holders(type_id) == self.holders(type_id)
            },
    {
        if !same_shape(self.objects[id], components) {
            return ;
        }
        let after = self.replace(id, components);
        assert forall|type_id: u64| after.holders(type_id) == self.holders(type_id) by {
            assert forall|other: u32| after.holders(type_id).contains(other) == self.holders(
                type_id,
            ).contains(other) by {
                if other == id {
                    lemma_same_shape_has_type(self.objects[id], components, type_id);
                }
            }
            assert(after.holders(type_id) =~= self.holders(type_id));
        }
        assert forall|type_id: u64| #[trigger]
            after.registered(type_id) == after.holders(type_id) by {
            assert(self.registered(type_id) == self.holders(type_id));
        }
    }
}

/// Sequences of the same shape hold the same types.
pub proof fn lemma_same_shape_has_type<C>(
    before: Seq<AnyComponent<C>>,
    after: Seq<AnyComponent<C>>,
    type_id: u64,
)
    requires
        same_shape(before, after),
    ensures
        has_type(before, type_id) == has_type(after, type_id),
{
    if has_type(before, type_id) {
        let i = choose|i: int| 0 <= i < before.len() && before[i].type_id() == type_id;
        assert(after[i].type_id() == type_id);
    }
    if has_type(after, type_id) {
        let i = choose|i: int| 0 <= i < after.len() && after[i].type_id() == type_id;
        assert(before[i].type_id() == type_id);
    }
}

/// The types held after a component was added at the end.
pub proof fn lemma_has_type_push<C>(
    components: Seq<AnyComponent<C>>,
    component: AnyComponent<C>,
    type_id: u64,
)
    ensures
        has_type(components.push(component), type_id) == (has_type(components, type_id)
            || component.type_id() == type_id),
{
    let after = components.push(component);
    if has_type(components, type_id) {
        let i = choose|i: int| 0 <= i < components.len() && components[i].type_id() == type_id;
        assert(after[i].type_id() == type_id);
    }
    if component.type_id() == type_id {
        assert(after[components.len() as int].type_id() == type_id);
    }
    if has_type(after, type_id) {
        let i = choose|i: int| 0 <= i < after.len() && after[i].type_id() == type_id;
        if i < components.len() {
            assert(components[i].type_id() == type_id);
        }
    }
}

/// The types held after the component at `i` was taken out: none is
/// new, and only the type of the component taken out can be gone.
pub proof fn lemma_has_type_remove<C>(components: Seq<AnyComponent<C>>, i: int, type_id: u64)
    requires
        0 <= i < components.len(),
    ensures
        has_type(components.remove(i), type_id) ==> has_type(components, type_id),
        has_type(components, type_id) && components[i].type_id() != type_id ==> has_type(
            components.remove(i),
            type_id,
        ),
{
    let after = components.remove(i);
    if has_type(after, type_id) {
        let j = choose|j: int| 0 <= j < after.len() && after[j].type_id() == type_id;
        if j < i {
            assert(components[j].type_id() == type_id);
        } else {
            assert(components[j + 1].type_id() == type_id);
        }
    }
    if has_type(components, type_id) && components[i].type_id() != type_id {
        let j = choose|j: int| 0 <= j < components.len() && components[j].type_id() == type_id;
        if j < i {
            assert(after[j].type_id() == type_id);
        } else {
            assert(after[j - 1].type_id() == type_id);
        }
    }
}

/// Owns the objects and keeps the type index in step with them.
///
/// The objects sit in `objects` without gaps; `object_positions` leads
/// from the number of an identifier to the position of its object.
pub struct ObjectStorage<C> {
    objects: Vec<Object<C>>,
    object_positions: HashMap<u32, usize>,
    component_type_indices: HashMap<u64, HashSet<u32>>,
}

impl<C> View for ObjectStorage<C> {
    type V = ObjectStorageView<C>;

    closed spec fn view(&self) -> ObjectStorageView<C> {
        ObjectStorageView {
            objects: Map::new(
                |id: u32| self.object_positions@.contains_key(id),
                |id: u32| self.objects@[self.object_positions@[id] as int]@,
            ),
            type_index: Map::new(
                |type_id: u64| self.component_type_indices@.contains_key(type_id),
                |type_id: u64| self.component_type_indices@[type_id]@,
            ),
        }
    }
}

impl<C> ObjectStorage<C> {
    /// Each recorded position holds the object it is recorded for, and
    /// each object has its position recorded.
    spec fn positions_agree(&self) -> bool {
        &&& forall|id: u32| #[trigger]
            self.object_positions@.contains_key(id) ==> {
                &&& self.object_positions@[id] < self.objects@.len()
                &&& self.objects@[self.object_positions@[id] as int].id()@ == id
            }
        &&& forall|i: int|
            0 <= i < self.objects@.len() ==> {
                &&& self.object_positions@.contains_key((#[trigger] self.objects@[i]).id()@)
                &&& self.object_positions@[self.objects@[i].id()@] == i
            }
    }

    /// Every object is stored under its own identifier, and the type
    /// index is exact.
    pub closed spec fn wf(&self) -> bool {
        &&& self.positions_agree()
        &&& self@.wf()
    }

    /// A well-formed store has an exact type index.
    pub proof fn lemma_view_wf(&self)
        requires
            self.wf(),
        ensures
            self@.wf(),
    {
    }

    /// A store without objects and without registered types.
    pub fn new() -> (r: Self)
        ensures
            r.wf(),
            r@ == ObjectStorageView::<C>::empty(),
    {
        let r = Self {
            objects: Vec::new(),
            object_positions: HashMap::new(),
            component_type_indices: HashMap::new(),
        };
        proof {
            assert(r@.objects =~= Map::<u32, Seq<AnyComponent<C>>>::empty());
            assert(r@.type_index =~= Map::<u64, Set<u32>>::empty());
            assert forall|type_id: u64| #[trigger]
                r@.registered(type_id) == r@.holders(type_id) by {
                assert(r@.holders(type_id) =~= Set::<u32>::empty());
            }
        }
        r
    }

    /// Where the object named `id` sits, if it is stored.
    fn position_of(&self, id: ObjectId) -> (r: Option<usize>)
        requires
            self.positions_agree(),
        ensures
            match r {
                Some(i) => {
                    &&& self@.objects.contains_key(id@)
                    &&& i < self.objects@.len()
                    &&& i == self.object_positions@[id@]
                    &&& self.objects@[i as int].id() == id
                    &&& self.objects@[i as int]@ == self@.objects[id@]
                },
                None => !self@.objects.contains_key(id@),
            },
    {
        match self.object_positions.get(&id.get()) {
            Some(i) => {
                proof {
                    self.objects@[*i as int].id().lemma_ext_equal(id);
                }
                Some(*i)
            },
            None => None,
        }
    }

    /// Puts `object`, whose identifier names no stored object, into the store.
    fn store(&mut self, object: Object<C>)
        requires
            old(self).positions_agree(),
            !old(self)@.objects.contains_key(object.id()@),
        ensures
            final(self).positions_agree(),
            final(self)@.objects == old(self)@.objects.insert(object.id()@, object@),
            final(self)@.type_index == old(self)@.type_index,
    {
        let ghost id = object.id()@;
        self.object_positions.insert(object.id().get(), self.objects.len());
        self.objects.push(object);
        proof {
            assert forall|i: int| 0 <= i < self.objects@.len() implies {
                &&& self.object_positions@.contains_key((#[trigger] self.objects@[i]).id()@)
                &&& self.object_positions@[self.objects@[i].id()@] == i
            } by {
                if i < old(self).objects@.len() {
                    assert(self.objects@[i] == old(self).objects@[i]);
                }
            }
            assert(self@.objects =~= old(self)@.objects.insert(id, object@));
            assert(self@.type_index =~= old(self)@.type_index);
        }
    }

    /// Takes the object named `id` out of the store; the last object
    /// moves into its place.
    fn take(&mut self, id: ObjectId) -> (r: Option<Object<C>>)
        requires
            old(self).positions_agree(),
        ensures
            final(self).positions_agree(),
            final(self)@.objects == old(self)@.objects.remove(id@),
            final(self)@.type_index == old(self)@.type_index,
            match r {
                Some(object) => {
                    &&& old(self)@.objects.contains_key(id@)
                    &&& object.id() == id
                    &&& object@ == old(self)@.objects[id@]
                },
                None => !old(self)@.objects.contains_key(id@),
            },
    {
        let r = match self.object_positions.remove(&id.get()) {
            Some(position) => {
                let object = self.objects.swap_remove(position);
                if position < self.objects.len() {
                    let moved = self.objects[position].id();
                    self.object_positions.insert(moved.get(), position);
                }
                proof {
                    let last = old(self).objects@.len() - 1;
                    object.id().lemma_ext_equal(id);
                    assert forall|i: int| 0 <= i < self.objects@.len() implies {
                        &&& self.object_positions@.contains_key(
                            (#[trigger] self.objects@[i]).id()@,
                        )
                        &&& self.object_positions@[self.objects@[i].id()@] == i
                    } by {
                        if i == position {
                            assert(self.objects@[i] == old(self).objects@[last]);
                        } else {
                            assert(self.objects@[i] == old(self).objects@[i]);
                        }
                    }
                    assert forall|other: u32| #[trigger]
                        self.object_positions@.contains_key(other) implies {
                        &&& self.object_positions@[other] < self.objects@.len()
                        &&& self.objects@[self.object_positions@[other] as int].id()@ == other
                    } by {
                        assert(old(self).object_positions@.contains_key(other));
                        let before = old(self).object_positions@[other] as int;
                        if before == last {
                            assert(old(self).objects@[last].id()@ == other);
                        }
                    }
                    assert forall|other: u32|
                        self@.objects.contains_key(other) implies self@.objects[other]
                        == old(self)@.objects[other] by {
                        assert(old(self).object_positions@.contains_key(other));
                        let before = old(self).object_positions@[other] as int;
                        if before == last {
                            assert(old(self).objects@[last].id()@ == other);
                        }
                    }
                }
                Some(object)
            },
            None => None,
        };
        proof {
            assert(self@.objects =~= old(self)@.objects.remove(id@));
            assert(self@.type_index =~= old(self)@.type_index);
        }
        r
    }

    /// The object named `id`, if it is stored.
    pub fn get(&self, id: ObjectId) -> (r: Option<&Object<C>>)
        requires
            self.wf(),
        ensures
            match r {
                Some(object) => {
                    &&& self@.objects.contains_key(id@)
                    &&& object.id() == id
                    &&& object@ == self@.objects[id@]
                },
                None => !self@.objects.contains_key(id@),
            },
    {
        match self.position_of(id) {
            Some(i) => Some(&self.objects[i]),
            None => None,
        }
    }

    /// What holds of a store in which one object was changed in place.
    proof fn lemma_object_changed(self, after: Self, id: u32, object: Object<C>)
        requires
            self.positions_agree(),
            self.object_positions@.contains_key(id),
            after.objects@ == self.objects@.update(self.object_positions@[id] as int, object),
            after.object_positions == self.object_positions,
            after.component_type_indices == self.component_type_indices,
        ensures
            after@ == self@.replace(id, object@),
            object.id()@ == id ==> after.positions_agree(),
    {
        let position = self.object_positions@[id] as int;
        assert forall|other: u32| self.object_positions@.contains_key(other) && other
            != id implies self.object_positions@[other] != position by {
            assert(self.objects@[self.object_positions@[other] as int].id()@ == other);
        }
        assert(after@.objects =~= self@.objects.insert(id, object@));
        assert(after@.type_index =~= self@.type_index);
        if object.id()@ == id {
            assert forall|i: int| 0 <= i < after.objects@.len() implies {
                &&& after.object_positions@.contains_key((#[trigger] after.objects@[i]).id()@)
                &&& after.object_positions@[after.objects@[i].id()@] == i
            } by {
                if i != position {
                    assert(after.objects@[i] == self.objects@[i]);
                }
            }
        }
    }

    /// The object named `id`, if it is stored, for changing in place.
    /// The store ends with whatever the object was changed to, and is
    /// well formed again where the object kept its identifier and, but
    /// for payloads, its components.
    pub fn get_mut(&mut self, id: ObjectId) -> (r: Option<&mut Object<C>>)
        requires
            old(self).wf(),
        ensures
            match r {
                Some(object) => {
                    &&& old(self)@.objects.contains_key(id@)
                    &&& object.id() == id
                    &&& object@ == old(self)@.objects[id@]
                    &&& final(self)@ == old(self)@.replace(id@, (*final(object))@)
                    &&& (*final(object)).id() == id && same_shape(object@, (*final(object))@)
                        ==> final(self).wf() && final(self)@.wf()
                },
                None => {
                    &&& !old(self)@.objects.contains_key(id@)
                    &&& *final(self) == *old(self)
                },
            },
    {
        match self.position_of(id) {
            Some(i) => {
                let ghost before = *self;
                let object = &mut self.objects[i];
                proof {
                    let after = ObjectStorage {
                        objects: after_borrow(self.objects),
                        object_positions: self.object_positions,
                        component_type_indices: self.component_type_indices,
                    };
                    before.lemma_object_changed(after, id@, *final(object));
                    before@.law_replace_keeps_index_exact(id@, (*final(object))@);
                }
                Some(object)
            },
            None => None,
        }
    }

    /// The objects registered for `type_id`. `None` where no object ever
    /// registered that type. In a well-formed store the set returned is
    /// exactly the set of stored objects that hold at least one component
    /// of that type, and `None` means that there is none.
    pub fn object_ids_with_component(&self, type_id: u64) -> (r: Option<&HashSet<u32>>)
        ensures
            match r {
                Some(ids) => {
                    &&& self@.type_index.contains_key(type_id)
                    &&& ids@ == self@.type_index[type_id]
                },
                None => !self@.type_index.contains_key(type_id),
            },
            self.wf() ==> match r {
                Some(ids) => ids@ == self@.holders(type_id),
                None => self@.holders(type_id) == Set::<u32>::empty(),
            },
    {
        proof {
            if self.wf() {
                assert(self@.registered(type_id) == self@.holders(type_id));
            }
        }
        self.component_type_indices.get(&type_id)
    }

    /// Registers `object_id` for `type_id`, whether or not it is registered already.
    fn register_component(&mut self, object_id: ObjectId, type_id: u64)
        ensures
            final(self)@ == old(self)@.register(object_id@, type_id),
            old(self).positions_agree() ==> final(self).positions_agree(),
    {
        let mut ids = match self.component_type_indices.remove(&type_id) {
            Some(ids) => ids,
            None => HashSet::new(),
        };
        ids.insert(object_id.get());
        self.component_type_indices.insert(type_id, ids);
        proof {
            assert(self@.type_index =~= old(self)@.register(object_id@, type_id).type_index);
            assert(self@.objects =~= old(self)@.objects);
        }
    }

    /// Takes `object_id` out of the set registered for `type_id`. The set
    /// stays, also when it ends empty; a type never registered stays so.
    fn unregister_component(&mut self, object_id: ObjectId, type_id: u64)
        ensures
            final(self)@ == old(self)@.unregister(object_id@, type_id),
            old(self).positions_agree() ==> final(self).positions_agree(),
    {
        match self.component_type_indices.remove(&type_id) {
            Some(ids) => {
                let mut ids = ids;
                ids.remove(&object_id.get());
                self.component_type_indices.insert(type_id, ids);
                proof {
                    assert(self@.type_index =~= old(self)@.unregister(
                        object_id@,
                        type_id,
                    ).type_index);
                    assert(self@.objects =~= old(self)@.objects);
                }
            },
            None => {
                proof {
                    assert(self@.type_index =~= old(self)@.type_index);
                    assert(self@.objects =~= old(self)@.objects);
                }
            },
        }
    }

    /// Stores `object` and registers the type of each of its components.
    /// Changes nothing where an object with the same identifier is stored
    /// already.
    pub(crate) fn add(&mut self, object: Object<C>)
        requires
            old(self).wf(),
        ensures
            final(self).wf(),
            final(self)@ == old(self)@.insert(object.id()@, object@),
    {
        let id = object.id();
        if self.object_positions.contains_key(&id.get()) {
            return ;
        }
        let ghost before = self@;
        let components = object.components();
        let mut i: usize = 0;
        proof {
            assert(object@.take(0) =~= Seq::<AnyComponent<C>>::empty());
        }
        while i < components.len()
            invariant
                i <= components@.len(),
                components@ == object@,
                id == object.id(),
                self.positions_agree(),
                self@ == before.register_all(id@, object@.take(i as int)),
            decreases components@.len() - i,
        {
            let type_id: u64 = components[i].type_id();
            self.register_component(id, type_id);
            proof {
                assert(object@.take(i + 1).drop_last() =~= object@.take(i as int));
            }
            i += 1;
        }
        proof {
            assert(object@.take(i as int) =~= object@);
            before.lemma_register_all(id@, object@);
            before.law_insert_keeps_index_exact(id@, object@);
        }
        self.store(object);
    }

    /// Takes the object named `id` out of the store and out of the type
    /// index. The identifier is not given out again.
    pub(crate) fn remove(&mut self, id: ObjectId)
        requires
            old(self).wf(),
        ensures
            final(self).wf(),
            final(self)@ == old(self)@.remove(id@),
    {
        let ghost before = self@;
        match self.take(id) {
            Some(object) => {
                let ghost taken = self@;
                let components = object.components();
                let mut i: usize = 0;
                proof {
                    assert(object@.take(0) =~= Seq::<AnyComponent<C>>::empty());
                }
                while i < components.len()
                    invariant
                        i <= components@.len(),
                        components@ == object@,
                        self.positions_agree(),
                        self@ == taken.unregister_all(id@, object@.take(i as int)),
                    decreases components@.len() - i,
                {
                    let type_id: u64 = components[i].type_id();
                    self.unregister_component(id, type_id);
                    proof {
                        assert(object@.take(i + 1).drop_last() =~= object@.take(i as int));
                    }
                    i += 1;
                }
                proof {
                    assert(object@.take(i as int) =~= object@);
                    taken.lemma_unregister_all(id@, object@);
                    taken.lemma_unregister_all_goes_by_index(before, id@, object@);
                    before.law_remove_keeps_index_exact(id@);
                    assert(self@.objects == before.remove(id@).objects);
                    assert(self@.type_index == before.remove(id@).type_index);
                }
            },
            None => {
                proof {
                    assert(self@.objects =~= before.objects);
                }
            },
        }
    }

    /// Adds `component` to the object named `id` and registers its type.
    /// Returns whether the object is stored; where it is not, nothing
    /// changes.
    pub(crate) fn add_component(&mut self, id: ObjectId, component: AnyComponent<C>) -> (r: bool)
        requires
            old(self).wf(),
        ensures
            final(self).wf(),
            r == old(self)@.objects.contains_key(id@),
            final(self)@ == old(self)@.add_component(id@, component),
    {
        let type_id: u64 = component.type_id();
        match self.position_of(id) {
            Some(i) => {
                let ghost held = *self;
                self.objects[i].add_component(component);
                proof {
                    held.lemma_object_changed(*self, id@, self.objects@[i as int]);
                    held@.law_add_component_keeps_index_exact(id@, component);
                }
                self.register_component(id, type_id);
                true
            },
            None => false,
        }
    }

    /// Takes the first component named `component_id` out of the object
    /// named `id`, and unregisters the object for the component's type
    /// where it holds no other component of that type. Returns the
    /// component; `None`, and nothing changes, where the object is not
    /// stored or holds no such component.
    pub(crate) fn remove_component(&mut self, id: ObjectId, component_id: ComponentId) -> (r:
        Option<AnyComponent<C>>)
        requires
            old(self).wf(),
        ensures
            final(self).wf(),
            final(self)@ == old(self)@.remove_component(id@, component_id),
            match r {
                Some(component) => {
                    &&& old(self)@.has_component(id@, component_id)
                    &&& component == old(self)@.objects[id@][first_with_id(
                        old(self)@.objects[id@],
                        component_id,
                    )]
                },
                None => !old(self)@.has_component(id@, component_id),
            },
    {
        let i = match self.position_of(id) {
            Some(i) => i,
            None => {
                return None;
            },
        };
        if !self.objects[i].has_component(component_id) {
            return None;
        }
        let ghost before = *self;
        let removed = self.objects[i].remove_component(component_id);
        proof {
            before.lemma_object_changed(*self, id@, self.objects@[i as int]);
            before@.law_remove_component_keeps_index_exact(id@, component_id);
            let held = before@.objects[id@];
            let at = choose|at: int|
                {
                    &&& is_first_with_id(held, component_id, at)
                    &&& removed == Some(held[at])
                    &&& self.objects@[i as int]@ == held.remove(at)
                };
            let first = first_with_id(held, component_id);
            assert(is_first_with_id(held, component_id, first));
            if at < first {
            } else if first < at {
            }
        }
        match removed {
            Some(component) => {
                let type_id: u64 = component.type_id();
                if !self.objects[i].has_component_of_type(type_id) {
                    self.unregister_component(id, type_id);
                }
                Some(component)
            },
            None => None,
        }
    }
}

} // verus!
