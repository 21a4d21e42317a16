//! The surface that callbacks work against: objects and components
//! change at once, everything else is queued.

use vstd::prelude::*;
use std::collections::HashSet;
use crate::any_component::AnyComponent;
use crate::component::Component;
use crate::component_id::ComponentId;
use crate::object::same_shape;
use crate::object::Object;
use crate::object_id::ObjectId;
use crate::storage::object_storage::lemma_has_type_push;
use crate::storage::object_storage::ObjectStorage;
use crate::storage::object_storage::ObjectStorageView;

verus! {

/// A structural change that waits for the end of the callback.
pub enum ContextActionItem<E, K> {
    RemoveObject { object_id: ObjectId },
    AttachController { object_id: ObjectId, controller: K },
    DetachController { object_id: ObjectId },
    ListenOnUpdate { object_id: ObjectId },
    UnlistenOnUpdate { object_id: ObjectId },
    ListenOnLateUpdate { object_id: ObjectId },
    UnlistenOnLateUpdate { object_id: ObjectId },
    ListenEvent { event: String, object_id: ObjectId },
    UnlistenEvent { event: String, object_id: ObjectId },
    UnlistenEventAll { object_id: ObjectId },
    EmitEvent { event: String, param: E },
}

/// A queued change, as mathematics: objects by the number of their
/// identifier, event names as sequences of characters.
pub enum ActionView<E, K> {
    RemoveObject { object_id: u32 },
    AttachController { object_id: u32, controller: K },
    DetachController { object_id: u32 },
    ListenOnUpdate { object_id: u32 },
    UnlistenOnUpdate { object_id: u32 },
    ListenOnLateUpdate { object_id: u32 },
    UnlistenOnLateUpdate { object_id: u32 },
    ListenEvent { event: Seq<char>, object_id: u32 },
    UnlistenEvent { event: Seq<char>, object_id: u32 },
    UnlistenEventAll { object_id: u32 },
    EmitEvent { event: Seq<char>, param: E },
}

impl<E, K> View for ContextActionItem<E, K> {
    type V = ActionView<E, K>;

    open spec fn view(&self) -> ActionView<E, K> {
        match *self {
            ContextActionItem::RemoveObject { object_id } => ActionView::RemoveObject {
                object_id: object_id@,
            },
            ContextActionItem::AttachController {
                object_id,
                controller,
            } => ActionView::AttachController { object_id: object_id@, controller },
            ContextActionItem::DetachController { object_id } => ActionView::DetachController {
                object_id: object_id@,
            },
            ContextActionItem::ListenOnUpdate { object_id } => ActionView::ListenOnUpdate {
                object_id: object_id@,
            },
            ContextActionItem::UnlistenOnUpdate { object_id } => ActionView::UnlistenOnUpdate {
                object_id: object_id@,
            },
            ContextActionItem::ListenOnLateUpdate { object_id } => ActionView::ListenOnLateUpdate {
                object_id: object_id@,
            },
            ContextActionItem::UnlistenOnLateUpdate {
                object_id,
            } => ActionView::UnlistenOnLateUpdate { object_id: object_id@ },
            ContextActionItem::ListenEvent { event, object_id } => ActionView::ListenEvent {
                event: event@,
                object_id: object_id@,
            },
            ContextActionItem::UnlistenEvent { event, object_id } => ActionView::UnlistenEvent {
                event: event@,
                object_id: object_id@,
            },
            ContextActionItem::UnlistenEventAll { object_id } => ActionView::UnlistenEventAll {
                object_id: object_id@,
            },
            ContextActionItem::EmitEvent { event, param } => ActionView::EmitEvent {
                event: event@,
                param,
            },
        }
    }
}

/// The queue as mathematics.
pub open spec fn queue_view<E, K>(queue: Seq<ContextActionItem<E, K>>) -> Seq<
    ActionView<E, K>,
> {
    queue.map_values(|action: ContextActionItem<E, K>| action@)
}

/// The counter after an identifier was handed out. It stops at the
/// largest number.
pub open spec fn advance(cursor: u32) -> u32 {
    if cursor == u32::MAX {
        cursor
    } else {
        (cursor + 1) as u32
    }
}

/// What a transaction hands back when it ends.
pub(crate) struct ContextResult<C, E, K> {
    pub next_object_id: u32,
    pub next_component_id: u32,
    pub object_storage: ObjectStorage<C>,
    pub action_queue: Vec<ContextActionItem<E, K>>,
}

/// A transaction: it carries the identifier counters and the object
/// store while a callback runs, and collects the structural changes the
/// callback asks for.
pub struct ContextProxy<C, E, K> {
    next_object_id: u32,
    next_component_id: u32,
    object_storage: ObjectStorage<C>,
    action_queue: Vec<ContextActionItem<E, K>>,
}

impl<C, E, K> ContextProxy<C, E, K> {
    /// The number of the next object identifier.
    pub closed spec fn spec_next_object_id(&self) -> u32 {
        self.next_object_id
    }

    /// The number of the next component identifier.
    pub closed spec fn spec_next_component_id(&self) -> u32 {
        self.next_component_id
    }

    /// The object store as it stands.
    pub closed spec fn storage(&self) -> ObjectStorageView<C> {
        self.object_storage@
    }

    /// The changes queued so far, oldest first.
    pub closed spec fn actions(&self) -> Seq<ActionView<E, K>> {
        queue_view(self.action_queue@)
    }

    /// The object store is well formed.
    pub closed spec fn store_wf(&self) -> bool {
        self.object_storage.wf()
    }

    /// The counters have started, the store is well formed, so that every
    /// object is stored under its own identifier and the type index is
    /// exact, and no stored object has an identifier that is still to be
    /// handed out.
    pub open spec fn wf(&self) -> bool {
        &&& self.spec_next_object_id() >= 1
        &&& self.spec_next_component_id() >= 1
        &&& self.store_wf()
        &&& self.storage().wf()
        &&& forall|id: u32| #[trigger]
            self.storage().objects.contains_key(id) ==> id < self.spec_next_object_id()
                || self.spec_next_object_id() == u32::MAX
    }

    /// Everything but the queue is as in `before`.
    pub open spec fn same_state(&self, before: &Self) -> bool {
        &&& self.spec_next_object_id() == before.spec_next_object_id()
        &&& self.spec_next_component_id() == before.spec_next_component_id()
        &&& self.storage() == before.storage()
        &&& self.store_wf() == before.store_wf()
    }

    /// `action` was queued and nothing else happened.
    pub open spec fn queued(&self, before: &Self, action: ActionView<E, K>) -> bool {
        &&& self.same_state(before)
        &&& self.actions() == before.actions().push(action)
    }

    pub(crate) fn new(
        next_object_id: u32,
        next_component_id: u32,
        object_storage: ObjectStorage<C>,
    ) -> (r: Self)
        ensures
            r.spec_next_object_id() == next_object_id,
            r.spec_next_component_id() == next_component_id,
            r.storage() == object_storage@,
            r.store_wf() == object_storage.wf(),
            r.store_wf() ==> r.storage().wf(),
            r.actions() == Seq::<ActionView<E, K>>::empty(),
    {
        proof {
            if object_storage.wf() {
                object_storage.lemma_view_wf();
            }
        }
        let r = Self {
            next_object_id,
            next_component_id,
            object_storage,
            action_queue: Vec::new(),
        };
        proof {
            assert(r.actions() =~= Seq::<ActionView<E, K>>::empty());
        }
        r
    }

    pub(crate) fn into_result(self) -> (r: ContextResult<C, E, K>)
        ensures
            r.next_object_id == self.spec_next_object_id(),
            r.next_component_id == self.spec_next_component_id(),
            r.object_storage@ == self.storage(),
            r.object_storage.wf() == self.store_wf(),
            queue_view(r.action_queue@) == self.actions(),
    {
        ContextResult {
            next_object_id: self.next_object_id,
            next_component_id: self.next_component_id,
            object_storage: self.object_storage,
            action_queue: self.action_queue,
        }
    }

    /// The object named `id`, if it is stored.
    pub fn find_object_by_id(&self, id: ObjectId) -> (r: Option<&Object<C>>)
        requires
            self.wf(),
        ensures
            match r {
                Some(object) => {
                    &&& self.storage().objects.contains_key(id@)
                    &&& object.id() == id
                    &&& object@ == self.storage().objects[id@]
                },
                None => !self.storage().objects.contains_key(id@),
            },
    {
        self.object_storage.get(id)
    }

    /// The object named `id`, if it is stored, for changing in place.
    /// The store ends with whatever the object was changed to; counters
    /// and queue stay. The transaction is well formed again where the
    /// object kept its identifier and, but for payloads, its components.
    pub fn find_object_by_id_mut(&mut self, id: ObjectId) -> (r: Option<&mut Object<C>>)
        requires
            old(self).wf(),
        ensures
            final(self).spec_next_object_id() == old(self).spec_next_object_id(),
            final(self).spec_next_component_id() == old(self).spec_next_component_id(),
            final(self).actions() == old(self).actions(),
            match r {
                Some(object) => {
                    &&& old(self).storage().objects.contains_key(id@)
                    &&& object.id() == id
                    &&& object@ == old(self).storage().objects[id@]
                    &&& final(self).storage() == old(self).storage().replace(
                        id@,
                        (*final(object))@,
                    )
                    &&& (*final(object)).id() == id && same_shape(object@, (*final(object))@)
                        ==> final(self).wf()
                },
                None => {
                    &&& !old(self).storage().objects.contains_key(id@)
                    &&& final(self).storage() == old(self).storage()
                    &&& final(self).wf()
                },
            },
    {
        let ghost before = *self;
        let r = self.object_storage.get_mut(id);
        proof {
            let after = ContextProxy {
                next_object_id: self.next_object_id,
                next_component_id: self.next_component_id,
                object_storage: after_borrow(self.object_storage),
                action_queue: self.action_queue,
            };
            if r is Some {
                assert(after.storage().objects.dom() =~= before.storage().objects.dom());
            }
        }
        r
    }

    /// The objects registered for the component type `type_id`, by the
    /// number of their identifier; `None` where no object ever registered
    /// that type. In a well-formed transaction the set is exactly the set
    /// of stored objects that hold at least one component of that type.
    pub fn find_object_ids_by_component_type(&self, type_id: u64) -> (r: Option<&HashSet<u32>>)
        ensures
            match r {
                Some(ids) => {
                    &&& self.storage().type_index.contains_key(type_id)
                    &&& ids@ == self.storage().type_index[type_id]
                },
                None => !self.storage().type_index.contains_key(type_id),
            },
            self.wf() ==> match r {
                Some(ids) => ids@ == self.storage().holders(type_id),
                None => self.storage().holders(type_id) == Set::<u32>::empty(),
            },
    {
        self.object_storage.object_ids_with_component(type_id)
    }

    /// Hands out the next object identifier and stores an object without
    /// components under it.
    pub fn create_object(&mut self) -> (id: ObjectId)
        requires
            old(self).wf(),
        ensures
            final(self).wf(),
            final(self).created(old(self), id, Seq::empty()),
    {
        self.create_object_with_components(Vec::new())
    }

    /// `id` was handed out and an object that holds `components` was
    /// stored under it. Unless the counter has reached its end, no
    /// object was stored under `id` before.
    pub open spec fn created(
        &self,
        before: &Self,
        id: ObjectId,
        components: Seq<AnyComponent<C>>,
    ) -> bool {
        &&& id@ == before.spec_next_object_id()
        &&& self.spec_next_object_id() == advance(before.spec_next_object_id())
        &&& self.spec_next_component_id() == before.spec_next_component_id()
        &&& self.actions() == before.actions()
        &&& self.storage() == before.storage().insert(id@, components)
        &&& before.spec_next_object_id() < u32::MAX ==> !before.storage().objects.contains_key(id@)
    }

    /// Hands out the next object identifier and stores an object that
    /// holds `components` under it.
    pub fn create_object_with_components(&mut self, components: Vec<AnyComponent<C>>) -> (id:
        ObjectId)
        requires
            old(self).wf(),
        ensures
            final(self).wf(),
            final(self).created(old(self), id, components@),
    {
        let object_id = ObjectId::new(self.next_object_id);
        self.next_object_id = if self.next_object_id == u32::MAX {
            u32::MAX
        } else {
            self.next_object_id + 1
        };
        let object = Object::with_components(object_id, components);
        let ghost before = self.object_storage@;
        self.object_storage.add(object);
        proof {
            self.object_storage.lemma_view_wf();
            assert forall|id: u32| #[trigger]
                self.storage().objects.contains_key(id) implies id < self.spec_next_object_id()
                || self.spec_next_object_id() == u32::MAX by {
                if id != object_id@ {
                    assert(before.objects.contains_key(id));
                    assert(old(self).storage().objects.contains_key(id));
                }
            }
        }
        object_id
    }

    /// A component was added to the object named `object_id`, with
    /// `component_id`, handed out for it, as its identifier, `type_id` as
    /// its type and `payload` as its payload.
    pub open spec fn added(
        &self,
        before: &Self,
        object_id: ObjectId,
        component_id: ComponentId,
        type_id: u64,
        payload: C,
    ) -> bool {
        &&& component_id@ == before.spec_next_component_id()
        &&& self.spec_next_component_id() == advance(before.spec_next_component_id())
        &&& self.spec_next_object_id() == before.spec_next_object_id()
        &&& self.actions() == before.actions()
        &&& self.storage() == before.storage().add_component(
            object_id@,
            AnyComponent::with_type(component_id, type_id, payload),
        )
    }

    /// A component that was added is found: its object is among the
    /// holders of its type, and it is the last component of its object,
    /// with the identifier, the type and the payload it was added with.
    pub proof fn law_added_component_is_found(
        &self,
        before: &Self,
        object_id: ObjectId,
        component_id: ComponentId,
        type_id: u64,
        payload: C,
    )
        requires
            before.storage().objects.contains_key(object_id@),
            self.added(before, object_id, component_id, type_id, payload),
        ensures
            self.storage().objects.contains_key(object_id@),
            self.storage().holders(type_id).contains(object_id@),
            self.storage().objects[object_id@].last().id() == component_id,
            self.storage().objects[object_id@].last().type_id() == type_id,
            self.storage().objects[object_id@].last().payload() == payload,
            self.storage().objects[object_id@].drop_last() == before.storage().objects[object_id@],
    {
        let component = AnyComponent::with_type(component_id, type_id, payload);
        AnyComponent::lemma_with_type(component_id, type_id, payload);
        let held = before.storage().objects[object_id@];
        lemma_has_type_push(held, component, type_id);
        assert(held.push(component).drop_last() =~= held);
    }

    /// Adds a component with payload `component` to the object named
    /// `object_id`, under the type identity that the payload reports, and
    /// returns the identifier of the new component. `None`, and nothing
    /// changes, where the object is not stored.
    pub fn add_component(&mut self, object_id: ObjectId, component: C) -> (r: Option<
        ComponentId,
    >) where C: Component
        requires
            old(self).wf(),
        ensures
            final(self).wf(),
            match r {
                Some(component_id) => {
                    &&& old(self).storage().objects.contains_key(object_id@)
                    &&& exists|type_id: u64|
                        {
                            &&& call_ensures(C::type_tag, (&component,), type_id)
                            &&& #[trigger] final(self).added(
                                old(self),
                                object_id,
                                component_id,
                                type_id,
                                component,
                            )
                        }
                },
                None => {
                    &&& !old(self).storage().objects.contains_key(object_id@)
                    &&& final(self).same_state(old(self))
                    &&& final(self).actions() == old(self).actions()
                },
            },
    {
        let type_id: u64 = component.type_tag();
        self.add_component_of_type(object_id, type_id, component)
    }

    /// Adds a component of type `type_id` with payload `component` to the
    /// object named `object_id`, registers the object for that type, and
    /// returns the identifier of the new component, which is the next one
    /// of the counter. `None`, and nothing changes, where the object is
    /// not stored.
    pub fn add_component_of_type(&mut self, object_id: ObjectId, type_id: u64, component: C) -> (r:
        Option<ComponentId>)
        requires
            old(self).wf(),
        ensures
            final(self).wf(),
            match r {
                Some(component_id) => {
                    &&& old(self).storage().objects.contains_key(object_id@)
                    &&& final(self).added(old(self), object_id, component_id, type_id, component)
                },
                None => {
                    &&& !old(self).storage().objects.contains_key(object_id@)
                    &&& final(self).same_state(old(self))
                    &&& final(self).actions() == old(self).actions()
                },
            },
    {
        if self.object_storage.get(object_id).is_none() {
            return None;
        }
        let component_id = ComponentId::new(self.next_component_id);
        self.next_component_id = if self.next_component_id == u32::MAX {
            u32::MAX
        } else {
            self.next_component_id + 1
        };
        let wrapped = AnyComponent::with_type(component_id, type_id, component);
        let ghost before = self.object_storage@;
        self.object_storage.add_component(object_id, wrapped);
        proof {
            self.object_storage.lemma_view_wf();
            assert forall|id: u32| #[trigger]
                self.storage().objects.contains_key(id) implies id < self.spec_next_object_id()
                || self.spec_next_object_id() == u32::MAX by {
                assert(before.objects.contains_key(id));
                assert(old(self).storage().objects.contains_key(id));
            }
        }
        Some(component_id)
    }

    /// Takes the first component named `component_id` out of the object
    /// named `object_id`; the object's other components keep their
    /// order. The object is unregistered for the component's type where
    /// it holds no other component of that type. Nothing changes where
    /// the object is not stored or holds no such component.
    pub fn remove_component(&mut self, object_id: ObjectId, component_id: ComponentId)
        requires
            old(self).wf(),
        ensures
            final(self).wf(),
            final(self).actions() == old(self).actions(),
            final(self).spec_next_object_id() == old(self).spec_next_object_id(),
            final(self).spec_next_component_id() == old(self).spec_next_component_id(),
            final(self).storage() == old(self).storage().remove_component(
                object_id@,
                component_id,
            ),
    {
        let ghost before = self.object_storage@;
        self.object_storage.remove_component(object_id, component_id);
        proof {
            self.object_storage.lemma_view_wf();
            assert forall|id: u32| #[trigger]
                self.storage().objects.contains_key(id) implies id < self.spec_next_object_id()
                || self.spec_next_object_id() == u32::MAX by {
                assert(before.objects.contains_key(id));
                assert(old(self).storage().objects.contains_key(id));
            }
        }
    }

    /// Puts `action` at the end of the queue.
    fn enqueue(&mut self, action: ContextActionItem<E, K>)
        ensures
            final(self).queued(old(self), action@),
    {
        let ghost before = self.action_queue@;
        self.action_queue.push(action);
        proof {
            assert(queue_view(self.action_queue@) =~= queue_view(before).push(action@));
        }
    }

    /// Asks for the object named `object_id` to be removed when the
    /// transaction ends.
    pub fn remove_object(&mut self, object_id: ObjectId)
        ensures
            final(self).queued(old(self), ActionView::RemoveObject { object_id: object_id@ }),
    {
        self.enqueue(ContextActionItem::RemoveObject { object_id });
    }

    /// Asks for `controller` to be attached to `object_id`.
    pub fn attach_controller(&mut self, object_id: ObjectId, controller: K)
        ensures
            final(self).queued(
                old(self),
                ActionView::AttachController { object_id: object_id@, controller },
            ),
    {
        self.enqueue(ContextActionItem::AttachController { object_id, controller });
    }

    /// Asks for the controller of `object_id` to be detached.
    pub fn detach_controller(&mut self, object_id: ObjectId)
        ensures
            final(self).queued(old(self), ActionView::DetachController { object_id: object_id@ }),
    {
        self.enqueue(ContextActionItem::DetachController { object_id });
    }

    /// Asks for `object_id` to be subscribed to the update pass.
    pub fn listen_on_update(&mut self, object_id: ObjectId)
        ensures
            final(self).queued(old(self), ActionView::ListenOnUpdate { object_id: object_id@ }),
    {
        self.enqueue(ContextActionItem::ListenOnUpdate { object_id });
    }

    /// Asks for `object_id` to be unsubscribed from the update pass.
    pub fn unlisten_on_update(&mut self, object_id: ObjectId)
        ensures
            final(self).queued(old(self), ActionView::UnlistenOnUpdate { object_id: object_id@ }),
    {
        self.enqueue(ContextActionItem::UnlistenOnUpdate { object_id });
    }

    /// Asks for `object_id` to be subscribed to the late-update pass.
    pub fn listen_on_late_update(&mut self, object_id: ObjectId)
        ensures
            final(self).queued(old(self), ActionView::ListenOnLateUpdate { object_id: object_id@ }),
    {
        self.enqueue(ContextActionItem::ListenOnLateUpdate { object_id });
    }

    /// Asks for `object_id` to be unsubscribed from the late-update pass.
    pub fn unlisten_on_late_update(&mut self, object_id: ObjectId)
        ensures
            final(self).queued(old(self), ActionView::UnlistenOnLateUpdate { object_id: object_id@ }),
    {
        self.enqueue(ContextActionItem::UnlistenOnLateUpdate { object_id });
    }

    /// Asks for `object_id` to be subscribed to the event named `event`.
    pub fn listen_event(&mut self, event: &str, object_id: ObjectId)
        ensures
            final(self).queued(
                old(self),
                ActionView::ListenEvent { event: event@, object_id: object_id@ },
            ),
    {
        self.enqueue(ContextActionItem::ListenEvent { event: event.to_owned(), object_id });
    }

    /// Asks for `object_id` to be unsubscribed from the event named `event`.
    pub fn unlisten_event(&mut self, event: &str, object_id: ObjectId)
        ensures
            final(self).queued(
                old(self),
                ActionView::UnlistenEvent { event: event@, object_id: object_id@ },
            ),
    {
        self.enqueue(ContextActionItem::UnlistenEvent { event: event.to_owned(), object_id });
    }

    /// Asks for `object_id` to be unsubscribed from every event.
    pub fn unlisten_event_all(&mut self, object_id: ObjectId)
        ensures
            final(self).queued(old(self), ActionView::UnlistenEventAll { object_id: object_id@ }),
    {
        self.enqueue(ContextActionItem::UnlistenEventAll { object_id });
    }

    /// Asks for the event named `event` to be sent, with `param`, to the
    /// objects subscribed to it.
    pub fn emit_event(&mut self, event: &str, param: E)
        ensures
            final(self).queued(old(self), ActionView::EmitEvent { event: event@, param }),
    {
        self.enqueue(ContextActionItem::EmitEvent { event: event.to_owned(), param });
    }
}

} // verus!
