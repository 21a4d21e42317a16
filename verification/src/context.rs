//! The owner of all state, and the driver of transactions and frames.

use vstd::prelude::*;
use std::marker::PhantomData;
use crate::any_component::AnyComponent;
use crate::component::Component;
use crate::component_id::ComponentId;
use crate::context_proxy::advance;
use crate::context_proxy::queue_view;
use crate::context_proxy::ActionView;
use crate::context_proxy::ContextActionItem;
use crate::context_proxy::ContextProxy;
use crate::context_proxy::ContextResult;
use crate::controller::Controller;
use crate::object::same_shape;
use crate::object::Object;
use crate::object_id::ObjectId;
use crate::storage::controller_storage::pass_runs;
use crate::storage::controller_storage::ControllerStorage;
use crate::storage::controller_storage::ControllerStorageView;
use crate::storage::event_receiver_storage::reaches_controller;
use crate::storage::event_receiver_storage::without_object;
use crate::storage::event_receiver_storage::EventReceiverStorage;
use crate::storage::object_storage::ObjectStorage;
use crate::storage::object_storage::ObjectStorageView;

verus! {

/// What a drain changes outside the object store: the controller store,
/// the event subscriptions, and the objects whose removal was asked for
/// and that are deleted when the drain ends.
pub struct Structure {
    pub controllers: ControllerStorageView,
    pub subscriptions: Set<(Seq<char>, u32)>,
    pub removed: Seq<u32>,
}

impl Structure {
    /// The structure after one queued change was applied.
    ///
    /// Removing an object unsubscribes it from every event, detaches its
    /// controller, and notes the object for deletion. Detaching a
    /// controller unsubscribes the object from every event as well.
    /// Sending an event changes nothing here.
    pub open spec fn apply<E, K>(self, action: ActionView<E, K>) -> Structure {
        match action {
            ActionView::RemoveObject { object_id } => Structure {
                controllers: self.controllers.detach(object_id),
                subscriptions: without_object(self.subscriptions, object_id),
                removed: self.removed.push(object_id),
            },
            ActionView::AttachController { object_id, controller } => Structure {
                controllers: self.controllers.attach(object_id),
                ..self
            },
            ActionView::DetachController { object_id } => Structure {
                controllers: self.controllers.detach(object_id),
                subscriptions: without_object(self.subscriptions, object_id),
                ..self
            },
            ActionView::ListenOnUpdate { object_id } => Structure {
                controllers: self.controllers.listen_on_update(object_id),
                ..self
            },
            ActionView::UnlistenOnUpdate { object_id } => Structure {
                controllers: self.controllers.unlisten_on_update(object_id),
                ..self
            },
            ActionView::ListenOnLateUpdate { object_id } => Structure {
                controllers: self.controllers.listen_on_late_update(object_id),
                ..self
            },
            ActionView::UnlistenOnLateUpdate { object_id } => Structure {
                controllers: self.controllers.unlisten_on_late_update(object_id),
                ..self
            },
            ActionView::ListenEvent { event, object_id } => Structure {
                subscriptions: self.subscriptions.insert((event, object_id)),
                ..self
            },
            ActionView::UnlistenEvent { event, object_id } => Structure {
                subscriptions: self.subscriptions.remove((event, object_id)),
                ..self
            },
            ActionView::UnlistenEventAll { object_id } => Structure {
                subscriptions: without_object(self.subscriptions, object_id),
                ..self
            },
            ActionView::EmitEvent { event, param } => self,
        }
    }

    /// Applying `action` to this structure calls a controller: attaching
    /// calls the new controller, detaching and removing call the
    /// controller that is attached, and sending an event calls the
    /// controllers of its listeners.
    pub open spec fn calls_back<E, K>(self, action: ActionView<E, K>) -> bool {
        match action {
            ActionView::RemoveObject { object_id } => self.controllers.attached.contains(object_id),
            ActionView::AttachController { object_id, controller } => true,
            ActionView::DetachController { object_id } => self.controllers.attached.contains(
                object_id,
            ),
            ActionView::EmitEvent { event, param } => reaches_controller(
                self.subscriptions,
                self.controllers.attached,
                event,
            ),
            _ => false,
        }
    }

    /// Applying `actions` in order to this structure calls no controller.
    pub open spec fn quiet<E, K>(self, actions: Seq<ActionView<E, K>>) -> bool
        decreases actions.len(),
    {
        actions.len() == 0 || (self.quiet(actions.drop_last()) && !self.apply_all(
            actions.drop_last(),
        ).calls_back(actions.last()))
    }

    /// The structure after the changes of `actions` were applied, first to last.
    pub open spec fn apply_all<E, K>(self, actions: Seq<ActionView<E, K>>) -> Structure
        decreases actions.len(),
    {
        if actions.len() == 0 {
            self
        } else {
            self.apply_all(actions.drop_last()).apply(actions.last())
        }
    }

    /// Applying one batch after another is applying both in a row.
    pub proof fn lemma_apply_all_add<E, K>(
        self,
        first: Seq<ActionView<E, K>>,
        second: Seq<ActionView<E, K>>,
    )
        ensures
            self.apply_all(first + second) == self.apply_all(first).apply_all(second),
        decreases second.len(),
    {
        if second.len() == 0 {
            assert(first + second =~= first);
        } else {
            self.lemma_apply_all_add(first, second.drop_last());
            assert((first + second).drop_last() =~= first + second.drop_last());
            assert((first + second).last() == second.last());
        }
    }

    /// A run of one change.
    pub proof fn lemma_single<E, K>(self, action: ActionView<E, K>)
        ensures
            self.apply_all(seq![action]) == self.apply(action),
            self.quiet(seq![action]) == !self.calls_back(action),
    {
        let run = seq![action];
        assert(run.drop_last() =~= Seq::<ActionView<E, K>>::empty());
        assert(run.last() == action);
        assert(self.apply_all(run.drop_last()) == self);
        assert(self.quiet(run.drop_last()));
    }

    /// A run that calls no controller has no beginning that calls one.
    pub proof fn lemma_quiet_prefix<E, K>(self, actions: Seq<ActionView<E, K>>, n: int)
        requires
            0 <= n <= actions.len(),
        ensures
            self.quiet(actions) ==> self.quiet(actions.take(n)),
        decreases actions.len(),
    {
        if n < actions.len() {
            self.lemma_quiet_prefix(actions.drop_last(), n);
            assert(actions.drop_last().take(n) =~= actions.take(n));
        } else {
            assert(actions.take(n) =~= actions);
        }
    }

    /// An object whose removal is among the changes is noted for deletion.
    pub proof fn lemma_removal_is_noted<E, K>(self, actions: Seq<ActionView<E, K>>, at: int)
        requires
            0 <= at < actions.len(),
            actions[at] is RemoveObject,
        ensures
            exists|i: int|
                0 <= i < self.apply_all(actions).removed.len() && self.apply_all(
                    actions,
                ).removed[i] == actions[at]->RemoveObject_object_id,
        decreases actions.len(),
    {
        let before = self.apply_all(actions.drop_last());
        let after = self.apply_all(actions);
        if at == actions.len() - 1 {
            assert(after.removed[before.removed.len() as int]
                == actions[at]->RemoveObject_object_id);
        } else {
            self.lemma_removal_is_noted(actions.drop_last(), at);
            let i = choose|i: int|
                0 <= i < before.removed.len() && before.removed[i]
                    == actions.drop_last()[at]->RemoveObject_object_id;
            assert(after.removed[i] == before.removed[i]);
        }
    }

    /// Every change keeps the controller store well formed and drops no
    /// object from the list of removals.
    pub proof fn lemma_apply_all_keeps<E, K>(self, actions: Seq<ActionView<E, K>>)
        requires
            self.controllers.wf(),
        ensures
            self.apply_all(actions).controllers.wf(),
            self.removed.is_prefix_of(self.apply_all(actions).removed),
        decreases actions.len(),
    {
        if actions.len() > 0 {
            self.lemma_apply_all_keeps(actions.drop_last());
        }
    }
}

/// Owns the identifier counters and the three stores. Everything that
/// changes them goes through a transaction.
pub struct Context<C, E, K> {
    next_object_id: u32,
    next_component_id: u32,
    object_storage: ObjectStorage<C>,
    event_receiver_storage: EventReceiverStorage,
    controller_storage: ControllerStorage<K>,
    event_payload: PhantomData<E>,
}

impl<C, E, K> Context<C, E, K> {
    pub closed spec fn spec_next_object_id(&self) -> u32 {
        self.next_object_id
    }

    pub closed spec fn spec_next_component_id(&self) -> u32 {
        self.next_component_id
    }

    /// The object store.
    pub closed spec fn objects(&self) -> ObjectStorageView<C> {
        self.object_storage@
    }

    /// The controller store.
    pub closed spec fn controllers(&self) -> ControllerStorageView {
        self.controller_storage@
    }

    /// The event subscriptions.
    pub closed spec fn subscriptions(&self) -> Set<(Seq<char>, u32)> {
        self.event_receiver_storage@
    }

    /// The counters have started, the stores are well formed, and no
    /// stored object has an identifier that is still to be handed out.
    pub closed spec fn wf(&self) -> bool {
        &&& self.next_object_id >= 1
        &&& self.next_component_id >= 1
        &&& self.object_storage.wf()
        &&& forall|id: u32| #[trigger]
            self.object_storage@.objects.contains_key(id) ==> id < self.next_object_id
                || self.next_object_id == u32::MAX
        &&& self.event_receiver_storage.wf()
        &&& self.controller_storage.wf()
        &&& self.controller_storage@.wf()
    }

    /// What is kept consistent: the type index is exact, only objects
    /// with a controller are subscribed to a pass, both counters have
    /// started, and every stored object has an identifier that the
    /// object counter has passed, unless the counter has reached its end.
    pub proof fn law_stores_are_consistent(&self)
        requires
            self.wf(),
        ensures
            self.objects().wf(),
            self.controllers().wf(),
            self.spec_next_object_id() >= 1,
            self.spec_next_component_id() >= 1,
            forall|id: u32| #[trigger]
                self.objects().objects.contains_key(id) ==> id < self.spec_next_object_id()
                    || self.spec_next_object_id() == u32::MAX,
    {
        self.object_storage.lemma_view_wf();
    }

    /// A runtime without objects, controllers or subscriptions, with
    /// both counters at 1.
    pub fn new() -> (r: Self)
        ensures
            r.wf(),
            r.spec_next_object_id() == 1,
            r.spec_next_component_id() == 1,
            r.objects() == ObjectStorageView::<C>::empty(),
            r.controllers() == ControllerStorageView::empty(),
            r.subscriptions() == Set::<(Seq<char>, u32)>::empty(),
    {
        Self {
            next_object_id: 1,
            next_component_id: 1,
            object_storage: ObjectStorage::new(),
            event_receiver_storage: EventReceiverStorage::new(),
            controller_storage: ControllerStorage::new(),
            event_payload: PhantomData,
        }
    }
}

/// What a drain has in hand between two changes: the controllers, the
/// event subscriptions, the transaction that collects what the callbacks
/// ask for, and the objects noted for deletion so far.
pub struct DrainState<C, E, K> {
    pub controllers: ControllerStorage<K>,
    pub events: EventReceiverStorage,
    pub ctx: ContextProxy<C, E, K>,
    pub removed: Seq<u32>,
}

impl<C, E, K> DrainState<C, E, K> {
    /// The part of the state that the queued changes describe.
    pub open spec fn structure(self) -> Structure {
        Structure {
            controllers: self.controllers@,
            subscriptions: self.events@,
            removed: self.removed,
        }
    }

    /// This state opens the pass that follows `from`: the stores and the
    /// objects noted are those of `from`, and the transaction carries on
    /// from the one of `from`, with an empty queue.
    pub open spec fn reopens(self, from: Self) -> bool {
        &&& self.controllers == from.controllers
        &&& self.events == from.events
        &&& self.removed == from.removed
        &&& self.ctx.same_state(&from.ctx)
        &&& self.ctx.actions() == Seq::<ActionView<E, K>>::empty()
    }
}

/// How many passes a drain makes at most. Changes that are still queued
/// after that many passes are dropped.
pub const DRAIN_PASS_LIMIT: u64 = u64::MAX;

/// The numbers of the identifiers in `ids`.
pub open spec fn numbers(ids: Seq<ObjectId>) -> Seq<u32> {
    ids.map_values(|id: ObjectId| id@)
}

impl<C, E, K: Controller<C, E>> Context<C, E, K> {
    /// What a drain works on, with `removed` as the objects noted for
    /// deletion so far.
    pub closed spec fn structure(&self, removed: Seq<u32>) -> Structure {
        Structure {
            controllers: self.controller_storage@,
            subscriptions: self.event_receiver_storage@,
            removed,
        }
    }

    /// The event store.
    pub closed spec fn event_store(&self) -> EventReceiverStorage {
        self.event_receiver_storage
    }

    /// What a drain of this runtime has in hand, with `ctx` as the
    /// transaction and `removed` as the objects noted for deletion.
    pub open spec fn drain_state(
        &self,
        ctx: ContextProxy<C, E, K>,
        removed: Seq<u32>,
    ) -> DrainState<C, E, K> {
        DrainState {
            controllers: self.controller_store(),
            events: self.event_store(),
            ctx,
            removed,
        }
    }

    /// Applying the queued change `action` takes a drain from `s0` to
    /// `s1`: the two are what `apply_action` starts from and ends in when
    /// it is given that change. `law_applied` says what that means for
    /// each kind of change.
    pub closed spec fn applied(
        s0: DrainState<C, E, K>,
        action: ActionView<E, K>,
        s1: DrainState<C, E, K>,
    ) -> bool {
        exists|
            me: &mut Self,
            item: ContextActionItem<E, K>,
            p: &mut ContextProxy<C, E, K>,
            noted: &mut Vec<ObjectId>,
            step: Ghost<(DrainState<C, E, K>, DrainState<C, E, K>)>,
        |
            {
                &&& item@ == action
                &&& step@ == (s0, s1)
                &&& #[trigger] call_ensures(Self::apply_action, (me, item, p, noted), step)
            }
    }

    /// `states` are what a pass over `actions` goes through: the state
    /// before the first change, after each, and so at the end.
    pub open spec fn applies_in_order(
        states: Seq<DrainState<C, E, K>>,
        actions: Seq<ActionView<E, K>>,
    ) -> bool {
        &&& states.len() == actions.len() + 1
        &&& forall|i: int|
            0 <= i < actions.len() ==> Self::applied(
                states[i],
                #[trigger] actions[i],
                states[i + 1],
            )
    }

    /// Where a drain stands after `passes`, having started from `start`.
    pub open spec fn ended(
        start: DrainState<C, E, K>,
        passes: Seq<Seq<DrainState<C, E, K>>>,
    ) -> DrainState<C, E, K> {
        if passes.len() == 0 {
            start
        } else {
            passes.last().last()
        }
    }

    /// `passes` are the passes of a drain that starts from `start`, each
    /// with the states it goes through. Every pass finds changes queued
    /// in the transaction that the pass before ended with (the first, in
    /// that of `start`), opens a transaction that carries on from that
    /// one with an empty queue, and applies those changes in order.
    pub open spec fn passes_follow(
        start: DrainState<C, E, K>,
        passes: Seq<Seq<DrainState<C, E, K>>>,
    ) -> bool
        decreases passes.len(),
    {
        passes.len() == 0 || {
            let from = Self::ended(start, passes.drop_last());
            &&& Self::passes_follow(start, passes.drop_last())
            &&& from.ctx.actions().len() > 0
            &&& Self::applies_in_order(passes.last(), from.ctx.actions())
            &&& passes.last()[0].reopens(from)
        }
    }

    /// `after` is what draining the transaction `ctx` makes of `before`,
    /// by `passes`.
    ///
    /// The drain goes through `passes`, see `passes_follow`, and stops at
    /// the first pass that leaves nothing queued; that it stops for the
    /// number of passes needs as many passes as a `u64` can count. Then
    /// the controllers and the subscriptions are those that the last
    /// pass left, the counters are those of the last transaction, and
    /// the object store is that of the last transaction without the
    /// objects noted for deletion.
    pub open spec fn drained_through(
        before: &Self,
        after: &Self,
        ctx: &ContextProxy<C, E, K>,
        passes: Seq<Seq<DrainState<C, E, K>>>,
    ) -> bool {
        let start = before.drain_state(*ctx, Seq::empty());
        let end = Self::ended(start, passes);
        &&& Self::passes_follow(start, passes)
        &&& end.ctx.actions().len() == 0 || passes.len() == u64::MAX
        &&& after.controller_store() == end.controllers
        &&& after.event_store() == end.events
        &&& after.spec_next_object_id() == end.ctx.spec_next_object_id()
        &&& after.spec_next_component_id() == end.ctx.spec_next_component_id()
        &&& after.objects() == end.ctx.storage().remove_all(end.removed)
    }

    /// `after` is what draining the transaction `ctx` makes of `before`:
    /// there are passes that lead there, see `drained_through`.
    pub open spec fn drained_to(before: &Self, after: &Self, ctx: &ContextProxy<C, E, K>) -> bool {
        exists|passes: Seq<Seq<DrainState<C, E, K>>>| #[trigger]
            Self::drained_through(before, after, ctx, passes)
    }

    /// `after` has the structure that the changes of `all`, applied in
    /// order, make of that of `before`: the controllers attached, the
    /// subscribers of the passes and the event subscriptions are as
    /// `all` makes them, and no object whose removal is among `all` is
    /// stored. This is silent on what the controllers themselves hold
    /// and on the other objects.
    pub open spec fn restructured_by(
        before: &Self,
        after: &Self,
        all: Seq<ActionView<E, K>>,
    ) -> bool {
        let outcome = before.structure(Seq::empty()).apply_all(all);
        &&& after.controllers() == outcome.controllers
        &&& after.subscriptions() == outcome.subscriptions
        &&& forall|i: int|
            0 <= i < outcome.removed.len() ==> !after.objects().objects.contains_key(
                #[trigger] outcome.removed[i],
            )
    }

    /// The structure of `after` comes from that of `before` by changes
    /// that begin with those of `queue`, see `restructured_by`. Where
    /// applying the queue calls no controller, they are those of the
    /// queue and no others. What follows the queue is left open here:
    /// `drained_to` says which changes those are.
    pub open spec fn restructured(
        before: &Self,
        after: &Self,
        queue: Seq<ActionView<E, K>>,
    ) -> bool {
        exists|all: Seq<ActionView<E, K>>|
            {
                &&& queue.is_prefix_of(all)
                &&& before.structure(Seq::empty()).quiet(queue) ==> all == queue
                &&& #[trigger] Self::restructured_by(before, after, all)
            }
    }

    /// `after` is what handing back the transaction `ctx` makes of
    /// `before`: its queue is drained, see `drained_to`. Two things
    /// that follow are stated with it. The structure begins to change
    /// as the queue says, see `restructured`. And where applying the
    /// queue calls no controller, the counters are those of the
    /// transaction, the object store is that of the transaction with
    /// the objects removed whose removal was asked for, and every
    /// controller is as it was.
    pub open spec fn committed(before: &Self, after: &Self, ctx: &ContextProxy<C, E, K>) -> bool {
        let start = before.structure(Seq::empty());
        &&& Self::drained_to(before, after, ctx)
        &&& Self::restructured(before, after, ctx.actions())
        &&& start.quiet(ctx.actions()) ==> {
            &&& after.spec_next_object_id() == ctx.spec_next_object_id()
            &&& after.spec_next_component_id() == ctx.spec_next_component_id()
            &&& after.objects() == ctx.storage().remove_all(
                start.apply_all(ctx.actions()).removed,
            )
            &&& after.controller_store().same_controllers(&before.controller_store())
        }
    }

    /// `after` is what a transaction that asks for `action` and nothing
    /// else makes of `before`: the runtime opens a transaction, `action`
    /// is queued in it, and it is handed back, see `committed`.
    pub open spec fn transacted(before: &Self, after: &Self, action: ActionView<E, K>) -> bool {
        exists|opened: ContextProxy<C, E, K>, left: ContextProxy<C, E, K>|
            {
                &&& before.opens(&opened)
                &&& #[trigger] left.queued(&opened, action)
                &&& Self::committed(before, after, &left)
            }
    }

    /// Applies one queued change to the controller store and the event
    /// subscriptions. An object to remove is noted in `removed_objects`.
    /// Returns, for the proofs, what the drain had in hand before and
    /// after.
    fn apply_action(
        &mut self,
        action: ContextActionItem<E, K>,
        ctx: &mut ContextProxy<C, E, K>,
        removed_objects: &mut Vec<ObjectId>,
    ) -> (step: Ghost<(DrainState<C, E, K>, DrainState<C, E, K>)>)
        requires
            old(self).event_receiver_storage.wf(),
            old(self).controller_storage.wf(),
            old(ctx).wf(),
        ensures
            final(self).event_receiver_storage.wf(),
            final(self).controller_storage.wf(),
            final(ctx).wf(),
            step@.0 == old(self).drain_state(*old(ctx), numbers(old(removed_objects)@)),
            step@.1 == final(self).drain_state(*final(ctx), numbers(final(removed_objects)@)),
            match action {
                ContextActionItem::RemoveObject { object_id } => exists|
                    s: &mut ControllerStorage<K>,
                    p: &mut ContextProxy<C, E, K>,
                |
                    {
                        &&& *s == old(self).controller_storage
                        &&& *final(s) == final(self).controller_storage
                        &&& *p == *old(ctx)
                        &&& *final(p) == *final(ctx)
                        &&& #[trigger] call_ensures(
                            ControllerStorage::<K>::detach_controller::<C, E>,
                            (s, object_id, p),
                            (),
                        )
                    },
                ContextActionItem::DetachController { object_id } => exists|
                    s: &mut ControllerStorage<K>,
                    p: &mut ContextProxy<C, E, K>,
                |
                    {
                        &&& *s == old(self).controller_storage
                        &&& *final(s) == final(self).controller_storage
                        &&& *p == *old(ctx)
                        &&& *final(p) == *final(ctx)
                        &&& #[trigger] call_ensures(
                            ControllerStorage::<K>::detach_controller::<C, E>,
                            (s, object_id, p),
                            (),
                        )
                    },
                ContextActionItem::AttachController { object_id, controller } => exists|
                    s: &mut ControllerStorage<K>,
                    p: &mut ContextProxy<C, E, K>,
                |
                    {
                        &&& *s == old(self).controller_storage
                        &&& *final(s) == final(self).controller_storage
                        &&& *p == *old(ctx)
                        &&& *final(p) == *final(ctx)
                        &&& #[trigger] call_ensures(
                            ControllerStorage::<K>::attach_controller::<C, E>,
                            (s, object_id, controller, p),
                            (),
                        )
                    },
                ContextActionItem::EmitEvent { event, param } => exists|
                    s: &mut ControllerStorage<K>,
                    p: &mut ContextProxy<C, E, K>,
                    name: &str,
                |
                    {
                        &&& name@ == event@
                        &&& *s == old(self).controller_storage
                        &&& *final(s) == final(self).controller_storage
                        &&& *p == *old(ctx)
                        &&& *final(p) == *final(ctx)
                        &&& final(self).event_receiver_storage == old(self).event_receiver_storage
                        &&& #[trigger] call_ensures(
                            EventReceiverStorage::emit::<C, E, K>,
                            (&old(self).event_receiver_storage, name, &param, p, s),
                            (),
                        )
                    },
                _ => true,
            },
            final(self).structure(numbers(final(removed_objects)@)) == old(self).structure(
                numbers(old(removed_objects)@),
            ).apply(action@),
            !old(self).structure(numbers(old(removed_objects)@)).calls_back(action@) ==> {
                &&& *final(ctx) == *old(ctx)
                &&& final(self).controller_storage.same_controllers(&old(self).controller_storage)
            },
            final(self).object_storage == old(self).object_storage,
            final(self).next_object_id == old(self).next_object_id,
            final(self).next_component_id == old(self).next_component_id,
    {
        let ghost removed_before = numbers(removed_objects@);
        let ghost before = self.drain_state(*ctx, removed_before);
        match action {
            ContextActionItem::RemoveObject { object_id } => {
                self.event_receiver_storage.unlisten_all(object_id);
                self.controller_storage.detach_controller(object_id, ctx);
                removed_objects.push(object_id);
                proof {
                    assert(numbers(removed_objects@) =~= removed_before.push(object_id@));
                }
            },
            ContextActionItem::AttachController { object_id, controller } => {
                self.controller_storage.attach_controller(object_id, controller, ctx);
            },
            ContextActionItem::DetachController { object_id } => {
                self.event_receiver_storage.unlisten_all(object_id);
                self.controller_storage.detach_controller(object_id, ctx);
            },
            ContextActionItem::ListenOnUpdate { object_id } => {
                self.controller_storage.listen_on_update(object_id);
            },
            ContextActionItem::UnlistenOnUpdate { object_id } => {
                self.controller_storage.unlisten_on_update(object_id);
            },
            ContextActionItem::ListenOnLateUpdate { object_id } => {
                self.controller_storage.listen_on_late_update(object_id);
            },
            ContextActionItem::UnlistenOnLateUpdate { object_id } => {
                self.controller_storage.unlisten_on_late_update(object_id);
            },
            ContextActionItem::ListenEvent { event, object_id } => {
                self.event_receiver_storage.listen(event, object_id);
            },
            ContextActionItem::UnlistenEvent { event, object_id } => {
                self.event_receiver_storage.unlisten(event, object_id);
            },
            ContextActionItem::UnlistenEventAll { object_id } => {
                self.event_receiver_storage.unlisten_all(object_id);
            },
            ContextActionItem::EmitEvent { event, param } => {
                self.event_receiver_storage.emit(
                    event.as_str(),
                    &param,
                    ctx,
                    &mut self.controller_storage,
                );
            },
        }
        Ghost((before, self.drain_state(*ctx, numbers(removed_objects@))))
    }

    /// Applies the changes of `actions` in order. What the callbacks ask
    /// for on the way is queued in `ctx`. Returns, for the proofs, the
    /// states that the pass went through.
    fn drain_pass(
        &mut self,
        actions: Vec<ContextActionItem<E, K>>,
        ctx: &mut ContextProxy<C, E, K>,
        removed_objects: &mut Vec<ObjectId>,
    ) -> (states: Ghost<Seq<DrainState<C, E, K>>>)
        requires
            old(self).event_receiver_storage.wf(),
            old(self).controller_storage.wf(),
            old(ctx).wf(),
        ensures
            final(self).event_receiver_storage.wf(),
            final(self).controller_storage.wf(),
            final(ctx).wf(),
            Self::applies_in_order(states@, queue_view(actions@)),
            states@[0] == old(self).drain_state(*old(ctx), numbers(old(removed_objects)@)),
            states@.last() == final(self).drain_state(
                *final(ctx),
                numbers(final(removed_objects)@),
            ),
            final(self).structure(numbers(final(removed_objects)@)) == old(self).structure(
                numbers(old(removed_objects)@),
            ).apply_all(queue_view(actions@)),
            old(self).structure(numbers(old(removed_objects)@)).quiet(queue_view(actions@)) ==> {
                &&& *final(ctx) == *old(ctx)
                &&& final(self).controller_storage.same_controllers(&old(self).controller_storage)
            },
            final(self).object_storage == old(self).object_storage,
            final(self).next_object_id == old(self).next_object_id,
            final(self).next_component_id == old(self).next_component_id,
    {
        let ghost start = self.structure(numbers(removed_objects@));
        let ghost all = queue_view(actions@);
        let ghost mut states: Seq<DrainState<C, E, K>> = seq![
            self.drain_state(*ctx, numbers(removed_objects@)),
        ];
        proof {
            start.lemma_quiet_prefix(all, 0);
        }
        for action in it: actions
            invariant
                it.seq() == actions@,
                states.len() == it.index() + 1,
                states[0] == old(self).drain_state(*old(ctx), numbers(old(removed_objects)@)),
                states.last() == self.drain_state(*ctx, numbers(removed_objects@)),
                forall|i: int|
                    0 <= i < it.index() ==> Self::applied(
                        states[i],
                        #[trigger] all[i],
                        states[i + 1],
                    ),
                all == queue_view(actions@),
                self.event_receiver_storage.wf(),
                self.controller_storage.wf(),
                ctx.wf(),
                self.structure(numbers(removed_objects@)) == start.apply_all(
                    all.take(it.index() as int),
                ),
                start.quiet(all.take(it.index() as int)) ==> {
                    &&& *ctx == *old(ctx)
                    &&& self.controller_storage.same_controllers(&old(self).controller_storage)
                },
                start.quiet(all) ==> start.quiet(all.take(it.index() as int)),
                self.object_storage == old(self).object_storage,
                self.next_object_id == old(self).next_object_id,
                self.next_component_id == old(self).next_component_id,
        {
            proof {
                let done = all.take(it.index() as int);
                let next = all.take(it.index() + 1);
                assert(next.drop_last() =~= done);
                assert(next.last() == action@);
                start.lemma_quiet_prefix(all, it.index() + 1);
            }
            let ghost at = it.index() as int;
            let ghost states_before = states;
            let step = self.apply_action(action, ctx, removed_objects);
            proof {
                assert(all[at] == action@);
                assert(Self::applied(step@.0, action@, step@.1));
                states = states.push(step@.1);
                assert forall|i: int| 0 <= i < at + 1 implies Self::applied(
                    states[i],
                    #[trigger] all[i],
                    states[i + 1],
                ) by {
                    if i < at {
                        assert(Self::applied(states_before[i], all[i], states_before[i + 1]));
                    }
                }
            }
        }
        proof {
            assert(all.take(actions@.len() as int) =~= all);
        }
        Ghost(states)
    }

    /// Drains the queue that a transaction left: applies its changes in
    /// order, then those that the callbacks queued meanwhile, pass after
    /// pass until a pass leaves nothing queued or the limit of passes is
    /// reached; then deletes the objects whose removal was asked for, and
    /// takes over the counters and the object store.
    fn handle_context_result(&mut self, given: ContextProxy<C, E, K>)
        requires
            old(self).event_receiver_storage.wf(),
            old(self).controller_storage.wf(),
            old(self).controller_storage@.wf(),
            given.wf(),
        ensures
            final(self).wf(),
            Self::drained_to(old(self), final(self), &given),
            Self::restructured(old(self), final(self), given.actions()),
            old(self).structure(Seq::empty()).quiet(given.actions()) ==> {
                &&& final(self).spec_next_object_id() == given.spec_next_object_id()
                &&& final(self).spec_next_component_id() == given.spec_next_component_id()
                &&& final(self).objects() == given.storage().remove_all(
                    old(self).structure(Seq::empty()).apply_all(
                        given.actions(),
                    ).removed,
                )
                &&& final(self).controller_store().same_controllers(&old(self).controller_store())
            },
            given.actions().len() == 0 ==> {
                &&& final(self).objects() == given.storage()
                &&& final(self).controllers() == old(self).controllers()
                &&& final(self).subscriptions() == old(self).subscriptions()
            },
    {
        let ghost start = self.structure(Seq::empty());
        let ghost origin = self.drain_state(given, Seq::empty());
        let ghost mut passes: Seq<Seq<DrainState<C, E, K>>> = Seq::empty();
        let result = given.into_result();
        let ghost initial = queue_view(result.action_queue@);
        let ghost handed = result.object_storage@;
        let ghost mut all: Seq<ActionView<E, K>> = Seq::empty();
        let mut removed_objects: Vec<ObjectId> = Vec::new();
        let mut next_object_id: u32 = result.next_object_id;
        let mut next_component_id: u32 = result.next_component_id;
        let mut object_storage = result.object_storage;
        let mut action_queue = result.action_queue;
        let mut passes_left: u64 = DRAIN_PASS_LIMIT;
        proof {
            assert(numbers(removed_objects@) =~= Seq::<u32>::empty());
        }
        while action_queue.len() > 0 && passes_left > 0
            invariant
                origin == old(self).drain_state(given, Seq::empty()),
                Self::passes_follow(origin, passes),
                passes.len() == DRAIN_PASS_LIMIT - passes_left,
                Self::ended(origin, passes).controllers == self.controller_storage,
                Self::ended(origin, passes).events == self.event_receiver_storage,
                Self::ended(origin, passes).removed == numbers(removed_objects@),
                Self::ended(origin, passes).ctx.spec_next_object_id() == next_object_id,
                Self::ended(origin, passes).ctx.spec_next_component_id() == next_component_id,
                Self::ended(origin, passes).ctx.storage() == object_storage@,
                Self::ended(origin, passes).ctx.store_wf() == object_storage.wf(),
                Self::ended(origin, passes).ctx.actions() == queue_view(action_queue@),
                self.event_receiver_storage.wf(),
                self.controller_storage.wf(),
                self.controller_storage@.wf(),
                next_object_id >= 1,
                next_component_id >= 1,
                object_storage.wf(),
                forall|id: u32| #[trigger]
                    object_storage@.objects.contains_key(id) ==> id < next_object_id
                        || next_object_id == u32::MAX,
                self.structure(numbers(removed_objects@)) == start.apply_all(all),
                start == old(self).structure(Seq::empty()),
                start.controllers.wf(),
                all.len() == 0 ==> {
                    &&& passes_left == DRAIN_PASS_LIMIT
                    &&& queue_view(action_queue@) == initial
                    &&& self.controller_storage == old(self).controller_storage
                    &&& removed_objects@.len() == 0
                    &&& next_object_id == result.next_object_id
                    &&& next_component_id == result.next_component_id
                    &&& object_storage@ == handed
                },
                all.len() > 0 ==> initial.is_prefix_of(all),
                all.len() > 0 && start.quiet(initial) ==> {
                    &&& all == initial
                    &&& self.controller_storage.same_controllers(&old(self).controller_storage)
                    &&& action_queue@.len() == 0
                    &&& next_object_id == result.next_object_id
                    &&& next_component_id == result.next_component_id
                    &&& object_storage@ == handed
                },
            decreases passes_left,
        {
            passes_left = passes_left - 1;
            let ghost batch = queue_view(action_queue@);
            let ghost first = all.len() == 0;
            let mut ctx = ContextProxy::new(next_object_id, next_component_id, object_storage);
            let ghost opened = ctx;
            let pass = self.drain_pass(action_queue, &mut ctx, &mut removed_objects);
            let ghost closed = ctx;
            let result = ctx.into_result();
            next_object_id = result.next_object_id;
            next_component_id = result.next_component_id;
            object_storage = result.object_storage;
            action_queue = result.action_queue;
            proof {
                start.lemma_apply_all_add(all, batch);
                start.lemma_apply_all_keeps(all + batch);
                if first {
                    assert(all + batch =~= batch);
                    if start.quiet(initial) {
                        assert(closed == opened);
                        assert(queue_view(action_queue@).len() == 0);
                    }
                }
                all = all + batch;
                let earlier = passes;
                passes = passes.push(pass@);
                assert(passes.drop_last() =~= earlier);
                assert(passes.last() == pass@);
                assert(pass@[0].reopens(Self::ended(origin, earlier)));
                assert(Self::passes_follow(origin, passes));
            }
        }
        let ghost end = Self::ended(origin, passes);
        proof {
            if all.len() == 0 {
                assert(initial =~= Seq::<ActionView<E, K>>::empty());
                assert(all =~= initial);
            }
        }

        let ghost kept = object_storage@;
        let ghost removed = numbers(removed_objects@);
        let mut i: usize = 0;
        proof {
            object_storage.lemma_view_wf();
        }
        while i < removed_objects.len()
            invariant
                end.controllers == self.controller_storage,
                end.events == self.event_receiver_storage,
                kept == end.ctx.storage(),
                removed == end.removed,
                i <= removed_objects@.len(),
                removed == numbers(removed_objects@),
                object_storage.wf(),
                kept.wf(),
                object_storage@ == kept.remove_all(removed.take(i as int)),
                start == old(self).structure(Seq::empty()),
                self.structure(removed) == start.apply_all(all),
                initial.is_prefix_of(all),
                start.quiet(initial) ==> {
                    &&& all == initial
                    &&& next_object_id == result.next_object_id
                    &&& next_component_id == result.next_component_id
                    &&& kept == handed
                    &&& self.controller_storage.same_controllers(&old(self).controller_storage)
                },
            decreases removed_objects@.len() - i,
        {
            object_storage.remove(removed_objects[i]);
            proof {
                assert(removed.take(i + 1).drop_last() =~= removed.take(i as int));
            }
            i += 1;
        }

        self.object_storage = object_storage;
        self.next_object_id = next_object_id;
        self.next_component_id = next_component_id;
        proof {
            assert(removed.take(i as int) =~= removed);
            kept.law_remove_all(removed);
            let outcome = start.apply_all(all);
            assert(outcome == self.structure(removed));
            assert forall|id: u32| #[trigger]
                self.object_storage@.objects.contains_key(id) implies id < self.next_object_id
                || self.next_object_id == u32::MAX by {
                assert(kept.objects.contains_key(id));
            }
            assert(Self::drained_through(old(self), self, &given, passes));
            assert(Self::restructured_by(old(self), self, all));
            assert(Self::restructured(old(self), self, initial));
        }
    }

    /// Runs `f` in a transaction and drains what it queued.
    ///
    /// `f` gets a transaction with an empty queue that carries the
    /// counters and the object store of the runtime. What `f` does to
    /// objects and components is done at once; the changes it asks for
    /// are applied when it is back, see `committed`. Returns what `f`
    /// returned.
    pub fn with_proxy<R, F: FnOnce(&mut ContextProxy<C, E, K>) -> R>(&mut self, f: F) -> (r: R)
        requires
            old(self).wf(),
            forall|p: &mut ContextProxy<C, E, K>|
                old(self).opens(&*p) ==> #[trigger] call_requires(f, (p,)),
            forall|p: &mut ContextProxy<C, E, K>, r: R|
                old(self).opens(&*p) && #[trigger] call_ensures(f, (p,), r) ==> (*final(p)).wf(),
        ensures
            final(self).wf(),
            exists|p: &mut ContextProxy<C, E, K>|
                {
                    &&& old(self).opens(&*p)
                    &&& #[trigger] call_ensures(f, (p,), r)
                    &&& Self::committed(old(self), final(self), &*final(p))
                },
    {
        let mut ctx = self.open();
        let r = f(&mut ctx);
        let ghost left = ctx;
        let ghost opened = *self;
        self.handle_context_result(ctx);
        proof {
            Self::lemma_drained_from(old(self), &opened, self, &left);
            assert(Self::committed(old(self), self, &left));
        }
        r
    }

    /// Neither pass of a frame has a subscriber.
    pub open spec fn has_no_subscriber(&self) -> bool {
        &&& self.controllers().on_update.len() == 0
        &&& self.controllers().on_late_update.len() == 0
    }

    /// Advances the simulation by one frame: the update pass, a drain,
    /// the late-update pass, a drain. Every subscriber of the update pass
    /// has had `on_update`, and what that asked for is applied, before
    /// any subscriber has `on_late_update`.
    ///
    /// In the update pass the subscribers are gone through in `order`,
    /// against a transaction that the runtime opens; `states` holds what
    /// the transaction was before the first, after each, and at the end,
    /// and `passed` is the runtime after the pass: the same but for the
    /// controllers that were called. Handing the transaction back to
    /// `passed` makes the runtime `mid`. The late-update pass and its
    /// drain start from `mid` in the same way and end in the runtime as
    /// it is left.
    pub fn proceed_one_frame(&mut self)
        requires
            old(self).wf(),
        ensures
            final(self).wf(),
            old(self).has_no_subscriber() ==> {
                &&& final(self).spec_next_object_id() == old(self).spec_next_object_id()
                &&& final(self).spec_next_component_id() == old(self).spec_next_component_id()
                &&& final(self).objects() == old(self).objects()
                &&& final(self).controllers() == old(self).controllers()
                &&& final(self).subscriptions() == old(self).subscriptions()
            },
            exists|
                order: Seq<u32>,
                states: Seq<ContextProxy<C, E, K>>,
                passed: Self,
                mid: Self,
                late_order: Seq<u32>,
                late_states: Seq<ContextProxy<C, E, K>>,
                late_passed: Self,
            |
                #![trigger
                    Self::pass_made(old(self), &passed, order, states),
                    Self::late_pass_made(&mid, &late_passed, late_order, late_states),
                ]
                {
                    let store = old(self).controller_store();
                    let after = passed.controller_store();
                    let late_store = mid.controller_store();
                    let late_after = late_passed.controller_store();
                    &&& Self::pass_made(old(self), &passed, order, states)
                    &&& forall|i: int|
                        #![trigger order[i]]
                        0 <= i < order.len() ==> if store@.attached.contains(order[i]) {
                            exists|c: &mut K, p: &mut ContextProxy<C, E, K>, id: ObjectId|
                                {
                                    &&& id@ == order[i]
                                    &&& *c == store.controller(order[i])
                                    &&& *final(c) == after.controller(order[i])
                                    &&& *p == states[i]
                                    &&& *final(p) == states[i + 1]
                                    &&& #[trigger] call_ensures(K::on_update, (c, id, p), ())
                                }
                        } else {
                            states[i + 1] == states[i]
                        }
                    &&& Self::committed(&passed, &mid, &states[order.len() as int])
                    &&& mid.wf()
                    &&& Self::late_pass_made(&mid, &late_passed, late_order, late_states)
                    &&& forall|i: int|
                        #![trigger late_order[i]]
                        0 <= i < late_order.len() ==> if late_store@.attached.contains(
                            late_order[i],
                        ) {
                            exists|c: &mut K, p: &mut ContextProxy<C, E, K>, id: ObjectId|
                                {
                                    &&& id@ == late_order[i]
                                    &&& *c == late_store.controller(late_order[i])
                                    &&& *final(c) == late_after.controller(late_order[i])
                                    &&& *p == late_states[i]
                                    &&& *final(p) == late_states[i + 1]
                                    &&& #[trigger] call_ensures(K::on_late_update, (c, id, p), ())
                                }
                        } else {
                            late_states[i + 1] == late_states[i]
                        }
                    &&& Self::committed(
                        &late_passed,
                        final(self),
                        &late_states[late_order.len() as int],
                    )
                },
    {
        let ghost store = self.controller_storage;
        let mut ctx = self.open();
        let ghost opened = ctx;
        self.controller_storage.invoke_on_update(&mut ctx);
        let ghost passed = *self;
        let ghost after = self.controller_storage;
        let ghost left = ctx;
        let ghost (order, states) = choose|order: Seq<u32>, states: Seq<ContextProxy<C, E, K>>|
            {
                &&& #[trigger] pass_runs(order, store@.on_update, states, opened, left)
                &&& forall|i: int|
                    #![trigger order[i]]
                    0 <= i < order.len() ==> if store@.attached.contains(order[i]) {
                        exists|c: &mut K, p: &mut ContextProxy<C, E, K>, id: ObjectId|
                            {
                                &&& id@ == order[i]
                                &&& *c == store.controller(order[i])
                                &&& *final(c) == after.controller(order[i])
                                &&& *p == states[i]
                                &&& *final(p) == states[i + 1]
                                &&& #[trigger] call_ensures(K::on_update, (c, id, p), ())
                            }
                    } else {
                        states[i + 1] == states[i]
                    }
            };
        self.handle_context_result(ctx);
        let ghost mid = *self;
        proof {
            assert(Self::committed(&passed, &mid, &left));
            assert(Self::pass_made(old(self), &passed, order, states));
        }

        let ghost late_store = self.controller_storage;
        let mut ctx = self.open();
        let ghost late_opened = ctx;
        self.controller_storage.invoke_on_late_update(&mut ctx);
        let ghost late_passed = *self;
        let ghost late_after = self.controller_storage;
        let ghost late_left = ctx;
        let ghost (late_order, late_states) = choose|
            late_order: Seq<u32>,
            late_states: Seq<ContextProxy<C, E, K>>,
        |
            {
                &&& #[trigger] pass_runs(
                    late_order,
                    late_store@.on_late_update,
                    late_states,
                    late_opened,
                    late_left,
                )
                &&& forall|i: int|
                    #![trigger late_order[i]]
                    0 <= i < late_order.len() ==> if late_store@.attached.contains(late_order[i]) {
                        exists|c: &mut K, p: &mut ContextProxy<C, E, K>, id: ObjectId|
                            {
                                &&& id@ == late_order[i]
                                &&& *c == late_store.controller(late_order[i])
                                &&& *final(c) == late_after.controller(late_order[i])
                                &&& *p == late_states[i]
                                &&& *final(p) == late_states[i + 1]
                                &&& #[trigger] call_ensures(K::on_late_update, (c, id, p), ())
                            }
                    } else {
                        late_states[i + 1] == late_states[i]
                    }
            };
        self.handle_context_result(ctx);
        proof {
            assert(Self::committed(&late_passed, self, &late_left));
            assert(Self::late_pass_made(&mid, &late_passed, late_order, late_states));
        }
    }

    /// A pass over `subscribers` of the runtime `before` left the runtime
    /// `passed`: `order` lists the subscribers, each once; `states`
    /// holds one transaction more than there are subscribers, the first
    /// of them the one that `before` opens; and `passed` has the
    /// controllers and subscriptions of `before`, the controllers of
    /// objects that are not among the subscribers unchanged.
    pub open spec fn passed_over(
        before: &Self,
        passed: &Self,
        order: Seq<u32>,
        subscribers: Set<u32>,
        states: Seq<ContextProxy<C, E, K>>,
    ) -> bool {
        &&& pass_runs(order, subscribers, states, states[0], states[order.len() as int])
        &&& before.opens(&states[0])
        &&& passed.controllers() == before.controllers()
        &&& passed.subscriptions() == before.subscriptions()
        &&& passed.controller_store().unlisted_as_in(&before.controller_store(), subscribers)
    }

    /// The update pass of `before` left `passed`, see `passed_over`.
    pub open spec fn pass_made(
        before: &Self,
        passed: &Self,
        order: Seq<u32>,
        states: Seq<ContextProxy<C, E, K>>,
    ) -> bool {
        Self::passed_over(before, passed, order, before.controllers().on_update, states)
    }

    /// The late-update pass of `before` left `passed`, see `passed_over`.
    pub open spec fn late_pass_made(
        before: &Self,
        passed: &Self,
        order: Seq<u32>,
        states: Seq<ContextProxy<C, E, K>>,
    ) -> bool {
        Self::passed_over(before, passed, order, before.controllers().on_late_update, states)
    }

    /// The controller store.
    pub closed spec fn controller_store(&self) -> ControllerStorage<K> {
        self.controller_storage
    }

    /// `ctx` is the transaction that this runtime opens: well formed,
    /// with the counters and the objects of the runtime and nothing
    /// queued.
    pub open spec fn opens(&self, ctx: &ContextProxy<C, E, K>) -> bool {
        &&& ctx.wf()
        &&& ctx.spec_next_object_id() == self.spec_next_object_id()
        &&& ctx.spec_next_component_id() == self.spec_next_component_id()
        &&& ctx.storage() == self.objects()
        &&& ctx.actions() == Seq::<ActionView<E, K>>::empty()
    }

    /// Opens a transaction on the counters and the object store. Until
    /// the transaction is handed back the runtime holds an empty store.
    fn open(&mut self) -> (ctx: ContextProxy<C, E, K>)
        requires
            old(self).wf(),
        ensures
            old(self).opens(&ctx),
            final(self).event_receiver_storage == old(self).event_receiver_storage,
            final(self).controller_storage == old(self).controller_storage,
            final(self).event_receiver_storage.wf(),
            final(self).controller_storage.wf(),
            final(self).controller_storage@.wf(),
    {
        let mut object_storage = ObjectStorage::new();
        std::mem::swap(&mut self.object_storage, &mut object_storage);
        ContextProxy::new(self.next_object_id, self.next_component_id, object_storage)
    }

    /// The object named `id`, if it is stored.
    pub fn find_object_by_id(&self, id: ObjectId) -> (r: Option<&Object<C>>)
        requires
            self.wf(),
        ensures
            match r {
                Some(object) => {
                    &&& self.objects().objects.contains_key(id@)
                    &&& object.id() == id
                    &&& object@ == self.objects().objects[id@]
                },
                None => !self.objects().objects.contains_key(id@),
            },
    {
        self.object_storage.get(id)
    }

    /// Counters, controllers and subscriptions are as in `before`.
    pub open spec fn same_but_objects(&self, before: &Self) -> bool {
        &&& self.spec_next_object_id() == before.spec_next_object_id()
        &&& self.spec_next_component_id() == before.spec_next_component_id()
        &&& self.controllers() == before.controllers()
        &&& self.subscriptions() == before.subscriptions()
    }

    /// The object named `id`, if it is stored, for changing in place.
    /// Nothing but that object changes. The runtime is well formed again
    /// where the object kept its identifier and, but for payloads, its
    /// components.
    pub fn find_object_by_id_mut(&mut self, id: ObjectId) -> (r: Option<&mut Object<C>>)
        requires
            old(self).wf(),
        ensures
            final(self).same_but_objects(old(self)),
            match r {
                Some(object) => {
                    &&& old(self).objects().objects.contains_key(id@)
                    &&& object.id() == id
                    &&& object@ == old(self).objects().objects[id@]
                    &&& final(self).objects() == old(self).objects().replace(
                        id@,
                        (*final(object))@,
                    )
                    &&& (*final(object)).id() == id && same_shape(object@, (*final(object))@)
                        ==> final(self).wf()
                },
                None => {
                    &&& !old(self).objects().objects.contains_key(id@)
                    &&& final(self).objects() == old(self).objects()
                    &&& final(self).wf()
                },
            },
    {
        let ghost before = *self;
        let r = self.object_storage.get_mut(id);
        proof {
            let after = Context {
                next_object_id: self.next_object_id,
                next_component_id: self.next_component_id,
                object_storage: after_borrow(self.object_storage),
                event_receiver_storage: self.event_receiver_storage,
                controller_storage: self.controller_storage,
                event_payload: self.event_payload,
            };
            if r is Some {
                assert(after.objects().objects.dom() =~= before.objects().objects.dom());
                assert forall|other: u32| #[trigger]
                    after.object_storage@.objects.contains_key(other) implies other
                    < after.next_object_id || after.next_object_id == u32::MAX by {
                    assert(before.object_storage@.objects.contains_key(other));
                }
            }
        }
        r
    }

    /// A transaction that does nothing but `ContextProxy::create_object`.
    pub fn create_object(&mut self) -> (id: ObjectId)
        requires
            old(self).wf(),
        ensures
            final(self).wf(),
            final(self).created(old(self), id, Seq::empty()),
    {
        let mut ctx = self.open();
        let id = ctx.create_object();
        self.handle_context_result(ctx);
        id
    }

    /// `id` was handed out and an object that holds `components` was
    /// stored under it; nothing else changed. Unless the counter has
    /// reached its end, no object was stored under `id` before.
    pub open spec fn created(
        &self,
        before: &Self,
        id: ObjectId,
        components: Seq<AnyComponent<C>>,
    ) -> bool {
        &&& id@ == before.spec_next_object_id()
        &&& self.spec_next_object_id() == advance(before.spec_next_object_id())
        &&& self.spec_next_component_id() == before.spec_next_component_id()
        &&& self.controllers() == before.controllers()
        &&& self.subscriptions() == before.subscriptions()
        &&& self.objects() == before.objects().insert(id@, components)
        &&& before.spec_next_object_id() < u32::MAX ==> !before.objects().objects.contains_key(id@)
    }

    /// A transaction that does nothing but
    /// `ContextProxy::create_object_with_components`.
    pub fn create_object_with_components(&mut self, components: Vec<AnyComponent<C>>) -> (id:
        ObjectId)
        requires
            old(self).wf(),
        ensures
            final(self).wf(),
            final(self).created(old(self), id, components@),
    {
        let mut ctx = self.open();
        let id = ctx.create_object_with_components(components);
        self.handle_context_result(ctx);
        id
    }

    /// A component was added to the object named `object_id`, with
    /// `component_id`, handed out for it, as its identifier, `type_id` as
    /// its type and `payload` as its payload; nothing else changed.
    pub open spec fn added(
        &self,
        before: &Self,
        object_id: ObjectId,
        component_id: ComponentId,
        type_id: u64,
        payload: C,
    ) -> bool {
        &&& component_id@ == before.spec_next_component_id()
        &&& self.spec_next_component_id() == advance(before.spec_next_component_id())
        &&& self.spec_next_object_id() == before.spec_next_object_id()
        &&& self.controllers() == before.controllers()
        &&& self.subscriptions() == before.subscriptions()
        &&& self.objects() == before.objects().add_component(
            object_id@,
            AnyComponent::with_type(component_id, type_id, payload),
        )
    }

    /// A transaction that does nothing but `ContextProxy::add_component`.
    /// Returns the identifier of the new component, or `None` where the
    /// object is not stored.
    pub fn add_component(&mut self, object_id: ObjectId, component: C) -> (r: Option<
        ComponentId,
    >) where C: Component
        requires
            old(self).wf(),
        ensures
            final(self).wf(),
            match r {
                Some(component_id) => {
                    &&& old(self).objects().objects.contains_key(object_id@)
                    &&& exists|type_id: u64|
                        {
                            &&& call_ensures(C::type_tag, (&component,), type_id)
                            &&& #[trigger] final(self).added(
                                old(self),
                                object_id,
                                component_id,
                                type_id,
                                component,
                            )
                        }
                },
                None => {
                    &&& !old(self).objects().objects.contains_key(object_id@)
                    &&& final(self).same_but_objects(old(self))
                    &&& final(self).objects() == old(self).objects()
                },
            },
    {
        let mut ctx = self.open();
        let ghost opened = ctx;
        let r = ctx.add_component(object_id, component);
        let ghost left = ctx;
        self.handle_context_result(ctx);
        proof {
            if r is Some {
                let type_id = choose|type_id: u64|
                    call_ensures(C::type_tag, (&component,), type_id) && #[trigger] left.added(
                        &opened,
                        object_id,
                        r->0,
                        type_id,
                        component,
                    );
                assert(self.added(old(self), object_id, r->0, type_id, component));
            }
        }
        r
    }

    /// A transaction that does nothing but `ContextProxy::remove_component`.
    pub fn remove_component(&mut self, object_id: ObjectId, component_id: ComponentId)
        requires
            old(self).wf(),
        ensures
            final(self).wf(),
            final(self).same_but_objects(old(self)),
            final(self).objects() == old(self).objects().remove_component(
                object_id@,
                component_id,
            ),
    {
        let mut ctx = self.open();
        ctx.remove_component(object_id, component_id);
        self.handle_context_result(ctx);
    }

    /// A transaction that does nothing but `ContextProxy::remove_object`:
    /// the object is unsubscribed from every event, its controller is
    /// detached, what the controller asks for on the way is applied, and
    /// then the object is deleted. `transacted` says how the runtime
    /// gets there; where the object has no controller, the result is
    /// spelled out.
    pub fn remove_object(&mut self, object_id: ObjectId)
        requires
            old(self).wf(),
        ensures
            final(self).wf(),
            Self::transacted(
                old(self),
                final(self),
                ActionView::RemoveObject { object_id: object_id@ },
            ),
            !final(self).objects().objects.contains_key(object_id@),
            !old(self).controllers().attached.contains(object_id@) ==> {
                &&& final(self).spec_next_object_id() == old(self).spec_next_object_id()
                &&& final(self).spec_next_component_id() == old(self).spec_next_component_id()
                &&& final(self).objects() == old(self).objects().remove(object_id@)
                &&& final(self).controllers() == old(self).controllers().detach(object_id@)
                &&& final(self).subscriptions() == without_object(
                    old(self).subscriptions(),
                    object_id@,
                )
            },
    {
        let ghost queue = seq![ActionView::<E, K>::RemoveObject { object_id: object_id@ }];
        let mut ctx = self.open();
        let ghost first = ctx;
        ctx.remove_object(object_id);
        proof {
            assert(ctx.actions() =~= queue);
        }
        let ghost opened = *self;
        let ghost left = ctx;
        self.handle_context_result(ctx);
        proof {
            Self::lemma_drained_from(old(self), &opened, self, &left);
            assert(Self::committed(old(self), self, &left));
            assert(left.queued(&first, queue[0]));
            assert(Self::transacted(old(self), self, queue[0]));
            Self::law_removed_object_is_gone(old(self), self, queue, 0);
            let start = old(self).structure(Seq::empty());
            start.lemma_single(queue[0]);
            if !old(self).controllers().attached.contains(object_id@) {
                let removed = start.apply_all(queue).removed;
                assert(removed =~= seq![object_id@]);
                assert(removed.drop_last() =~= Seq::<u32>::empty());
                assert(old(self).objects().remove_all(removed.drop_last()) == old(self).objects());
                assert(Self::restructured_by(old(self), self, queue));
            }
        }
    }

    /// A transaction that does nothing but
    /// `ContextProxy::attach_controller`: a controller that is attached
    /// to the object already is told `on_destroy`, the new one is told
    /// `on_ready` and stored, and what the two ask for is applied.
    /// `transacted` says how the runtime gets there, and `law_applied`
    /// what the step that attaches the controller is.
    pub fn attach_controller(&mut self, object_id: ObjectId, controller: K)
        requires
            old(self).wf(),
        ensures
            final(self).wf(),
            Self::transacted(
                old(self),
                final(self),
                ActionView::AttachController { object_id: object_id@, controller },
            ),
    {
        let ghost queue = seq![
            ActionView::<E, K>::AttachController { object_id: object_id@, controller },
        ];
        let mut ctx = self.open();
        let ghost first = ctx;
        ctx.attach_controller(object_id, controller);
        proof {
            assert(ctx.actions() =~= queue);
        }
        let ghost opened = *self;
        let ghost left = ctx;
        self.handle_context_result(ctx);
        proof {
            Self::lemma_drained_from(old(self), &opened, self, &left);
            assert(Self::committed(old(self), self, &left));
            assert(left.queued(&first, queue[0]));
            assert(Self::transacted(old(self), self, queue[0]));
        }
    }

    /// A transaction that does nothing but
    /// `ContextProxy::detach_controller`: the object is unsubscribed from
    /// every event and from both passes, its controller, if it has one,
    /// is told `on_destroy` and dropped, and what it asks for is applied.
    /// `transacted` says how the runtime gets there; where the object
    /// has no controller, the result is spelled out.
    pub fn detach_controller(&mut self, object_id: ObjectId)
        requires
            old(self).wf(),
        ensures
            final(self).wf(),
            Self::transacted(
                old(self),
                final(self),
                ActionView::DetachController { object_id: object_id@ },
            ),
            !old(self).controllers().attached.contains(object_id@) ==> {
                &&& final(self).spec_next_object_id() == old(self).spec_next_object_id()
                &&& final(self).spec_next_component_id() == old(self).spec_next_component_id()
                &&& final(self).objects() == old(self).objects()
                &&& final(self).controllers() == old(self).controllers().detach(object_id@)
                &&& final(self).subscriptions() == without_object(
                    old(self).subscriptions(),
                    object_id@,
                )
            },
    {
        let ghost queue = seq![ActionView::<E, K>::DetachController { object_id: object_id@ }];
        let mut ctx = self.open();
        let ghost first = ctx;
        ctx.detach_controller(object_id);
        proof {
            assert(ctx.actions() =~= queue);
        }
        let ghost opened = *self;
        let ghost left = ctx;
        self.handle_context_result(ctx);
        proof {
            Self::lemma_drained_from(old(self), &opened, self, &left);
            assert(Self::committed(old(self), self, &left));
            assert(left.queued(&first, queue[0]));
            assert(Self::transacted(old(self), self, queue[0]));
            let start = old(self).structure(Seq::empty());
            start.lemma_single(queue[0]);
            if !old(self).controllers().attached.contains(object_id@) {
                assert(start.apply_all(queue).removed =~= Seq::<u32>::empty());
                assert(Self::restructured_by(old(self), self, queue));
            }
        }
    }

    /// Every pass of a drain starts where the passes before it ended:
    /// it finds changes queued in the transaction that was left there,
    /// opens a transaction that carries on from that one, and applies
    /// those changes in order. So no pass follows one that left nothing
    /// queued.
    pub proof fn law_pass_follows(
        start: DrainState<C, E, K>,
        passes: Seq<Seq<DrainState<C, E, K>>>,
        k: int,
    )
        requires
            Self::passes_follow(start, passes),
            0 <= k < passes.len(),
        ensures
            Self::ended(start, passes.take(k)).ctx.actions().len() > 0,
            Self::applies_in_order(
                passes[k],
                Self::ended(start, passes.take(k)).ctx.actions(),
            ),
            passes[k][0].reopens(Self::ended(start, passes.take(k))),
        decreases passes.len(),
    {
        if k == passes.len() - 1 {
            assert(passes.take(k) =~= passes.drop_last());
        } else {
            Self::law_pass_follows(start, passes.drop_last(), k);
            assert(passes.drop_last().take(k) =~= passes.take(k));
        }
    }

    /// What `applied` says of a change, kind by kind.
    ///
    /// The controllers attached, the subscriptions and the objects noted
    /// for deletion change as `Structure::apply` says. A change that calls
    /// no controller leaves the transaction and every controller as they
    /// are. Removing an object and detaching a controller take the
    /// controller store and the transaction through
    /// `ControllerStorage::detach_controller`, attaching a controller
    /// takes them through `ControllerStorage::attach_controller`, and
    /// sending an event takes them through `EventReceiverStorage::emit`
    /// on the event store as it stands: whatever those functions ensure
    /// holds of the step.
    pub proof fn law_applied(
        s0: DrainState<C, E, K>,
        action: ActionView<E, K>,
        s1: DrainState<C, E, K>,
    )
        requires
            Self::applied(s0, action, s1),
        ensures
            s1.structure() == s0.structure().apply(action),
            s1.ctx.wf(),
            !s0.structure().calls_back(action) ==> {
                &&& s1.ctx == s0.ctx
                &&& s1.controllers.same_controllers(&s0.controllers)
            },
            action is RemoveObject ==> (exists|
                s: &mut ControllerStorage<K>,
                p: &mut ContextProxy<C, E, K>,
                id: ObjectId,
            |
                {
                    &&& id@ == action->RemoveObject_object_id
                    &&& *s == s0.controllers
                    &&& *final(s) == s1.controllers
                    &&& *p == s0.ctx
                    &&& *final(p) == s1.ctx
                    &&& #[trigger] call_ensures(
                        ControllerStorage::<K>::detach_controller::<C, E>,
                        (s, id, p),
                        (),
                    )
                }),
            action is DetachController ==> (exists|
                s: &mut ControllerStorage<K>,
                p: &mut ContextProxy<C, E, K>,
                id: ObjectId,
            |
                {
                    &&& id@ == action->DetachController_object_id
                    &&& *s == s0.controllers
                    &&& *final(s) == s1.controllers
                    &&& *p == s0.ctx
                    &&& *final(p) == s1.ctx
                    &&& #[trigger] call_ensures(
                        ControllerStorage::<K>::detach_controller::<C, E>,
                        (s, id, p),
                        (),
                    )
                }),
            action is AttachController ==> (exists|
                s: &mut ControllerStorage<K>,
                p: &mut ContextProxy<C, E, K>,
                id: ObjectId,
            |
                {
                    &&& id@ == action->AttachController_object_id
                    &&& *s == s0.controllers
                    &&& *final(s) == s1.controllers
                    &&& *p == s0.ctx
                    &&& *final(p) == s1.ctx
                    &&& #[trigger] call_ensures(
                        ControllerStorage::<K>::attach_controller::<C, E>,
                        (s, id, action->AttachController_controller, p),
                        (),
                    )
                }),
            action is EmitEvent ==> (exists|
                s: &mut ControllerStorage<K>,
                p: &mut ContextProxy<C, E, K>,
                name: &str,
            |
                {
                    &&& name@ == action->EmitEvent_event
                    &&& *s == s0.controllers
                    &&& *final(s) == s1.controllers
                    &&& *p == s0.ctx
                    &&& *final(p) == s1.ctx
                    &&& s1.events == s0.events
                    &&& #[trigger] call_ensures(
                        EventReceiverStorage::emit::<C, E, K>,
                        (&s0.events, name, &action->EmitEvent_param, p, s),
                        (),
                    )
                }),
    {
        let (me, item, p, noted, step) = choose|
            me: &mut Self,
            item: ContextActionItem<E, K>,
            p: &mut ContextProxy<C, E, K>,
            noted: &mut Vec<ObjectId>,
            step: Ghost<(DrainState<C, E, K>, DrainState<C, E, K>)>,
        |
            {
                &&& item@ == action
                &&& step@ == (s0, s1)
                &&& #[trigger] call_ensures(Self::apply_action, (me, item, p, noted), step)
            };
        assert(s0.controllers == me.controller_storage);
        assert(s1.controllers == final(me).controller_storage);
        assert(s0.ctx == *p);
        assert(s1.ctx == *final(p));
        match item {
            ContextActionItem::RemoveObject { object_id } => {
                assert(action == ActionView::<E, K>::RemoveObject { object_id: object_id@ });
                assert(exists|
                        s: &mut ControllerStorage<K>,
                        p: &mut ContextProxy<C, E, K>,
                        id: ObjectId,
                    |
                        {
                            &&& id@ == action->RemoveObject_object_id
                            &&& *s == s0.controllers
                            &&& *final(s) == s1.controllers
                            &&& *p == s0.ctx
                            &&& *final(p) == s1.ctx
                            &&& #[trigger] call_ensures(
                                ControllerStorage::<K>::detach_controller::<C, E>,
                                (s, id, p),
                                (),
                            )
                        });
            },
            ContextActionItem::DetachController { object_id } => {
                assert(action == ActionView::<E, K>::DetachController { object_id: object_id@ });
                assert(exists|
                        s: &mut ControllerStorage<K>,
                        p: &mut ContextProxy<C, E, K>,
                        id: ObjectId,
                    |
                        {
                            &&& id@ == action->DetachController_object_id
                            &&& *s == s0.controllers
                            &&& *final(s) == s1.controllers
                            &&& *p == s0.ctx
                            &&& *final(p) == s1.ctx
                            &&& #[trigger] call_ensures(
                                ControllerStorage::<K>::detach_controller::<C, E>,
                                (s, id, p),
                                (),
                            )
                        });
            },
            ContextActionItem::AttachController { object_id, controller } => {
                assert(action == ActionView::<E, K>::AttachController {
                    object_id: object_id@,
                    controller,
                });
                let (s, q) = choose|s: &mut ControllerStorage<K>, q: &mut ContextProxy<C, E, K>|
                    {
                        &&& *s == me.controller_storage
                        &&& *final(s) == final(me).controller_storage
                        &&& *q == *p
                        &&& *final(q) == *final(p)
                        &&& #[trigger] call_ensures(
                            ControllerStorage::<K>::attach_controller::<C, E>,
                            (s, object_id, controller, q),
                            (),
                        )
                    };
                assert(call_ensures(
                    ControllerStorage::<K>::attach_controller::<C, E>,
                    (s, object_id, action->AttachController_controller, q),
                    (),
                ));
                assert(exists|
                        s: &mut ControllerStorage<K>,
                        p: &mut ContextProxy<C, E, K>,
                        id: ObjectId,
                    |
                        {
                            &&& id@ == action->AttachController_object_id
                            &&& *s == s0.controllers
                            &&& *final(s) == s1.controllers
                            &&& *p == s0.ctx
                            &&& *final(p) == s1.ctx
                            &&& #[trigger] call_ensures(
                                ControllerStorage::<K>::attach_controller::<C, E>,
                                (s, id, action->AttachController_controller, p),
                                (),
                            )
                        });
            },
            ContextActionItem::EmitEvent { event, param } => {
                assert(action == ActionView::<E, K>::EmitEvent { event: event@, param });
                assert(s0.events == me.event_receiver_storage);
                let (s, q, name) = choose|
                    s: &mut ControllerStorage<K>,
                    q: &mut ContextProxy<C, E, K>,
                    name: &str,
                |
                    {
                        &&& name@ == event@
                        &&& *s == me.controller_storage
                        &&& *final(s) == final(me).controller_storage
                        &&& *q == *p
                        &&& *final(q) == *final(p)
                        &&& final(me).event_receiver_storage == me.event_receiver_storage
                        &&& #[trigger] call_ensures(
                            EventReceiverStorage::emit::<C, E, K>,
                            (&me.event_receiver_storage, name, &param, q, s),
                            (),
                        )
                    };
                assert(call_ensures(
                    EventReceiverStorage::emit::<C, E, K>,
                    (&s0.events, name, &action->EmitEvent_param, q, s),
                    (),
                ));
                assert(exists|
                        s: &mut ControllerStorage<K>,
                        p: &mut ContextProxy<C, E, K>,
                        name: &str,
                    |
                        {
                            &&& name@ == action->EmitEvent_event
                            &&& *s == s0.controllers
                            &&& *final(s) == s1.controllers
                            &&& *p == s0.ctx
                            &&& *final(p) == s1.ctx
                            &&& s1.events == s0.events
                            &&& #[trigger] call_ensures(
                                EventReceiverStorage::emit::<C, E, K>,
                                (&s0.events, name, &action->EmitEvent_param, p, s),
                                (),
                            )
                        });
            },
            _ => {},
        }
    }

    /// A drain goes by the controller store and the subscriptions it
    /// starts from, whatever else the runtime holds at that time.
    proof fn lemma_drained_from(
        before: &Self,
        opened: &Self,
        after: &Self,
        ctx: &ContextProxy<C, E, K>,
    )
        requires
            opened.controller_storage == before.controller_storage,
            opened.event_receiver_storage == before.event_receiver_storage,
            Self::restructured(opened, after, ctx.actions()),
            Self::drained_to(opened, after, ctx),
        ensures
            Self::restructured(before, after, ctx.actions()),
            Self::drained_to(before, after, ctx),
            before.structure(Seq::empty()) == opened.structure(Seq::empty()),
    {
        let queue = ctx.actions();
        let all = choose|all: Seq<ActionView<E, K>>|
            {
                &&& queue.is_prefix_of(all)
                &&& opened.structure(Seq::empty()).quiet(queue) ==> all == queue
                &&& #[trigger] Self::restructured_by(opened, after, all)
            };
        assert(before.structure(Seq::empty()) == opened.structure(Seq::empty()));
        assert(Self::restructured_by(before, after, all));
        let passes = choose|passes: Seq<Seq<DrainState<C, E, K>>>| #[trigger]
            Self::drained_through(opened, after, ctx, passes);
        assert(before.drain_state(*ctx, Seq::empty()) == opened.drain_state(*ctx, Seq::empty()));
        assert(Self::drained_through(before, after, ctx, passes));
    }

    /// An object whose removal is in the queue is not stored once the
    /// queue is drained.
    pub proof fn law_removed_object_is_gone(
        before: &Self,
        after: &Self,
        queue: Seq<ActionView<E, K>>,
        at: int,
    )
        requires
            Self::restructured(before, after, queue),
            0 <= at < queue.len(),
            queue[at] is RemoveObject,
        ensures
            !after.objects().objects.contains_key(queue[at]->RemoveObject_object_id),
    {
        let all = choose|all: Seq<ActionView<E, K>>|
            {
                &&& queue.is_prefix_of(all)
                &&& before.structure(Seq::empty()).quiet(queue) ==> all == queue
                &&& #[trigger] Self::restructured_by(before, after, all)
            };
        let start = before.structure(Seq::empty());
        assert(all[at] == queue[at]);
        start.lemma_removal_is_noted(all, at);
        let outcome = start.apply_all(all);
        let i = choose|i: int|
            0 <= i < outcome.removed.len() && outcome.removed[i]
                == queue[at]->RemoveObject_object_id;
        assert(!after.objects().objects.contains_key(outcome.removed[i]));
    }
}

} // verus!
