//! The controllers, one per object at most, and who takes part in the
//! two passes of a frame.

use vstd::prelude::*;
use std::collections::HashMap;
use std::collections::HashSet;
use crate::context_proxy::ContextProxy;
use crate::controller::Controller;
use crate::object_id::ObjectId;
use vstd::std_specs::hash::axiom_spec_hash_keys_iter;
use vstd::std_specs::iter::IteratorSpec;

verus! {

/// What a controller store holds, as mathematics: the objects with a
/// controller attached, and the subscribers of the two passes.
pub struct ControllerStorageView {
    pub attached: Set<u32>,
    pub on_update: Set<u32>,
    pub on_late_update: Set<u32>,
}

impl ControllerStorageView {
    /// No controller, no subscriber.
    pub open spec fn empty() -> Self {
        ControllerStorageView {
            attached: Set::empty(),
            on_update: Set::empty(),
            on_late_update: Set::empty(),
        }
    }

    /// Only objects with a controller are subscribed.
    pub open spec fn wf(self) -> bool {
        &&& self.on_update.subset_of(self.attached)
        &&& self.on_late_update.subset_of(self.attached)
    }

    /// After a controller was attached to `id`, in place of the one that
    /// was there, if any. Subscriptions stay.
    pub open spec fn attach(self, id: u32) -> Self {
        ControllerStorageView { attached: self.attached.insert(id), ..self }
    }

    /// After the controller of `id`, if any, was detached: `id` has no
    /// controller and no subscription.
    pub open spec fn detach(self, id: u32) -> Self {
        ControllerStorageView {
            attached: self.attached.remove(id),
            on_update: self.on_update.remove(id),
            on_late_update: self.on_late_update.remove(id),
        }
    }

    /// After `id` asked for the update pass: subscribed where it has a
    /// controller, ignored where it has none.
    pub open spec fn listen_on_update(self, id: u32) -> Self {
        if self.attached.contains(id) {
            ControllerStorageView { on_update: self.on_update.insert(id), ..self }
        } else {
            self
        }
    }

    pub open spec fn unlisten_on_update(self, id: u32) -> Self {
        ControllerStorageView { on_update: self.on_update.remove(id), ..self }
    }

    /// After `id` asked for the late-update pass: subscribed where it has
    /// a controller, ignored where it has none.
    pub open spec fn listen_on_late_update(self, id: u32) -> Self {
        if self.attached.contains(id) {
            ControllerStorageView { on_late_update: self.on_late_update.insert(id), ..self }
        } else {
            self
        }
    }

    pub open spec fn unlisten_on_late_update(self, id: u32) -> Self {
        ControllerStorageView { on_late_update: self.on_late_update.remove(id), ..self }
    }

    /// Whatever is done, only objects with a controller are subscribed.
    pub proof fn law_subscribers_have_controllers(self, id: u32)
        requires
            self.wf(),
        ensures
            self.attach(id).wf(),
            self.detach(id).wf(),
            self.listen_on_update(id).wf(),
            self.unlisten_on_update(id).wf(),
            self.listen_on_late_update(id).wf(),
            self.unlisten_on_late_update(id).wf(),
    {
    }
}

/// `order` lists the members of `subscribers`, each once, and `states`
/// holds what a transaction was before the first of them, after each,
/// and so at the end: it starts as `first` and ends as `last`.
pub open spec fn pass_runs<T>(
    order: Seq<u32>,
    subscribers: Set<u32>,
    states: Seq<T>,
    first: T,
    last: T,
) -> bool {
    &&& order.no_duplicates()
    &&& order.to_set() == subscribers
    &&& states.len() == order.len() + 1
    &&& states[0] == first
    &&& states[order.len() as int] == last
}

/// Owns the controllers and the subscriptions to the two passes.
pub struct ControllerStorage<K> {
    controllers: HashMap<u32, K>,
    on_update_hooked_controllers: HashSet<u32>,
    on_late_update_hooked_controllers: HashSet<u32>,
}

impl<K> View for ControllerStorage<K> {
    type V = ControllerStorageView;

    closed spec fn view(&self) -> ControllerStorageView {
        ControllerStorageView {
            attached: self.controllers@.dom(),
            on_update: self.on_update_hooked_controllers@,
            on_late_update: self.on_late_update_hooked_controllers@,
        }
    }
}

impl<K> ControllerStorage<K> {
    /// The controller attached to `id`, where there is one.
    pub closed spec fn controller(&self, id: u32) -> K {
        self.controllers@[id]
    }

    /// The controllers of the objects other than `id` are those of `before`.
    pub open spec fn others_as_in(&self, before: &Self, id: u32) -> bool {
        forall|other: u32|
            other != id && before@.attached.contains(other) ==> #[trigger] self.controller(other)
                == before.controller(other)
    }

    /// The controllers of the objects that are not among `listed` are
    /// those of `before`.
    pub open spec fn unlisted_as_in(&self, before: &Self, listed: Set<u32>) -> bool {
        forall|id: u32|
            before@.attached.contains(id) && !listed.contains(id) ==> #[trigger] self.controller(id)
                == before.controller(id)
    }

    /// Every controller is as in `before`.
    pub open spec fn same_controllers(&self, before: &Self) -> bool {
        forall|id: u32| #[trigger] self.controller(id) == before.controller(id)
    }

    /// No subscriber of a pass has the number zero, which no identifier
    /// has.
    pub closed spec fn wf(&self) -> bool {
        &&& !self.on_update_hooked_controllers@.contains(0)
        &&& !self.on_late_update_hooked_controllers@.contains(0)
    }

    /// A store without controllers.
    pub fn new() -> (r: Self)
        ensures
            r.wf(),
            r@ == ControllerStorageView::empty(),
    {
        let r = Self {
            controllers: HashMap::new(),
            on_update_hooked_controllers: HashSet::new(),
            on_late_update_hooked_controllers: HashSet::new(),
        };
        proof {
            assert(r@.attached =~= Set::<u32>::empty());
        }
        r
    }

    /// Tells the controller of `id`, if it has one, that `event` was sent
    /// with `param`. The controller is out of the store while it runs.
    ///
    /// Where `id` has a controller, that controller and the transaction
    /// end as its `on_event` leaves them when it is called with `event`,
    /// `param`, `id` and the transaction as it stands. Where it has none,
    /// nothing changes. The other controllers stay as they are.
    pub fn send_event<C, E>(
        &mut self,
        id: ObjectId,
        event: &str,
        param: &E,
        ctx: &mut ContextProxy<C, E, K>,
    ) where K: Controller<C, E>
        requires
            old(self).wf(),
            old(ctx).wf(),
        ensures
            final(self).wf(),
            final(ctx).wf(),
            final(self)@ == old(self)@,
            final(self).others_as_in(old(self), id@),
            !old(self)@.attached.contains(id@) ==> {
                &&& *final(ctx) == *old(ctx)
                &&& final(self).same_controllers(old(self))
            },
            old(self)@.attached.contains(id@) ==> exists|c: &mut K, p: &mut ContextProxy<C, E, K>|
                {
                    &&& *c == old(self).controller(id@)
                    &&& *final(c) == final(self).controller(id@)
                    &&& *p == *old(ctx)
                    &&& *final(p) == *final(ctx)
                    &&& #[trigger] call_ensures(K::on_event, (c, event, param, id, p), ())
                },
    {
        match self.controllers.remove(&id.get()) {
            Some(controller) => {
                let mut controller = controller;
                controller.on_event(event, param, id, ctx);
                self.controllers.insert(id.get(), controller);
                proof {
                    assert(self@.attached =~= old(self)@.attached);
                }
            },
            None => {
                proof {
                    assert(self@.attached =~= old(self)@.attached);
                    assert(self.controllers@ =~= old(self).controllers@);
                }
            },
        }
    }

    /// Attaches `controller` to `id`. A controller that is attached
    /// there already is told `on_destroy` and dropped first; then the new
    /// one is told `on_ready`. Subscriptions stay as they are.
    ///
    /// Where `id` has a controller, the transaction goes through that
    /// controller's `on_destroy` first; the new controller's `on_ready`
    /// starts from what that left, or from the transaction as it stands
    /// where there was no controller. The controller stored for `id` and
    /// the transaction end as `on_ready` leaves them. The other
    /// controllers stay as they are.
    pub fn attach_controller<C, E>(
        &mut self,
        id: ObjectId,
        controller: K,
        ctx: &mut ContextProxy<C, E, K>,
    ) where K: Controller<C, E>
        requires
            old(self).wf(),
            old(ctx).wf(),
        ensures
            final(self).wf(),
            final(ctx).wf(),
            final(self)@ == old(self)@.attach(id@),
            final(self).others_as_in(old(self), id@),
            old(self)@.attached.contains(id@) ==> exists|
                prev: &mut K,
                q: &mut ContextProxy<C, E, K>,
                c: &mut K,
                p: &mut ContextProxy<C, E, K>,
            |
                #![trigger
                    call_ensures(K::on_destroy, (prev, id, q), ()),
                    call_ensures(K::on_ready, (c, id, p), ())
                ]
                {
                    &&& *prev == old(self).controller(id@)
                    &&& *q == *old(ctx)
                    &&& call_ensures(K::on_destroy, (prev, id, q), ())
                    &&& *c == controller
                    &&& *final(c) == final(self).controller(id@)
                    &&& *p == *final(q)
                    &&& *final(p) == *final(ctx)
                    &&& call_ensures(K::on_ready, (c, id, p), ())
                },
            !old(self)@.attached.contains(id@) ==> exists|c: &mut K, p: &mut ContextProxy<C, E, K>|
                {
                    &&& *c == controller
                    &&& *final(c) == final(self).controller(id@)
                    &&& *p == *old(ctx)
                    &&& *final(p) == *final(ctx)
                    &&& #[trigger] call_ensures(K::on_ready, (c, id, p), ())
                },
    {
        match self.controllers.remove(&id.get()) {
            Some(previous) => {
                let mut previous = previous;
                previous.on_destroy(id, ctx);
            },
            None => {},
        }
        let mut controller = controller;
        controller.on_ready(id, ctx);
        self.controllers.insert(id.get(), controller);
        proof {
            assert(self@.attached =~= old(self)@.attached.insert(id@));
        }
    }

    /// Takes `id` out of both passes, and detaches its controller, if
    /// any, after telling it `on_destroy`.
    ///
    /// Where `id` has a controller, the transaction ends as that
    /// controller's `on_destroy` leaves it when it is called with `id`
    /// and the transaction as it stands. Where it has none, the
    /// transaction stays. The other controllers stay as they are.
    pub fn detach_controller<C, E>(&mut self, id: ObjectId, ctx: &mut ContextProxy<C, E, K>) where
        K: Controller<C, E>,

        requires
            old(self).wf(),
            old(ctx).wf(),
        ensures
            final(self).wf(),
            final(ctx).wf(),
            final(self)@ == old(self)@.detach(id@),
            final(self).others_as_in(old(self), id@),
            !old(self)@.attached.contains(id@) ==> {
                &&& *final(ctx) == *old(ctx)
                &&& final(self).same_controllers(old(self))
            },
            old(self)@.attached.contains(id@) ==> exists|c: &mut K, p: &mut ContextProxy<C, E, K>|
                {
                    &&& *c == old(self).controller(id@)
                    &&& *p == *old(ctx)
                    &&& *final(p) == *final(ctx)
                    &&& #[trigger] call_ensures(K::on_destroy, (c, id, p), ())
                },
    {
        self.on_update_hooked_controllers.remove(&id.get());
        self.on_late_update_hooked_controllers.remove(&id.get());
        match self.controllers.remove(&id.get()) {
            Some(controller) => {
                let mut controller = controller;
                controller.on_destroy(id, ctx);
            },
            None => {
                proof {
                    assert(self.controllers@ =~= old(self).controllers@);
                }
            },
        }
    }

    /// Subscribes `id` to the update pass, where it has a controller.
    pub fn listen_on_update(&mut self, id: ObjectId)
        requires
            old(self).wf(),
        ensures
            final(self).wf(),
            final(self)@ == old(self)@.listen_on_update(id@),
            final(self).same_controllers(old(self)),
    {
        if self.controllers.contains_key(&id.get()) {
            self.on_update_hooked_controllers.insert(id.get());
        }
    }

    /// Unsubscribes `id` from the update pass.
    pub fn unlisten_on_update(&mut self, id: ObjectId)
        requires
            old(self).wf(),
        ensures
            final(self).wf(),
            final(self)@ == old(self)@.unlisten_on_update(id@),
            final(self).same_controllers(old(self)),
    {
        self.on_update_hooked_controllers.remove(&id.get());
    }

    /// Subscribes `id` to the late-update pass, where it has a controller.
    pub fn listen_on_late_update(&mut self, id: ObjectId)
        requires
            old(self).wf(),
        ensures
            final(self).wf(),
            final(self)@ == old(self)@.listen_on_late_update(id@),
            final(self).same_controllers(old(self)),
    {
        if self.controllers.contains_key(&id.get()) {
            self.on_late_update_hooked_controllers.insert(id.get());
        }
    }

    /// Unsubscribes `id` from the late-update pass.
    pub fn unlisten_on_late_update(&mut self, id: ObjectId)
        requires
            old(self).wf(),
        ensures
            final(self).wf(),
            final(self)@ == old(self)@.unlisten_on_late_update(id@),
            final(self).same_controllers(old(self)),
    {
        self.on_late_update_hooked_controllers.remove(&id.get());
    }

    /// The subscribers of the update pass, or, where `late` is set, of
    /// the late-update pass.
    spec fn subscribed(&self, late: bool) -> Set<u32> {
        if late {
            self@.on_late_update
        } else {
            self@.on_update
        }
    }

    /// One pass: tells the controller of every subscriber of the update
    /// pass `on_update`, or, where `late` is set, the controller of every
    /// subscriber of the late-update pass `on_late_update`.
    fn pass<C, E>(&mut self, late: bool, ctx: &mut ContextProxy<C, E, K>) where
        K: Controller<C, E>,

        requires
            old(self).wf(),
            old(ctx).wf(),
        ensures
            final(self).wf(),
            final(ctx).wf(),
            final(self)@ == old(self)@,
            old(self).subscribed(late).len() == 0 ==> *final(ctx) == *old(ctx),
            final(self).unlisted_as_in(old(self), old(self).subscribed(late)),
            exists|order: Seq<u32>, states: Seq<ContextProxy<C, E, K>>|
                {
                    &&& #[trigger] pass_runs(
                        order,
                        old(self).subscribed(late),
                        states,
                        *old(ctx),
                        *final(ctx),
                    )
                    &&& forall|i: int|
                        #![trigger order[i]]
                        0 <= i < order.len() ==> if old(self)@.attached.contains(order[i]) {
                            exists|c: &mut K, p: &mut ContextProxy<C, E, K>, id: ObjectId|
                                #![trigger call_ensures(K::on_update, (c, id, p), ())]
                                #![trigger call_ensures(K::on_late_update, (c, id, p), ())]
                                {
                                    &&& id@ == order[i]
                                    &&& *c == old(self).controller(order[i])
                                    &&& *final(c) == final(self).controller(order[i])
                                    &&& *p == states[i]
                                    &&& *final(p) == states[i + 1]
                                    &&& if late {
                                        call_ensures(K::on_late_update, (c, id, p), ())
                                    } else {
                                        call_ensures(K::on_update, (c, id, p), ())
                                    }
                                }
                        } else {
                            states[i + 1] == states[i]
                        }
                },
    {
        let ghost attached = self.controllers@.dom();
        let subscribers = if late {
            self.on_late_update_hooked_controllers.iter()
        } else {
            self.on_update_hooked_controllers.iter()
        };
        let ghost all = subscribers.remaining();
        let ghost order = all.unref();
        let ghost mut states: Seq<ContextProxy<C, E, K>> = seq![*ctx];
        proof {
            axiom_spec_hash_keys_iter(&self.on_update_hooked_controllers);
            axiom_spec_hash_keys_iter(&self.on_late_update_hooked_controllers);
            assert(attached == old(self)@.attached);
            assert forall|j: int| 0 <= j < order.len() implies #[trigger] order[j] != 0 by {
                assert(order.to_set().contains(order[j]));
            }
            assert(order.no_duplicates()) by {
                assert forall|i: int, j: int|
                    0 <= i < order.len() && 0 <= j < order.len() && i != j implies order[i]
                    != order[j] by {
                    assert(all[i] != all[j]);
                }
            }
        }
        for id in iter: subscribers
            invariant
                ctx.wf(),
                self.wf(),
                forall|j: int| 0 <= j < order.len() ==> #[trigger] order[j] != 0,
                iter.seq() == all,
                order == all.unref(),
                order.no_duplicates(),
                order.to_set() == old(self).subscribed(late),
                order.len() == old(self).subscribed(late).len(),
                self.controllers@.dom() == attached,
                attached == old(self)@.attached,
                self@.on_update == old(self)@.on_update,
                self@.on_late_update == old(self)@.on_late_update,
                states.len() == iter.index() + 1,
                states[0] == *old(ctx),
                states[iter.index() as int] == *ctx,
                forall|other: u32|
                    attached.contains(other) && (forall|j: int|
                        0 <= j < iter.index() ==> order[j] != other) ==> #[trigger] self.controller(
                        other,
                    ) == old(self).controller(other),
                forall|i: int|
                    #![trigger order[i]]
                    0 <= i < iter.index() ==> if attached.contains(order[i]) {
                        exists|c: &mut K, p: &mut ContextProxy<C, E, K>, id: ObjectId|
                            #![trigger call_ensures(K::on_update, (c, id, p), ())]
                            #![trigger call_ensures(K::on_late_update, (c, id, p), ())]
                            {
                                &&& id@ == order[i]
                                &&& *c == old(self).controller(order[i])
                                &&& *final(c) == self.controller(order[i])
                                &&& *p == states[i]
                                &&& *final(p) == states[i + 1]
                                &&& if late {
                                    call_ensures(K::on_late_update, (c, id, p), ())
                                } else {
                                    call_ensures(K::on_update, (c, id, p), ())
                                }
                            }
                    } else {
                        states[i + 1] == states[i]
                    },
        {
            let ghost at = iter.index() as int;
            let ghost before = *self;
            proof {
                assert(order[at] == *id);
                assert forall|j: int| 0 <= j < at implies order[j] != *id by {
                    assert(order[j] != order[at]);
                }
            }
            let ghost states_before = states;
            match self.controllers.remove(id) {
                Some(controller) => {
                    let mut controller = controller;
                    let ghost taken = controller;
                    proof {
                        assert(before.controllers@.contains_key(*id));
                        assert(attached.contains(*id));
                        assert(taken == before.controller(*id));
                        assert(before.controller(*id) == old(self).controller(*id));
                    }
                    if late {
                        controller.on_late_update(ObjectId::new(*id), ctx);
                    } else {
                        controller.on_update(ObjectId::new(*id), ctx);
                    }
                    self.controllers.insert(*id, controller);
                },
                None => {},
            }
            proof {
                states = states.push(*ctx);
                assert(self.controllers@.dom() =~= attached);
                assert forall|other: u32| other != order[at] && attached.contains(
                    other,
                ) implies #[trigger] self.controller(other) == before.controller(other) by {}
                assert forall|other: u32|
                    attached.contains(other) && (forall|j: int|
                        0 <= j < at + 1 ==> order[j] != other) implies #[trigger] self.controller(
                    other,
                ) == old(self).controller(other) by {
                    assert(order[at] != other);
                    assert forall|j: int| 0 <= j < at implies order[j] != other by {}
                }
                assert forall|i: int|
                    #![trigger order[i]]
                    0 <= i < at implies states[i] == states_before[i] && states[i + 1]
                    == states_before[i + 1] && self.controller(order[i]) == before.controller(
                    order[i],
                ) by {
                    assert(order[i] != order[at]);
                }
            }
        }
        proof {
            assert(pass_runs(order, old(self).subscribed(late), states, *old(ctx), *ctx));
            assert forall|id: u32|
                old(self)@.attached.contains(id) && !old(self).subscribed(late).contains(
                    id,
                ) implies #[trigger] self.controller(id) == old(self).controller(id) by {
                assert forall|j: int| 0 <= j < order.len() implies order[j] != id by {
                    assert(order.to_set().contains(order[j]));
                }
            }
            assert(self.unlisted_as_in(old(self), old(self).subscribed(late)));
        }
    }


    /// Tells `on_update` to the controller of every subscriber of the
    /// update pass, in no particular order. A subscriber whose
    /// controller is gone is passed over.
    ///
    /// The subscribers are gone through one by one, each once, in some
    /// order. A subscriber with a controller has that controller and the
    /// transaction end as its `on_update` leaves them when it is called
    /// with the subscriber's identifier and the transaction as the
    /// subscriber before left it. The controllers of objects that are
    /// not subscribed stay as they are.
    pub fn invoke_on_update<C, E>(&mut self, ctx: &mut ContextProxy<C, E, K>) where
        K: Controller<C, E>,

        requires
            old(self).wf(),
            old(ctx).wf(),
        ensures
            final(self).wf(),
            final(ctx).wf(),
            final(self)@ == old(self)@,
            old(self)@.on_update.len() == 0 ==> *final(ctx) == *old(ctx),
            final(self).unlisted_as_in(old(self), old(self)@.on_update),
            exists|order: Seq<u32>, states: Seq<ContextProxy<C, E, K>>|
                {
                    &&& #[trigger] pass_runs(
                        order,
                        old(self)@.on_update,
                        states,
                        *old(ctx),
                        *final(ctx),
                    )
                    &&& forall|i: int|
                        #![trigger order[i]]
                        0 <= i < order.len() ==> if old(self)@.attached.contains(order[i]) {
                            exists|c: &mut K, p: &mut ContextProxy<C, E, K>, id: ObjectId|
                                {
                                    &&& id@ == order[i]
                                    &&& *c == old(self).controller(order[i])
                                    &&& *final(c) == final(self).controller(order[i])
                                    &&& *p == states[i]
                                    &&& *final(p) == states[i + 1]
                                    &&& #[trigger] call_ensures(
                                        K::on_update,
                                        (c, id, p),
                                        (),
                                    )
                                }
                        } else {
                            states[i + 1] == states[i]
                        }
                },
    {
        self.pass(false, ctx);
    }

    /// Tells `on_late_update` to the controller of every subscriber of the
    /// late-update pass, in no particular order. A subscriber whose
    /// controller is gone is passed over.
    ///
    /// The subscribers are gone through one by one, each once, in some
    /// order. A subscriber with a controller has that controller and the
    /// transaction end as its `on_late_update` leaves them when it is called
    /// with the subscriber's identifier and the transaction as the
    /// subscriber before left it. The controllers of objects that are
    /// not subscribed stay as they are.
    pub fn invoke_on_late_update<C, E>(&mut self, ctx: &mut ContextProxy<C, E, K>) where
        K: Controller<C, E>,

        requires
            old(self).wf(),
            old(ctx).wf(),
        ensures
            final(self).wf(),
            final(ctx).wf(),
            final(self)@ == old(self)@,
            old(self)@.on_late_update.len() == 0 ==> *final(ctx) == *old(ctx),
            final(self).unlisted_as_in(old(self), old(self)@.on_late_update),
            exists|order: Seq<u32>, states: Seq<ContextProxy<C, E, K>>|
                {
                    &&& #[trigger] pass_runs(
                        order,
                        old(self)@.on_late_update,
                        states,
                        *old(ctx),
                        *final(ctx),
                    )
                    &&& forall|i: int|
                        #![trigger order[i]]
                        0 <= i < order.len() ==> if old(self)@.attached.contains(order[i]) {
                            exists|c: &mut K, p: &mut ContextProxy<C, E, K>, id: ObjectId|
                                {
                                    &&& id@ == order[i]
                                    &&& *c == old(self).controller(order[i])
                                    &&& *final(c) == final(self).controller(order[i])
                                    &&& *p == states[i]
                                    &&& *final(p) == states[i + 1]
                                    &&& #[trigger] call_ensures(
                                        K::on_late_update,
                                        (c, id, p),
                                        (),
                                    )
                                }
                        } else {
                            states[i + 1] == states[i]
                        }
                },
    {
        self.pass(true, ctx);
    }
}

} // verus!
