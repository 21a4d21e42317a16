//! Who listens to which named event.

use vstd::prelude::*;
use std::collections::BTreeSet;
use std::collections::HashMap;
use crate::context_proxy::ContextProxy;
use crate::controller::Controller;
use crate::object_id::ObjectId;
use crate::sorted::ascending;
use crate::sorted::strictly_ascending;
use crate::storage::controller_storage::ControllerStorage;

verus! {

/// The listeners of one event.
struct EventListeners {
    event: String,
    object_ids: BTreeSet<u32>,
}

/// The subscriptions that remain once `id` is unsubscribed from every event.
pub open spec fn without_object(subscriptions: Set<(Seq<char>, u32)>, id: u32) -> Set<
    (Seq<char>, u32),
> {
    Set::new(|p: (Seq<char>, u32)| subscriptions.contains(p) && p.1 != id)
}

/// `name` is among `events`.
spec fn occurs(events: Seq<String>, name: Seq<char>) -> bool {
    exists|j: int| 0 <= j < events.len() && (#[trigger] events[j])@ == name
}

/// No name is twice among `events`.
spec fn names_distinct(events: Seq<String>) -> bool {
    forall|i: int, j: int|
        0 <= i < j < events.len() ==> (#[trigger] events[i])@ != (#[trigger] events[j])@
}

/// Adding a name that is not there yet.
proof fn lemma_push_name(events: Seq<String>, event: String)
    requires
        names_distinct(events),
        !occurs(events, event@),
    ensures
        names_distinct(events.push(event)),
        forall|name: Seq<char>|
            #![trigger occurs(events.push(event), name)]
            #![trigger occurs(events, name)]
            occurs(events.push(event), name) == (occurs(events, name) || name == event@),
{
    let after = events.push(event);
    let last = events.len() as int;
    assert forall|i: int, j: int| 0 <= i < j < after.len() implies (#[trigger] after[i])@ != (
    #[trigger] after[j])@ by {
        if j < last {
            assert(events[i]@ != events[j]@);
        } else {
            assert(events[i]@ != event@);
        }
    }
    assert forall|name: Seq<char>|
        occurs(after, name) == (occurs(events, name) || name == event@) by {
        if occurs(events, name) {
            let j = choose|j: int| 0 <= j < events.len() && (#[trigger] events[j])@ == name;
            assert(after[j]@ == name);
        }
        if name == event@ {
            assert(after[last]@ == name);
        }
        if occurs(after, name) {
            let j = choose|j: int| 0 <= j < after.len() && (#[trigger] after[j])@ == name;
            if j < last {
                assert(events[j]@ == name);
            }
        }
    }
}

/// Taking out the name at `j`, with the last name moved into its place.
proof fn lemma_swap_remove_name(events: Seq<String>, j: int)
    requires
        names_distinct(events),
        0 <= j < events.len(),
    ensures
        names_distinct(events.update(j, events.last()).drop_last()),
        forall|name: Seq<char>|
            occurs(events.update(j, events.last()).drop_last(), name) == (occurs(events, name)
                && name != events[j]@),
{
    let after = events.update(j, events.last()).drop_last();
    let last = events.len() - 1;
    assert forall|a: int, b: int| 0 <= a < b < after.len() implies (#[trigger] after[a])@ != (
    #[trigger] after[b])@ by {
        let from_a = if a == j {
            last
        } else {
            a
        };
        let from_b = if b == j {
            last
        } else {
            b
        };
        assert(after[a] == events[from_a]);
        assert(after[b] == events[from_b]);
        if from_a < from_b {
            assert(events[from_a]@ != events[from_b]@);
        } else {
            assert(events[from_b]@ != events[from_a]@);
        }
    }
    assert forall|name: Seq<char>|
        occurs(after, name) == (occurs(events, name) && name != events[j]@) by {
        if occurs(after, name) {
            let k = choose|k: int| 0 <= k < after.len() && (#[trigger] after[k])@ == name;
            let from = if k == j {
                last
            } else {
                k
            };
            assert(events[from]@ == name);
            if from < j {
                assert(events[from]@ != events[j]@);
            } else {
                assert(events[j]@ != events[from]@);
            }
        }
        if occurs(events, name) && name != events[j]@ {
            let m = choose|m: int| 0 <= m < events.len() && (#[trigger] events[m])@ == name;
            if m == last {
                assert(after[j]@ == name);
            } else {
                assert(after[m]@ == name);
            }
        }
    }
}

/// Some listener of `event` is among `attached`, the objects that have a
/// controller: sending the event calls a handler.
pub open spec fn reaches_controller(
    subscriptions: Set<(Seq<char>, u32)>,
    attached: Set<u32>,
    event: Seq<char>,
) -> bool {
    exists|id: u32| #[trigger] subscriptions.contains((event, id)) && attached.contains(id)
}

/// The objects that listen to `event`.
pub open spec fn listeners_of(subscriptions: Set<(Seq<char>, u32)>, event: Seq<char>) -> Set<u32> {
    Set::new(|id: u32| subscriptions.contains((event, id)))
}

/// `order` lists the listeners of `event`, least first, and `states`
/// holds what a transaction was before the first of them, after each,
/// and so at the end: it starts as `first` and ends as `last`.
pub open spec fn event_runs<T>(
    order: Seq<u32>,
    subscriptions: Set<(Seq<char>, u32)>,
    event: Seq<char>,
    states: Seq<T>,
    first: T,
    last: T,
) -> bool {
    &&& strictly_ascending(order)
    &&& forall|id: u32| order.contains(id) <==> subscriptions.contains((event, id))
    &&& states.len() == order.len() + 1
    &&& states[0] == first
    &&& states[order.len() as int] == last
}

/// Keeps the subscriptions in two indexes that say the same: for each
/// event its listeners, in the order of their identifiers, and for each
/// object the events it listens to.
pub struct EventReceiverStorage {
    event_to_object_ids: Vec<EventListeners>,
    object_id_to_events: HashMap<u32, Vec<String>>,
}

impl View for EventReceiverStorage {
    type V = Set<(Seq<char>, u32)>;

    /// The subscriptions: the pairs of an event name and the number of
    /// an object that listens to it.
    closed spec fn view(&self) -> Set<(Seq<char>, u32)> {
        Set::new(|p: (Seq<char>, u32)| self.listens(p.0, p.1))
    }
}

impl EventReceiverStorage {
    spec fn listens(&self, event: Seq<char>, id: u32) -> bool {
        exists|i: int|
            0 <= i < self.event_to_object_ids@.len() && (
            #[trigger] self.event_to_object_ids@[i]).event@ == event
                && self.event_to_object_ids@[i].object_ids@.contains(id)
    }

    spec fn recorded(&self, event: Seq<char>, id: u32) -> bool {
        &&& self.object_id_to_events@.contains_key(id)
        &&& occurs(self.object_id_to_events@[id]@, event)
    }

    spec fn events_distinct(&self) -> bool {
        forall|i: int, j: int|
            0 <= i < j < self.event_to_object_ids@.len() ==> (
            #[trigger] self.event_to_object_ids@[i]).event@ != (
            #[trigger] self.event_to_object_ids@[j]).event@
    }

    spec fn records_distinct(&self) -> bool {
        forall|id: u32| #[trigger]
            self.object_id_to_events@.contains_key(id) ==> names_distinct(
                self.object_id_to_events@[id]@,
            )
    }

    /// No listener has the number zero, which no identifier has.
    spec fn no_zero(&self) -> bool {
        forall|event: Seq<char>| !#[trigger] self.listens(event, 0)
    }

    spec fn indexes_agree(&self) -> bool {
        forall|event: Seq<char>, id: u32|
            #![trigger self.listens(event, id)]
            #![trigger self.recorded(event, id)]
            self.listens(event, id) == self.recorded(event, id)
    }

    /// No event and no object has two entries, the two indexes hold the
    /// same subscriptions, and no listener has the number zero.
    pub closed spec fn wf(&self) -> bool {
        &&& self.events_distinct()
        &&& self.records_distinct()
        &&& self.indexes_agree()
        &&& self.no_zero()
    }

    /// A store without subscriptions.
    pub fn new() -> (r: Self)
        ensures
            r.wf(),
            r@ == Set::<(Seq<char>, u32)>::empty(),
    {
        let r = Self { event_to_object_ids: Vec::new(), object_id_to_events: HashMap::new() };
        proof {
            assert(r@ =~= Set::<(Seq<char>, u32)>::empty());
        }
        r
    }

    /// Where the listeners of `event` are kept, if anywhere.
    fn position_of_event(&self, event: &String) -> (r: Option<usize>)
        ensures
            match r {
                Some(i) => {
                    &&& i < self.event_to_object_ids@.len()
                    &&& self.event_to_object_ids@[i as int].event@ == event@
                },
                None => forall|i: int|
                    0 <= i < self.event_to_object_ids@.len() ==> (
                    #[trigger] self.event_to_object_ids@[i]).event@ != event@,
            },
    {
        let mut i: usize = 0;
        while i < self.event_to_object_ids.len()
            invariant
                i <= self.event_to_object_ids@.len(),
                forall|j: int|
                    0 <= j < i ==> (#[trigger] self.event_to_object_ids@[j]).event@ != event@,
            decreases self.event_to_object_ids@.len() - i,
        {
            if self.event_to_object_ids[i].event == *event {
                return Some(i);
            }
            i += 1;
        }
        None
    }

    /// The listeners of `event`, in the order in which `emit` reaches
    /// them: by ascending identifier.
    pub fn listeners(&self, event: &str) -> (r: Vec<u32>)
        requires
            self.wf(),
        ensures
            strictly_ascending(r@),
            forall|id: u32| r@.contains(id) <==> self@.contains((event@, id)),
    {
        let owned: String = event.to_owned();
        match self.position_of_event(&owned) {
            Some(i) => {
                let ids = ascending(&self.event_to_object_ids[i].object_ids);
                proof {
                    assert forall|id: u32| ids@.contains(id) <==> self@.contains((event@, id)) by {
                        assert(ids@.to_set().contains(id) == ids@.contains(id));
                        if self.listens(event@, id) {
                            let j = choose|j: int|
                                0 <= j < self.event_to_object_ids@.len() && (
                                #[trigger] self.event_to_object_ids@[j]).event@ == event@
                                    && self.event_to_object_ids@[j].object_ids@.contains(id);
                            if j < i {
                            } else if i < j {
                            }
                        }
                    }
                }
                ids
            },
            None => {
                let ids: Vec<u32> = Vec::new();
                proof {
                    assert forall|id: u32| ids@.contains(id) <==> self@.contains((event@, id)) by {
                    }
                }
                ids
            },
        }
    }

    /// Where `event` stands in `events`, if anywhere.
    fn position_in(events: &Vec<String>, event: &String) -> (r: Option<usize>)
        ensures
            match r {
                Some(j) => j < events@.len() && events@[j as int]@ == event@,
                None => !occurs(events@, event@),
            },
    {
        let mut j: usize = 0;
        while j < events.len()
            invariant
                j <= events@.len(),
                forall|k: int| 0 <= k < j ==> (#[trigger] events@[k])@ != event@,
            decreases events@.len() - j,
        {
            if events[j] == *event {
                return Some(j);
            }
            j += 1;
        }
        None
    }

    /// Adds `object_id` to the listeners of `event` in the first index.
    /// Returns whether it was not among them before.
    fn add_listener(&mut self, event: &String, object_id: ObjectId) -> (r: bool)
        requires
            old(self).events_distinct(),
        ensures
            final(self).events_distinct(),
            final(self).object_id_to_events == old(self).object_id_to_events,
            r == !old(self).listens(event@, object_id@),
            forall|name: Seq<char>, id: u32|
                final(self).listens(name, id) == (old(self).listens(name, id) || (name == event@
                    && id == object_id@)),
    {
        let ghost before = *self;
        let added = match self.position_of_event(event) {
            Some(i) => {
                let added = self.event_to_object_ids[i].object_ids.insert(object_id.get());
                proof {
                    let at = i as int;
                    assert(self.event_to_object_ids@.len() == before.event_to_object_ids@.len());
                    assert(self.event_to_object_ids@[at].event
                        == before.event_to_object_ids@[at].event);
                    assert(self.event_to_object_ids@[at].object_ids@
                        == before.event_to_object_ids@[at].object_ids@.insert(object_id@));
                    assert forall|j: int|
                        0 <= j < self.event_to_object_ids@.len() && j != at implies (
                    #[trigger] self.event_to_object_ids@[j]) == before.event_to_object_ids@[j] by {}
                    if before.listens(event@, object_id@) {
                        let j = choose|j: int|
                            0 <= j < before.event_to_object_ids@.len() && (
                            #[trigger] before.event_to_object_ids@[j]).event@ == event@
                                && before.event_to_object_ids@[j].object_ids@.contains(
                                object_id@,
                            );
                        if j < at {
                        } else if at < j {
                        }
                    }
                    if !added {
                        assert(before.event_to_object_ids@[at].event@ == event@);
                    }
                }
                added
            },
            None => {
                let mut object_ids: BTreeSet<u32> = BTreeSet::new();
                object_ids.insert(object_id.get());
                self.event_to_object_ids.push(EventListeners { event: event.clone(), object_ids });
                proof {
                    let at = before.event_to_object_ids@.len() as int;
                    assert(self.event_to_object_ids@[at].event@ == event@);
                    assert(self.event_to_object_ids@[at].object_ids@ =~= Set::<u32>::empty().insert(
                        object_id@,
                    ));
                    assert forall|j: int| 0 <= j < at implies (
                    #[trigger] self.event_to_object_ids@[j]) == before.event_to_object_ids@[j] by {}
                }
                true
            },
        };
        proof {
            assert forall|name: Seq<char>, id: u32|
                self.listens(name, id) == (before.listens(name, id) || (name == event@ && id
                    == object_id@)) by {
                if before.listens(name, id) {
                    let j = choose|j: int|
                        0 <= j < before.event_to_object_ids@.len() && (
                        #[trigger] before.event_to_object_ids@[j]).event@ == name
                            && before.event_to_object_ids@[j].object_ids@.contains(id);
                    assert(self.event_to_object_ids@[j].event@ == name);
                    assert(self.event_to_object_ids@[j].object_ids@.contains(id));
                }
                if name == event@ && id == object_id@ {
                    let j = choose|j: int|
                        0 <= j < self.event_to_object_ids@.len() && (
                        #[trigger] self.event_to_object_ids@[j]).event@ == event@
                            && self.event_to_object_ids@[j].object_ids@.contains(object_id@);
                    assert(self.listens(name, id));
                }
                if self.listens(name, id) {
                    let j = choose|j: int|
                        0 <= j < self.event_to_object_ids@.len() && (
                        #[trigger] self.event_to_object_ids@[j]).event@ == name
                            && self.event_to_object_ids@[j].object_ids@.contains(id);
                    if j < before.event_to_object_ids@.len() {
                        assert(before.event_to_object_ids@[j].event@ == name);
                    }
                }
            }
        }
        added
    }

    /// Takes `object_id` out of the listeners of `event` in the first
    /// index. The entry of the event stays, also when it ends empty.
    fn remove_listener(&mut self, event: &String, object_id: ObjectId)
        requires
            old(self).events_distinct(),
        ensures
            final(self).events_distinct(),
            final(self).object_id_to_events == old(self).object_id_to_events,
            forall|name: Seq<char>, id: u32|
                final(self).listens(name, id) == (old(self).listens(name, id) && !(name == event@
                    && id == object_id@)),
    {
        let ghost before = *self;
        match self.position_of_event(event) {
            Some(i) => {
                self.event_to_object_ids[i].object_ids.remove(&object_id.get());
                proof {
                    let at = i as int;
                    assert(self.event_to_object_ids@.len() == before.event_to_object_ids@.len());
                    assert(self.event_to_object_ids@[at].event
                        == before.event_to_object_ids@[at].event);
                    assert(self.event_to_object_ids@[at].object_ids@
                        == before.event_to_object_ids@[at].object_ids@.remove(object_id@));
                    assert forall|j: int|
                        0 <= j < self.event_to_object_ids@.len() && j != at implies (
                    #[trigger] self.event_to_object_ids@[j]) == before.event_to_object_ids@[j] by {}
                }
            },
            None => {},
        }
        proof {
            assert forall|name: Seq<char>, id: u32|
                self.listens(name, id) == (before.listens(name, id) && !(name == event@ && id
                    == object_id@)) by {
                if before.listens(name, id) && !(name == event@ && id == object_id@) {
                    let j = choose|j: int|
                        0 <= j < before.event_to_object_ids@.len() && (
                        #[trigger] before.event_to_object_ids@[j]).event@ == name
                            && before.event_to_object_ids@[j].object_ids@.contains(id);
                    assert(self.event_to_object_ids@[j].event@ == name);
                    assert(self.event_to_object_ids@[j].object_ids@.contains(id));
                }
                if self.listens(name, id) {
                    let j = choose|j: int|
                        0 <= j < self.event_to_object_ids@.len() && (
                        #[trigger] self.event_to_object_ids@[j]).event@ == name
                            && self.event_to_object_ids@[j].object_ids@.contains(id);
                    assert(before.event_to_object_ids@[j].event@ == name);
                    assert(before.event_to_object_ids@[j].object_ids@.contains(id));
                }
            }
        }
    }

    /// Adds `event` to the events of `object_id` in the second index.
    fn add_record(&mut self, event: String, object_id: ObjectId)
        requires
            old(self).records_distinct(),
            !old(self).recorded(event@, object_id@),
        ensures
            final(self).records_distinct(),
            final(self).event_to_object_ids == old(self).event_to_object_ids,
            forall|name: Seq<char>, id: u32|
                final(self).recorded(name, id) == (old(self).recorded(name, id) || (name == event@
                    && id == object_id@)),
    {
        let ghost before = *self;
        let mut events = match self.object_id_to_events.remove(&object_id.get()) {
            Some(events) => events,
            None => Vec::new(),
        };
        let ghost events_before = events@;
        proof {
            if before.object_id_to_events@.contains_key(object_id@) {
                assert(names_distinct(before.object_id_to_events@[object_id@]@));
            }
            lemma_push_name(events_before, event);
        }
        events.push(event);
        self.object_id_to_events.insert(object_id.get(), events);
        proof {
            assert forall|id: u32| #[trigger]
                self.object_id_to_events@.contains_key(id) implies names_distinct(
                self.object_id_to_events@[id]@,
            ) by {
                if id != object_id@ {
                    assert(before.object_id_to_events@.contains_key(id));
                }
            }
            assert forall|name: Seq<char>, id: u32|
                self.recorded(name, id) == (before.recorded(name, id) || (name == event@ && id
                    == object_id@)) by {
                if id == object_id@ {
                    assert(self.object_id_to_events@[id]@ == events_before.push(event));
                    assert(occurs(events_before.push(event), name) == (occurs(events_before, name)
                        || name == event@));
                    if !before.object_id_to_events@.contains_key(id) {
                        assert(!occurs(events_before, name));
                    }
                } else {
                    assert(self.object_id_to_events@.contains_key(id)
                        == before.object_id_to_events@.contains_key(id));
                }
            }
        }
    }

    /// Takes `event` out of the events of `object_id` in the second
    /// index; the last event of the object moves into its place.
    fn remove_record(&mut self, event: &String, object_id: ObjectId)
        requires
            old(self).records_distinct(),
        ensures
            final(self).records_distinct(),
            final(self).event_to_object_ids == old(self).event_to_object_ids,
            forall|name: Seq<char>, id: u32|
                final(self).recorded(name, id) == (old(self).recorded(name, id) && !(name == event@
                    && id == object_id@)),
    {
        let ghost before = *self;
        match self.object_id_to_events.remove(&object_id.get()) {
            Some(events) => {
                let mut events = events;
                proof {
                    assert(before.object_id_to_events@.contains_key(object_id@));
                    assert(names_distinct(events@));
                }
                match Self::position_in(&events, event) {
                    Some(j) => {
                        proof {
                            lemma_swap_remove_name(events@, j as int);
                        }
                        events.swap_remove(j);
                    },
                    None => {},
                }
                self.object_id_to_events.insert(object_id.get(), events);
                proof {
                    assert forall|id: u32| #[trigger]
                        self.object_id_to_events@.contains_key(id) implies names_distinct(
                        self.object_id_to_events@[id]@,
                    ) by {
                        if id != object_id@ {
                            assert(before.object_id_to_events@.contains_key(id));
                        }
                    }
                }
            },
            None => {
                proof {
                    assert(self.object_id_to_events@ =~= before.object_id_to_events@);
                }
            },
        }
    }

    /// Subscribes `object_id` to `event`. Nothing changes where it is
    /// subscribed already.
    pub fn listen(&mut self, event: String, object_id: ObjectId)
        requires
            old(self).wf(),
        ensures
            final(self).wf(),
            final(self)@ == old(self)@.insert((event@, object_id@)),
    {
        let ghost before = *self;
        let added = self.add_listener(&event, object_id);
        let ghost listed = *self;
        proof {
            assert forall|name: Seq<char>, id: u32|
                listed.recorded(name, id) == before.recorded(name, id) by {}
            assert(before.listens(event@, object_id@) == before.recorded(event@, object_id@));
        }
        if added {
            self.add_record(event, object_id);
        }
        proof {
            assert forall|name: Seq<char>, id: u32|
                self.listens(name, id) == listed.listens(name, id) by {}
            assert forall|name: Seq<char>, id: u32|
                #![trigger self.listens(name, id)]
                #![trigger self.recorded(name, id)]
                self.listens(name, id) == self.recorded(name, id) by {
                assert(before.listens(name, id) == before.recorded(name, id));
            }
            assert forall|p: (Seq<char>, u32)|
                self@.contains(p) == before@.insert((event@, object_id@)).contains(p) by {
                assert(self.listens(p.0, p.1) == listed.listens(p.0, p.1));
            }
            assert(self@ =~= before@.insert((event@, object_id@)));
            use_type_invariant(object_id);
            assert forall|name: Seq<char>| !#[trigger] self.listens(name, 0) by {
                assert(self@.contains((name, 0u32)) == self.listens(name, 0));
                assert(before@.contains((name, 0u32)) == before.listens(name, 0));
            }
        }
    }

    /// Unsubscribes `object_id` from `event`. Nothing changes where it is
    /// not subscribed.
    pub fn unlisten(&mut self, event: String, object_id: ObjectId)
        requires
            old(self).wf(),
        ensures
            final(self).wf(),
            final(self)@ == old(self)@.remove((event@, object_id@)),
    {
        let ghost before = *self;
        self.remove_listener(&event, object_id);
        let ghost unlisted = *self;
        proof {
            assert forall|name: Seq<char>, id: u32|
                unlisted.recorded(name, id) == before.recorded(name, id) by {}
        }
        self.remove_record(&event, object_id);
        proof {
            assert forall|name: Seq<char>, id: u32|
                self.listens(name, id) == unlisted.listens(name, id) by {}
            assert forall|name: Seq<char>, id: u32|
                #![trigger self.listens(name, id)]
                #![trigger self.recorded(name, id)]
                self.listens(name, id) == self.recorded(name, id) by {
                assert(before.listens(name, id) == before.recorded(name, id));
            }
            assert forall|p: (Seq<char>, u32)|
                self@.contains(p) == before@.remove((event@, object_id@)).contains(p) by {
                assert(self.listens(p.0, p.1) == unlisted.listens(p.0, p.1));
            }
            assert(self@ =~= before@.remove((event@, object_id@)));
            assert forall|name: Seq<char>| !#[trigger] self.listens(name, 0) by {
                assert(self@.contains((name, 0u32)) == self.listens(name, 0));
                assert(before@.contains((name, 0u32)) == before.listens(name, 0));
            }
        }
    }

    /// Unsubscribes `object_id` from every event.
    pub fn unlisten_all(&mut self, object_id: ObjectId)
        requires
            old(self).wf(),
        ensures
            final(self).wf(),
            final(self)@ == without_object(old(self)@, object_id@),
    {
        let ghost before = *self;
        match self.object_id_to_events.remove(&object_id.get()) {
            Some(events) => {
                let mut i: usize = 0;
                proof {
                    assert(self.event_to_object_ids == before.event_to_object_ids);
                    assert forall|name: Seq<char>, id: u32|
                        #![trigger self.listens(name, id)]
                        self.listens(name, id) == (before.listens(name, id) && !(id == object_id@
                            && occurs(events@.take(0), name))) by {
                        assert(!occurs(events@.take(0), name));
                    }
                }
                while i < events.len()
                    invariant
                        i <= events@.len(),
                        self.events_distinct(),
                        self.object_id_to_events@ == before.object_id_to_events@.remove(
                            object_id@,
                        ),
                        forall|name: Seq<char>, id: u32|
                            #![trigger self.listens(name, id)]
                            self.listens(name, id) == (before.listens(name, id) && !(id
                                == object_id@ && occurs(events@.take(i as int), name))),
                    decreases events@.len() - i,
                {
                    let ghost step_before = *self;
                    self.remove_listener(&events[i], object_id);
                    proof {
                        let done = events@.take(i as int);
                        let next = events@.take(i + 1);
                        assert(next =~= done.push(events@[i as int]));
                        assert forall|name: Seq<char>|
                            occurs(next, name) == (occurs(done, name) || name
                                == events@[i as int]@) by {
                            if occurs(done, name) {
                                let j = choose|j: int|
                                    0 <= j < done.len() && (#[trigger] done[j])@ == name;
                                assert(next[j]@ == name);
                            }
                            if name == events@[i as int]@ {
                                assert(next[i as int]@ == name);
                            }
                            if occurs(next, name) {
                                let j = choose|j: int|
                                    0 <= j < next.len() && (#[trigger] next[j])@ == name;
                                if j < i {
                                    assert(done[j]@ == name);
                                }
                            }
                        }
                        assert forall|name: Seq<char>, id: u32|
                            #![trigger self.listens(name, id)]
                            self.listens(name, id) == (before.listens(name, id) && !(id
                                == object_id@ && occurs(next, name))) by {
                            assert(step_before.listens(name, id) == (before.listens(name, id)
                                && !(id == object_id@ && occurs(done, name))));
                        }
                    }
                    i += 1;
                }
                proof {
                    assert(events@.take(i as int) =~= events@);
                    assert(events@ == before.object_id_to_events@[object_id@]@);
                    assert forall|name: Seq<char>, id: u32|
                        #![trigger self.listens(name, id)]
                        #![trigger self.recorded(name, id)]
                        self.listens(name, id) == self.recorded(name, id) by {
                        assert(before.listens(name, id) == before.recorded(name, id));
                    }
                    assert forall|id: u32| #[trigger]
                        self.object_id_to_events@.contains_key(id) implies names_distinct(
                        self.object_id_to_events@[id]@,
                    ) by {
                        assert(before.object_id_to_events@.contains_key(id));
                    }
                    assert forall|p: (Seq<char>, u32)|
                        self@.contains(p) == without_object(before@, object_id@).contains(p) by {
                        assert(before.listens(p.0, p.1) == before.recorded(p.0, p.1));
                    }
                    assert(self@ =~= without_object(before@, object_id@));
                }
            },
            None => {
                proof {
                    assert(self.object_id_to_events@ =~= before.object_id_to_events@);
                    assert forall|name: Seq<char>, id: u32|
                        self.recorded(name, id) == before.recorded(name, id) by {}
                    assert(self.event_to_object_ids == before.event_to_object_ids);
                    assert forall|name: Seq<char>, id: u32|
                        self.listens(name, id) == before.listens(name, id) by {}
                    assert forall|name: Seq<char>, id: u32|
                        #![trigger self.listens(name, id)]
                        #![trigger self.recorded(name, id)]
                        self.listens(name, id) == self.recorded(name, id) by {
                        assert(before.listens(name, id) == before.recorded(name, id));
                    }
                    assert forall|id: u32| #[trigger]
                        self.object_id_to_events@.contains_key(id) implies names_distinct(
                        self.object_id_to_events@[id]@,
                    ) by {
                        assert(before.object_id_to_events@.contains_key(id));
                    }
                    assert forall|p: (Seq<char>, u32)|
                        self@.contains(p) == without_object(before@, object_id@).contains(p) by {
                        assert(before.listens(p.0, p.1) == before.recorded(p.0, p.1));
                    }
                    assert(self@ =~= without_object(before@, object_id@));
                }
            },
        }
        proof {
            assert forall|name: Seq<char>| !#[trigger] self.listens(name, 0) by {
                assert(self@.contains((name, 0u32)) == self.listens(name, 0));
                assert(before@.contains((name, 0u32)) == before.listens(name, 0));
            }
        }
    }

    /// Sends `event` with `param` to the controller of every object that
    /// listens to it, in the order of `listeners(event)`. A listener
    /// without a controller is passed over. What the handlers ask of the
    /// transaction is queued in it; the stores themselves stay.
    ///
    /// The listeners are gone through in ascending order. A listener with
    /// a controller has that controller and the transaction end as its
    /// `on_event` leaves them when it is called with `event`, `param`,
    /// the listener's identifier and the transaction as the listener
    /// before left it. The controllers of objects that do not listen stay
    /// as they are.
    pub fn emit<C, E, K>(
        &self,
        event: &str,
        param: &E,
        ctx: &mut ContextProxy<C, E, K>,
        controller_storage: &mut ControllerStorage<K>,
    ) where K: Controller<C, E>
        requires
            self.wf(),
            old(controller_storage).wf(),
            old(ctx).wf(),
        ensures
            final(controller_storage).wf(),
            final(ctx).wf(),
            final(controller_storage)@ == old(controller_storage)@,
            !reaches_controller(self@, old(controller_storage)@.attached, event@) ==> {
                &&& *final(ctx) == *old(ctx)
                &&& final(controller_storage).same_controllers(old(controller_storage))
            },
            final(controller_storage).unlisted_as_in(
                old(controller_storage),
                listeners_of(self@, event@),
            ),
            exists|order: Seq<u32>, states: Seq<ContextProxy<C, E, K>>|
                {
                    &&& #[trigger] event_runs(order, self@, event@, states, *old(ctx), *final(ctx))
                    &&& forall|i: int|
                        #![trigger order[i]]
                        0 <= i < order.len() ==> if old(controller_storage)@.attached.contains(
                            order[i],
                        ) {
                            exists|c: &mut K, p: &mut ContextProxy<C, E, K>, id: ObjectId|
                                {
                                    &&& id@ == order[i]
                                    &&& *c == old(controller_storage).controller(order[i])
                                    &&& *final(c) == final(controller_storage).controller(order[i])
                                    &&& *p == states[i]
                                    &&& *final(p) == states[i + 1]
                                    &&& #[trigger] call_ensures(
                                        K::on_event,
                                        (c, event, param, id, p),
                                        (),
                                    )
                                }
                        } else {
                            states[i + 1] == states[i]
                        }
                },
    {
        let ids = self.listeners(event);
        let ghost order = ids@;
        let ghost attached = controller_storage@.attached;
        let ghost start = *controller_storage;
        let ghost mut states: Seq<ContextProxy<C, E, K>> = seq![*ctx];
        let mut i: usize = 0;
        proof {
            assert(self@.contains((event@, 0u32)) == self.listens(event@, 0));
        }
        while i < ids.len()
            invariant
                i <= ids@.len(),
                order == ids@,
                strictly_ascending(order),
                ctx.wf(),
                controller_storage.wf(),
                !order.contains(0),
                controller_storage@ == old(controller_storage)@,
                attached == old(controller_storage)@.attached,
                forall|id: u32| order.contains(id) <==> self@.contains((event@, id)),
                !reaches_controller(self@, old(controller_storage)@.attached, event@) ==> {
                    &&& *ctx == *old(ctx)
                    &&& controller_storage.same_controllers(old(controller_storage))
                },
                states.len() == i + 1,
                states[0] == *old(ctx),
                states[i as int] == *ctx,
                start == *old(controller_storage),
                forall|other: u32|
                    attached.contains(other) && (forall|j: int| 0 <= j < i ==> order[j] != other)
                        ==> #[trigger] controller_storage.controller(other) == start.controller(
                        other,
                    ),
                forall|k: int|
                    #![trigger order[k]]
                    0 <= k < i ==> if attached.contains(order[k]) {
                        exists|c: &mut K, p: &mut ContextProxy<C, E, K>, id: ObjectId|
                            {
                                &&& id@ == order[k]
                                &&& *c == old(controller_storage).controller(order[k])
                                &&& *final(c) == controller_storage.controller(order[k])
                                &&& *p == states[k]
                                &&& *final(p) == states[k + 1]
                                &&& #[trigger] call_ensures(
                                    K::on_event,
                                    (c, event, param, id, p),
                                    (),
                                )
                            }
                    } else {
                        states[k + 1] == states[k]
                    },
            decreases ids@.len() - i,
        {
            let ghost at = i as int;
            let ghost before = *controller_storage;
            let ghost states_before = states;
            proof {
                assert(order.contains(order[at]));
                assert forall|j: int| 0 <= j < at implies order[j] != order[at] by {}
                if attached.contains(order[at]) {
                    assert(before.controller(order[at]) == old(controller_storage).controller(
                        order[at],
                    ));
                }
            }
            controller_storage.send_event(ObjectId::new(ids[i]), event, param, ctx);
            proof {
                states = states.push(*ctx);
                let now = *controller_storage;
                assert forall|other: u32|
                    attached.contains(other) && (forall|j: int|
                        0 <= j < at + 1 ==> order[j] != other) implies #[trigger] now.controller(
                    other,
                ) == start.controller(other) by {
                    assert(order[at] != other);
                    assert forall|j: int| 0 <= j < at implies order[j] != other by {}
                }
                assert forall|k: int|
                    #![trigger order[k]]
                    0 <= k < at implies states[k] == states_before[k] && states[k + 1]
                    == states_before[k + 1] && (attached.contains(order[k])
                    ==> controller_storage.controller(order[k]) == before.controller(order[k])) by {
                    assert(order[k] != order[at]);
                }
            }
            i += 1;
        }
        proof {
            assert(event_runs(order, self@, event@, states, *old(ctx), *ctx));
            let now = *controller_storage;
            assert forall|id: u32|
                attached.contains(id) && !listeners_of(self@, event@).contains(
                    id,
                ) implies #[trigger] now.controller(id) == start.controller(id) by {
                assert forall|j: int| 0 <= j < order.len() implies order[j] != id by {
                    assert(order.contains(order[j]));
                }
            }
            assert(now.unlisted_as_in(&start, listeners_of(self@, event@)));
        }
    }
}

} // verus!
