use object_system::Component;
use object_system::ComponentId;
use object_system::Context;
use object_system::ContextProxy;
use object_system::Controller;
use object_system::ObjectId;
use std::cell::RefCell;
use std::collections::HashSet;
use std::rc::Rc;

const COUNTER: u64 = 1;
const DUMMY: u64 = 2;

#[derive(Debug, PartialEq)]
enum Payload {
    Counter(usize),
    Dummy,
}

impl Component for Payload {
    fn name(&self) -> &'static str {
        match self {
            Payload::Counter(_) => "Counter",
            Payload::Dummy => "Dummy",
        }
    }

    fn type_tag(&self) -> u64 {
        match self {
            Payload::Counter(_) => COUNTER,
            Payload::Dummy => DUMMY,
        }
    }
}

type Log = Rc<RefCell<Vec<String>>>;

fn new_log() -> Log {
    Rc::new(RefCell::new(Vec::new()))
}

fn entries(log: &Log) -> Vec<String> {
    log.borrow().clone()
}

type Proxy = ContextProxy<Payload, u32, Script>;

/// A controller that writes what happens to it into a log and can be told
/// what to do in each callback.
struct Script {
    name: &'static str,
    log: Log,
    subscribe: bool,
    events: Vec<&'static str>,
    counter: Option<ComponentId>,
    emit_on_update: Option<&'static str>,
    remove_self_on_update: bool,
    clear_on_event: bool,
}

impl Script {
    fn new(name: &'static str, log: &Log) -> Self {
        Script {
            name,
            log: log.clone(),
            subscribe: true,
            events: Vec::new(),
            counter: None,
            emit_on_update: None,
            remove_self_on_update: false,
            clear_on_event: false,
        }
    }

    fn say(&self, what: &str) {
        self.log.borrow_mut().push(format!("{} {}", self.name, what));
    }

    fn count(&self, object_id: ObjectId, ctx: &mut Proxy) -> Option<usize> {
        let component_id = self.counter?;
        let object = ctx.find_object_by_id_mut(object_id)?;
        match object.find_component_by_id_mut(component_id, COUNTER)? {
            Payload::Counter(n) => Some(*n),
            Payload::Dummy => None,
        }
    }

    fn set_count(&self, object_id: ObjectId, ctx: &mut Proxy, value: usize) {
        if let Some(component_id) = self.counter {
            let object = ctx.find_object_by_id_mut(object_id).unwrap();
            let payload = object.find_component_by_id_mut(component_id, COUNTER).unwrap();
            *payload = Payload::Counter(value);
        }
    }
}

impl Controller<Payload, u32> for Script {
    fn on_ready(&mut self, object_id: ObjectId, ctx: &mut Proxy) {
        self.say("ready");
        if self.subscribe {
            ctx.listen_on_update(object_id);
            ctx.listen_on_late_update(object_id);
        }
        for event in &self.events {
            ctx.listen_event(event, object_id);
        }
    }

    fn on_destroy(&mut self, _object_id: ObjectId, _ctx: &mut Proxy) {
        self.say("destroy");
    }

    fn on_update(&mut self, object_id: ObjectId, ctx: &mut Proxy) {
        if let Some(n) = self.count(object_id, ctx) {
            self.set_count(object_id, ctx, n + 1);
            self.say(&format!("update {}", n + 1));
        } else {
            self.say("update");
        }
        if let Some(event) = self.emit_on_update {
            ctx.emit_event(event, 7);
            self.say("emitted");
        }
        if self.remove_self_on_update {
            ctx.remove_object(object_id);
        }
    }

    fn on_late_update(&mut self, object_id: ObjectId, ctx: &mut Proxy) {
        match self.count(object_id, ctx) {
            Some(n) => self.say(&format!("late {}", n)),
            None => self.say("late"),
        }
    }

    fn on_event(&mut self, event: &str, param: &u32, object_id: ObjectId, ctx: &mut Proxy) {
        self.say(&format!("event {} {}", event, param));
        if self.clear_on_event {
            self.set_count(object_id, ctx, 0);
        }
    }
}

fn holders(ctx: &Proxy, type_id: u64) -> Option<HashSet<u32>> {
    ctx.find_object_ids_by_component_type(type_id).cloned()
}

fn set(ids: &[ObjectId]) -> Option<HashSet<u32>> {
    Some(ids.iter().map(|id| id.get()).collect())
}

#[test]
fn counters_start_at_one_and_grow() {
    let mut context: Context<Payload, u32, Script> = Context::new();
    let (a, b, c1, c2) = context.with_proxy(|ctx| {
        let a = ctx.create_object();
        let b = ctx.create_object();
        let c1 = ctx.add_component(a, Payload::Dummy).unwrap();
        let c2 = ctx.add_component(b, Payload::Counter(0)).unwrap();
        (a, b, c1, c2)
    });
    assert_eq!(a.get(), 1);
    assert_eq!(b.get(), 2);
    assert_eq!(c1.get(), 1);
    assert_eq!(c2.get(), 2);
    let c = context.with_proxy(|ctx| ctx.create_object());
    assert_eq!(c.get(), 3);
}

#[test]
fn add_component_to_missing_object_changes_nothing() {
    let mut context: Context<Payload, u32, Script> = Context::new();
    context.with_proxy(|ctx| {
        let a = ctx.create_object();
        assert_eq!(ctx.add_component(ObjectId::new(99), Payload::Dummy), None);
        // The counter did not move: the next component is number 1.
        assert_eq!(ctx.add_component(a, Payload::Dummy).unwrap().get(), 1);
        assert!(ctx.find_object_by_id(ObjectId::new(99)).is_none());
    });
}

#[test]
fn type_index_follows_components_and_objects() {
    let mut context: Context<Payload, u32, Script> = Context::new();
    let (first, second, empty, dummy, dummy_component) = context.with_proxy(|ctx| {
        let first = ctx.create_object();
        ctx.add_component(first, Payload::Counter(0)).unwrap();
        ctx.add_component(first, Payload::Counter(0)).unwrap();
        let second = ctx.create_object();
        ctx.add_component(second, Payload::Counter(0)).unwrap();
        let empty = ctx.create_object();
        let dummy = ctx.create_object();
        let dummy_component = ctx.add_component(dummy, Payload::Dummy).unwrap();
        (first, second, empty, dummy, dummy_component)
    });

    context.with_proxy(|ctx| {
        assert_eq!(holders(ctx, COUNTER), set(&[first, second]));
        assert_eq!(holders(ctx, DUMMY), set(&[dummy]));
        // A type that no object ever registered.
        assert_eq!(holders(ctx, 77), None);
    });

    context.with_proxy(|ctx| {
        ctx.add_component(empty, Payload::Dummy).unwrap();
        ctx.remove_component(dummy, dummy_component);
        assert_eq!(holders(ctx, DUMMY), set(&[empty]));
        // Removing a component that is not there changes nothing.
        ctx.remove_component(dummy, dummy_component);
        ctx.remove_component(ObjectId::new(99), dummy_component);
        assert_eq!(holders(ctx, DUMMY), set(&[empty]));
        assert_eq!(holders(ctx, COUNTER), set(&[first, second]));
    });

    context.with_proxy(|ctx| {
        ctx.remove_object(empty);
        ctx.remove_object(dummy);
        // Removal waits for the end of the transaction.
        assert!(ctx.find_object_by_id(empty).is_some());
        assert_eq!(holders(ctx, DUMMY), set(&[empty]));
    });

    context.with_proxy(|ctx| {
        assert!(ctx.find_object_by_id(empty).is_none());
        assert!(ctx.find_object_by_id(dummy).is_none());
        // The type stays registered, with no object left.
        assert_eq!(holders(ctx, DUMMY), set(&[]));
        assert_eq!(holders(ctx, COUNTER), set(&[first, second]));
    });
}

#[test]
fn object_stays_indexed_while_it_holds_another_component_of_the_type() {
    let mut context: Context<Payload, u32, Script> = Context::new();
    context.with_proxy(|ctx| {
        let object = ctx.create_object();
        let one = ctx.add_component(object, Payload::Counter(1)).unwrap();
        let two = ctx.add_component(object, Payload::Counter(2)).unwrap();
        ctx.remove_component(object, one);
        assert_eq!(holders(ctx, COUNTER), set(&[object]));
        let held = ctx.find_object_by_id(object).unwrap();
        assert_eq!(held.components().len(), 1);
        assert_eq!(held.find_component_by_type(COUNTER), Some(&Payload::Counter(2)));
        ctx.remove_component(object, two);
        assert_eq!(holders(ctx, COUNTER), set(&[]));
        assert_eq!(ctx.find_object_by_id(object).unwrap().components().len(), 0);
    });
}

#[test]
fn removing_a_component_keeps_the_order_of_the_others() {
    let mut context: Context<Payload, u32, Script> = Context::new();
    context.with_proxy(|ctx| {
        let object = ctx.create_object();
        let first = ctx.add_component(object, Payload::Counter(1)).unwrap();
        let second = ctx.add_component(object, Payload::Counter(2)).unwrap();
        let third = ctx.add_component(object, Payload::Dummy).unwrap();
        let fourth = ctx.add_component(object, Payload::Counter(4)).unwrap();
        ctx.remove_component(object, first);
        let held = ctx.find_object_by_id(object).unwrap();
        let order: Vec<ComponentId> = held.components().iter().map(|c| c.id()).collect();
        assert_eq!(order, vec![second, third, fourth]);
        assert_eq!(held.find_component_by_type(COUNTER), Some(&Payload::Counter(2)));
        assert_eq!(
            held.find_components_by_type(COUNTER),
            vec![&Payload::Counter(2), &Payload::Counter(4)]
        );
        ctx.remove_component(object, third);
        let held = ctx.find_object_by_id(object).unwrap();
        let order: Vec<ComponentId> = held.components().iter().map(|c| c.id()).collect();
        assert_eq!(order, vec![second, fourth]);
        assert_eq!(holders(ctx, DUMMY), set(&[]));
        assert_eq!(holders(ctx, COUNTER), set(&[object]));
    });
}

#[test]
fn create_object_with_components_registers_their_types() {
    let mut context: Context<Payload, u32, Script> = Context::new();
    context.with_proxy(|ctx| {
        let components = vec![
            object_system::AnyComponent::new(ComponentId::new(10), Payload::Counter(5)),
            object_system::AnyComponent::new(ComponentId::new(11), Payload::Dummy),
        ];
        let object = ctx.create_object_with_components(components);
        assert_eq!(object.get(), 1);
        assert_eq!(holders(ctx, COUNTER), set(&[object]));
        assert_eq!(holders(ctx, DUMMY), set(&[object]));
        let held = ctx.find_object_by_id(object).unwrap();
        assert_eq!(held.id(), object);
        assert_eq!(
            held.find_component_by_id(ComponentId::new(10), COUNTER),
            Some(&Payload::Counter(5))
        );
    });
}

#[test]
fn controller_hot_swap() {
    let log = new_log();
    let mut context: Context<Payload, u32, Script> = Context::new();
    let object = context.with_proxy(|ctx| {
        let object = ctx.create_object();
        ctx.attach_controller(object, Script::new("first", &log));
        object
    });
    assert_eq!(entries(&log), vec!["first ready"]);

    let second = Script::new("second", &log);
    context.with_proxy(|ctx| ctx.attach_controller(object, second));
    assert_eq!(entries(&log), vec!["first ready", "first destroy", "second ready"]);

    log.borrow_mut().clear();
    context.proceed_one_frame();
    assert_eq!(entries(&log), vec!["second update", "second late"]);
}

#[test]
fn update_precedes_late_update_in_every_frame() {
    let log = new_log();
    let mut context: Context<Payload, u32, Script> = Context::new();
    context.with_proxy(|ctx| {
        let object = ctx.create_object();
        let counter = ctx.add_component(object, Payload::Counter(0)).unwrap();
        let mut script = Script::new("c", &log);
        script.counter = Some(counter);
        ctx.attach_controller(object, script);
    });
    log.borrow_mut().clear();
    context.proceed_one_frame();
    context.proceed_one_frame();
    context.proceed_one_frame();
    assert_eq!(
        entries(&log),
        vec!["c update 1", "c late 1", "c update 2", "c late 2", "c update 3", "c late 3"]
    );
}

#[test]
fn object_removed_from_its_own_update() {
    let log = new_log();
    let mut context: Context<Payload, u32, Script> = Context::new();
    let object = context.with_proxy(|ctx| {
        let object = ctx.create_object();
        ctx.add_component(object, Payload::Dummy).unwrap();
        let mut script = Script::new("c", &log);
        script.remove_self_on_update = true;
        script.events = vec!["ping"];
        ctx.attach_controller(object, script);
        object
    });
    log.borrow_mut().clear();
    context.proceed_one_frame();
    // The controller was told once, before the late-update pass, and is gone.
    assert_eq!(entries(&log), vec!["c update", "c destroy"]);
    context.with_proxy(|ctx| {
        assert!(ctx.find_object_by_id(object).is_none());
        assert_eq!(holders(ctx, DUMMY), set(&[]));
        ctx.emit_event("ping", 1);
    });
    context.proceed_one_frame();
    assert_eq!(entries(&log), vec!["c update", "c destroy"]);
}

#[test]
fn event_is_handled_after_the_pass_that_sent_it() {
    let log = new_log();
    let mut context: Context<Payload, u32, Script> = Context::new();
    let (receiver, counter) = context.with_proxy(|ctx| {
        let sender = ctx.create_object();
        let mut script = Script::new("sender", &log);
        script.emit_on_update = Some("clear");
        ctx.attach_controller(sender, script);

        let receiver = ctx.create_object();
        let counter = ctx.add_component(receiver, Payload::Counter(40)).unwrap();
        let mut script = Script::new("receiver", &log);
        script.subscribe = false;
        script.events = vec!["clear"];
        script.counter = Some(counter);
        script.clear_on_event = true;
        ctx.attach_controller(receiver, script);
        (receiver, counter)
    });
    log.borrow_mut().clear();
    context.proceed_one_frame();
    assert_eq!(
        entries(&log),
        vec!["sender update", "sender emitted", "receiver event clear 7", "sender late"]
    );
    context.with_proxy(|ctx| {
        let object = ctx.find_object_by_id(receiver).unwrap();
        assert_eq!(object.find_component_by_id(counter, COUNTER), Some(&Payload::Counter(0)));
    });
}

#[test]
fn emit_reaches_listeners_in_ascending_order() {
    let log = new_log();
    let mut context: Context<Payload, u32, Script> = Context::new();
    context.with_proxy(|ctx| {
        let a = ctx.create_object();
        let b = ctx.create_object();
        let c = ctx.create_object();
        for (object, name) in [(c, "c"), (a, "a"), (b, "b")] {
            let mut script = Script::new(name, &log);
            script.subscribe = false;
            script.events = vec!["go"];
            ctx.attach_controller(object, script);
        }
    });
    log.borrow_mut().clear();
    context.with_proxy(|ctx| ctx.emit_event("go", 3));
    assert_eq!(entries(&log), vec!["a event go 3", "b event go 3", "c event go 3"]);
    // No listener: nothing happens.
    context.with_proxy(|ctx| ctx.emit_event("nobody", 3));
    assert_eq!(entries(&log).len(), 3);
}

#[test]
fn detach_unsubscribes_from_passes_and_events() {
    let log = new_log();
    let mut context: Context<Payload, u32, Script> = Context::new();
    let object = context.with_proxy(|ctx| {
        let object = ctx.create_object();
        let mut script = Script::new("c", &log);
        script.events = vec!["go"];
        ctx.attach_controller(object, script);
        object
    });
    context.with_proxy(|ctx| ctx.detach_controller(object));
    assert_eq!(entries(&log), vec!["c ready", "c destroy"]);
    // A later controller on the same object starts without subscriptions.
    let mut quiet = Script::new("quiet", &log);
    quiet.subscribe = false;
    context.with_proxy(|ctx| ctx.attach_controller(object, quiet));
    log.borrow_mut().clear();
    context.proceed_one_frame();
    context.with_proxy(|ctx| ctx.emit_event("go", 1));
    assert_eq!(entries(&log), Vec::<String>::new());
    // Detaching where nothing is attached is a no-op.
    context.with_proxy(|ctx| ctx.detach_controller(ObjectId::new(50)));
}

#[test]
fn subscription_without_controller_is_ignored() {
    let log = new_log();
    let mut context: Context<Payload, u32, Script> = Context::new();
    let object = context.with_proxy(|ctx| {
        let object = ctx.create_object();
        ctx.listen_on_update(object);
        ctx.listen_on_late_update(object);
        object
    });
    let mut quiet = Script::new("quiet", &log);
    quiet.subscribe = false;
    context.with_proxy(|ctx| ctx.attach_controller(object, quiet));
    log.borrow_mut().clear();
    context.proceed_one_frame();
    assert_eq!(entries(&log), Vec::<String>::new());
    // With a controller attached the subscription takes, and can be undone.
    context.with_proxy(|ctx| ctx.listen_on_update(object));
    context.proceed_one_frame();
    assert_eq!(entries(&log), vec!["quiet update"]);
    context.with_proxy(|ctx| {
        ctx.unlisten_on_update(object);
        ctx.unlisten_on_late_update(object);
    });
    context.proceed_one_frame();
    assert_eq!(entries(&log), vec!["quiet update"]);
}

#[test]
fn event_subscriptions_can_be_undone() {
    let log = new_log();
    let mut context: Context<Payload, u32, Script> = Context::new();
    let object = context.with_proxy(|ctx| {
        let object = ctx.create_object();
        let mut script = Script::new("c", &log);
        script.subscribe = false;
        script.events = vec!["one", "two", "one"];
        ctx.attach_controller(object, script);
        object
    });
    log.borrow_mut().clear();
    context.with_proxy(|ctx| {
        ctx.unlisten_event("one", object);
        ctx.unlisten_event("never", object);
        ctx.emit_event("one", 1);
        ctx.emit_event("two", 2);
    });
    assert_eq!(entries(&log), vec!["c event two 2"]);
    context.with_proxy(|ctx| {
        ctx.unlisten_event_all(object);
        ctx.emit_event("two", 2);
    });
    assert_eq!(entries(&log), vec!["c event two 2"]);
}

#[test]
fn frame_without_subscribers_changes_nothing() {
    let mut context: Context<Payload, u32, Script> = Context::new();
    let object = context.create_object();
    context.add_component(object, Payload::Counter(9)).unwrap();
    context.proceed_one_frame();
    context.proceed_one_frame();
    let held = context.find_object_by_id(object).unwrap();
    assert_eq!(held.find_component_by_type(COUNTER), Some(&Payload::Counter(9)));
    // The counters did not move either.
    assert_eq!(context.create_object().get(), 2);
    assert_eq!(context.add_component(object, Payload::Dummy).unwrap().get(), 2);
}

#[test]
fn direct_operations_are_one_step_transactions() {
    let log = new_log();
    let mut context: Context<Payload, u32, Script> = Context::new();
    let object = context.create_object();
    assert_eq!(object.get(), 1);
    let counter = context.add_component(object, Payload::Counter(1)).unwrap();
    assert_eq!(counter.get(), 1);
    assert_eq!(context.add_component(ObjectId::new(7), Payload::Dummy), None);

    match context.find_object_by_id_mut(object).unwrap().find_component_by_id_mut(counter, COUNTER) {
        Some(payload) => *payload = Payload::Counter(5),
        None => panic!("the counter is there"),
    }
    assert_eq!(
        context.find_object_by_id(object).unwrap().find_component_by_id(counter, COUNTER),
        Some(&Payload::Counter(5))
    );
    assert!(context.find_object_by_id_mut(ObjectId::new(7)).is_none());

    let mut script = Script::new("c", &log);
    script.counter = Some(counter);
    context.attach_controller(object, script);
    context.proceed_one_frame();
    assert_eq!(entries(&log), vec!["c ready", "c update 6", "c late 6"]);

    context.detach_controller(object);
    context.proceed_one_frame();
    assert_eq!(entries(&log), vec!["c ready", "c update 6", "c late 6", "c destroy"]);

    context.remove_component(object, counter);
    assert_eq!(context.find_object_by_id(object).unwrap().components().len(), 0);
    context.remove_object(object);
    assert!(context.find_object_by_id(object).is_none());
    // Removing what is not there is a no-op.
    context.remove_object(object);

    let with = context.create_object_with_components(vec![object_system::AnyComponent::new(
        ComponentId::new(40),
        Payload::Dummy,
    )]);
    assert_eq!(with.get(), 2);
    assert_eq!(context.find_object_by_id(with).unwrap().components().len(), 1);
}

#[test]
fn controller_can_outlive_the_removal_of_its_object_in_the_same_drain() {
    let log = new_log();
    let mut context: Context<Payload, u32, Script> = Context::new();
    let object = context.create_object();
    context.with_proxy(|ctx| {
        ctx.attach_controller(object, Script::new("first", &log));
        ctx.remove_object(object);
        ctx.attach_controller(object, Script::new("second", &log));
    });
    // The first controller was told before the object went; the second one
    // was attached after the removal was noted and stays, with the
    // subscriptions it asked for in `on_ready`.
    assert_eq!(entries(&log), vec!["first ready", "first destroy", "second ready"]);
    assert!(context.find_object_by_id(object).is_none());
    log.borrow_mut().clear();
    context.proceed_one_frame();
    assert_eq!(entries(&log), vec!["second update", "second late"]);
}

#[test]
fn event_waits_for_every_update_of_the_pass() {
    let log = new_log();
    let mut context: Context<Payload, u32, Script> = Context::new();
    context.with_proxy(|ctx| {
        for name in ["a", "b", "c"] {
            let object = ctx.create_object();
            let mut script = Script::new(name, &log);
            script.emit_on_update = Some("tick");
            script.events = vec!["tick"];
            ctx.attach_controller(object, script);
        }
    });
    log.borrow_mut().clear();
    context.proceed_one_frame();
    let seen = entries(&log);
    // Three updates with their three emissions, then three events to each
    // of the three listeners, then three late updates.
    assert_eq!(seen.len(), 6 + 9 + 3);
    for (position, line) in seen.iter().enumerate() {
        if position < 6 {
            assert!(line.ends_with("update") || line.ends_with("emitted"), "{}", line);
        } else if position < 15 {
            assert!(line.ends_with("event tick 7"), "{}", line);
        } else {
            assert!(line.ends_with("late"), "{}", line);
        }
    }
    // Each event reaches its listeners in the order of their identifiers.
    let events: Vec<&str> = seen[6..15].iter().map(|line| &line[..1]).collect();
    assert_eq!(events, vec!["a", "b", "c", "a", "b", "c", "a", "b", "c"]);
}
