use object_system::slotmap::Bitmap;
use object_system::slotmap::SlotMap;
use object_system::Context;
use object_system::ContextProxy;
use object_system::Controller;
use object_system::ControllerStorage;
use object_system::EventReceiverStorage;
use object_system::ObjectId;
use object_system::ObjectStorage;
use std::cell::RefCell;
use std::rc::Rc;

#[test]
fn bitmap_tracks_free_slots() {
    let mut bitmap = Bitmap::new(4);
    assert_eq!(bitmap.index(), 4);
    assert!(bitmap.is_full());
    bitmap.mark_as_empty(63);
    bitmap.mark_as_empty(5);
    bitmap.mark_as_empty(17);
    assert!(!bitmap.is_full());
    assert_eq!(bitmap.find_first_empty_index(), 5);
    bitmap.mark_as_filled(5);
    assert_eq!(bitmap.find_first_empty_index(), 17);
    // Marking twice is the same as marking once.
    bitmap.mark_as_filled(5);
    bitmap.mark_as_empty(17);
    assert_eq!(bitmap.find_first_empty_index(), 17);
    bitmap.mark_as_filled(17);
    assert_eq!(bitmap.find_first_empty_index(), 63);
    bitmap.mark_as_filled(63);
    assert!(bitmap.is_full());
    bitmap.mark_as_empty(0);
    assert_eq!(bitmap.find_first_empty_index(), 0);
}

#[test]
fn new_slots_start_at_generation_one() {
    let mut map = SlotMap::new();
    assert_eq!(map.len(), 0);
    let a = map.add("a");
    let b = map.add("b");
    assert_eq!((a.index(), a.generation()), (0, 1));
    assert_eq!((b.index(), b.generation()), (1, 1));
    assert_eq!(map.len(), 2);
}

#[test]
fn reused_slot_gets_the_next_generation() {
    let mut map = SlotMap::new();
    let a = map.add(10);
    let b = map.add(20);
    let c = map.add(30);
    assert_eq!(map.remove(b), Some(20));
    assert_eq!(map.remove(a), Some(10));
    // The lowest free slot goes first.
    let d = map.add(40);
    assert_eq!((d.index(), d.generation()), (0, 2));
    let e = map.add(50);
    assert_eq!((e.index(), e.generation()), (1, 2));
    let f = map.add(60);
    assert_eq!((f.index(), f.generation()), (3, 1));
    assert_eq!(map.get(a), None);
    assert_eq!(map.get(b), None);
    assert_eq!(map.get(c), Some(&30));
    assert_eq!(map.get(d), Some(&40));
    assert_eq!(map.get(e), Some(&50));
    assert_eq!(map.get(f), Some(&60));
    assert_eq!(map.remove(d), Some(40));
    let g = map.add(70);
    assert_eq!((g.index(), g.generation()), (0, 3));
    assert!(g.generation() > d.generation());
    assert!(d.generation() > a.generation());
}

#[test]
fn removing_twice_gives_nothing() {
    let mut map = SlotMap::new();
    let a = map.add(1);
    assert_eq!(map.remove(a), Some(1));
    assert_eq!(map.remove(a), None);
    assert_eq!(map.len(), 0);
    let b = map.add(2);
    assert_eq!(map.remove(a), None);
    assert_eq!(map.get(b), Some(&2));
}

#[test]
fn get_mut_changes_the_value_in_place() {
    let mut map = SlotMap::new();
    let a = map.add(1);
    let b = map.add(2);
    *map.get_mut(a).unwrap() += 10;
    assert_eq!(map.get(a), Some(&11));
    assert_eq!(map.get(b), Some(&2));
    assert_eq!(map.remove(a), Some(11));
    assert!(map.get_mut(a).is_none());
    assert_eq!(map.get(b), Some(&2));
}

#[test]
fn free_list_spans_several_blocks() {
    let mut map = SlotMap::new();
    let mut ids = Vec::new();
    for value in 0..200u32 {
        ids.push(map.add(value));
    }
    // Free slots in three blocks, highest block first.
    for index in [130usize, 129, 70, 64, 63, 1] {
        assert_eq!(map.remove(ids[index]), Some(index as u32));
    }
    let mut reused = Vec::new();
    for value in 1000..1006u32 {
        let id = map.add(value);
        assert_eq!(id.generation(), 2);
        reused.push(id.index());
    }
    assert_eq!(reused, vec![1, 63, 64, 70, 129, 130]);
    // With the free list used up, new slots follow.
    assert_eq!(map.add(7).index(), 200);
    assert_eq!(map.len(), 201);
    for (index, id) in ids.iter().enumerate() {
        let expected = if [130usize, 129, 70, 64, 63, 1].contains(&index) {
            None
        } else {
            Some(index as u32)
        };
        assert_eq!(map.get(*id).copied(), expected);
    }
}

struct Quiet;

impl Controller<u8, ()> for Quiet {}

struct Recorder {
    log: Rc<RefCell<Vec<String>>>,
}

impl Controller<u8, ()> for Recorder {
    fn on_event(
        &mut self,
        event: &str,
        _param: &(),
        object_id: ObjectId,
        _ctx: &mut ContextProxy<u8, (), Self>,
    ) {
        self.log.borrow_mut().push(format!("{} {}", event, object_id.get()));
    }
}

#[test]
fn default_callbacks_do_nothing() {
    let mut context: Context<u8, (), Quiet> = Context::new();
    let object = context.create_object();
    context.with_proxy(|ctx| {
        ctx.attach_controller(object, Quiet);
        ctx.listen_on_update(object);
        ctx.listen_on_late_update(object);
        ctx.listen_event("e", object);
        ctx.emit_event("e", ());
    });
    context.proceed_one_frame();
    context.remove_object(object);
    assert!(context.find_object_by_id(object).is_none());
}

#[test]
fn event_store_keeps_listeners_in_order() {
    let mut events = EventReceiverStorage::new();
    events.listen("go".to_string(), ObjectId::new(9));
    events.listen("go".to_string(), ObjectId::new(2));
    events.listen("go".to_string(), ObjectId::new(5));
    events.listen("stop".to_string(), ObjectId::new(5));
    // Listening twice counts once.
    events.listen("go".to_string(), ObjectId::new(2));
    assert_eq!(events.listeners("go"), vec![2, 5, 9]);
    assert_eq!(events.listeners("stop"), vec![5]);
    assert_eq!(events.listeners("other"), Vec::<u32>::new());

    events.unlisten("go".to_string(), ObjectId::new(5));
    events.unlisten("go".to_string(), ObjectId::new(77));
    events.unlisten("never".to_string(), ObjectId::new(5));
    assert_eq!(events.listeners("go"), vec![2, 9]);
    assert_eq!(events.listeners("stop"), vec![5]);

    events.listen("stop".to_string(), ObjectId::new(2));
    events.unlisten_all(ObjectId::new(2));
    events.unlisten_all(ObjectId::new(77));
    assert_eq!(events.listeners("go"), vec![9]);
    assert_eq!(events.listeners("stop"), vec![5]);
    // The object can subscribe again afterwards.
    events.listen("go".to_string(), ObjectId::new(2));
    assert_eq!(events.listeners("go"), vec![2, 9]);
}

#[test]
fn controller_store_sends_events_to_attached_controllers_only() {
    let log = Rc::new(RefCell::new(Vec::new()));
    let mut context: Context<u8, (), Recorder> = Context::new();
    let with = context.create_object();
    let without = context.create_object();
    context.attach_controller(with, Recorder { log: log.clone() });
    context.with_proxy(|ctx| {
        ctx.listen_event("e", without);
        ctx.listen_event("e", with);
        ctx.emit_event("e", ());
    });
    assert_eq!(log.borrow().clone(), vec!["e 1"]);
}

#[test]
fn stores_start_empty() {
    let objects: ObjectStorage<u8> = ObjectStorage::new();
    assert!(objects.get(ObjectId::new(1)).is_none());
    assert!(objects.object_ids_with_component(1).is_none());
    let mut objects = objects;
    assert!(objects.get_mut(ObjectId::new(1)).is_none());

    let mut controllers: ControllerStorage<Quiet> = ControllerStorage::new();
    // Without a controller a subscription does not take.
    controllers.listen_on_update(ObjectId::new(1));
    controllers.listen_on_late_update(ObjectId::new(1));
    controllers.unlisten_on_update(ObjectId::new(1));
    controllers.unlisten_on_late_update(ObjectId::new(1));
}
