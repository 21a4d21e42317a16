use object_system::AnyComponent;
use object_system::Component;
use object_system::ComponentId;
use object_system::Context;
use object_system::Controller;
use object_system::ObjectId;

#[derive(Debug, PartialEq, Clone)]
enum Shape {
    Circle(u32),
    Square(u32),
}

const CIRCLE: u64 = 10;
const SQUARE: u64 = 20;

impl Component for Shape {
    fn name(&self) -> &'static str {
        match self {
            Shape::Circle(_) => "Circle",
            Shape::Square(_) => "Square",
        }
    }

    fn type_tag(&self) -> u64 {
        match self {
            Shape::Circle(_) => CIRCLE,
            Shape::Square(_) => SQUARE,
        }
    }
}

fn component(id: u32, shape: Shape) -> AnyComponent<Shape> {
    AnyComponent::new(ComponentId::new(id), shape)
}

struct Idle;

impl Controller<Shape, ()> for Idle {}

type Runtime = Context<Shape, (), Idle>;

/// A runtime whose third object holds two circles and two squares.
fn sample() -> (Runtime, ObjectId) {
    let mut context = Runtime::new();
    context.create_object();
    context.create_object();
    let object = context.create_object_with_components(vec![
        component(1, Shape::Circle(1)),
        component(2, Shape::Square(2)),
        component(3, Shape::Circle(3)),
        component(4, Shape::Square(4)),
    ]);
    (context, object)
}

#[test]
fn identifiers_keep_their_number() {
    assert_eq!(ObjectId::new(5).get(), 5);
    assert_eq!(ComponentId::new(9).get(), 9);
    assert_eq!(ObjectId::new(5), ObjectId::new(5));
    assert_ne!(ObjectId::new(5), ObjectId::new(6));
    assert!(ObjectId::new(5) < ObjectId::new(6));
    assert_eq!(format!("{:?}", ObjectId::new(5)), "ObjectId(5)");
}

#[test]
fn wrapper_records_the_type_once() {
    let mut wrapped = component(7, Shape::Circle(4));
    assert_eq!(wrapped.id(), ComponentId::new(7));
    assert_eq!(wrapped.name(), "Circle");
    assert_eq!(wrapped.type_id(), CIRCLE);
    assert!(wrapped.is_type_of(CIRCLE));
    assert!(!wrapped.is_type_of(SQUARE));
    assert_eq!(wrapped.downcast_ref(CIRCLE), Some(&Shape::Circle(4)));
    assert_eq!(wrapped.downcast_ref(SQUARE), None);
    assert_eq!(wrapped.downcast_mut(SQUARE), None);

    // The payload may change; the recorded type does not.
    *wrapped.downcast_mut(CIRCLE).unwrap() = Shape::Square(1);
    assert_eq!(wrapped.type_id(), CIRCLE);
    assert_eq!(wrapped.downcast_ref(CIRCLE), Some(&Shape::Square(1)));
    assert_eq!(wrapped.name(), "Square");

    let explicit = AnyComponent::with_type(ComponentId::new(8), 99, Shape::Circle(0));
    assert_eq!(explicit.type_id(), 99);
    assert_eq!(explicit.downcast_ref(99), Some(&Shape::Circle(0)));
    assert_eq!(explicit.downcast_ref(CIRCLE), None);
}

#[test]
fn object_finds_components_by_identifier() {
    let (context, id) = sample();
    let object = context.find_object_by_id(id).unwrap();
    assert_eq!(object.id(), ObjectId::new(3));
    assert_eq!(object.components().len(), 4);
    assert_eq!(
        object.find_component_by_id(ComponentId::new(2), SQUARE),
        Some(&Shape::Square(2))
    );
    // The component is there but of another type.
    assert_eq!(object.find_component_by_id(ComponentId::new(2), CIRCLE), None);
    assert_eq!(object.find_component_by_id(ComponentId::new(9), CIRCLE), None);
    assert!(object.has_component(ComponentId::new(4)));
    assert!(!object.has_component(ComponentId::new(5)));
}

#[test]
fn object_finds_components_by_type() {
    let (context, id) = sample();
    let object = context.find_object_by_id(id).unwrap();
    assert_eq!(object.find_component_by_type(CIRCLE), Some(&Shape::Circle(1)));
    assert_eq!(object.find_component_by_type(SQUARE), Some(&Shape::Square(2)));
    assert_eq!(object.find_component_by_type(77), None);
    assert_eq!(
        object.find_components_by_type(CIRCLE),
        vec![&Shape::Circle(1), &Shape::Circle(3)]
    );
    assert_eq!(object.find_components_by_type(77), Vec::<&Shape>::new());
    assert!(object.has_component_of_type(SQUARE));
    assert!(!object.has_component_of_type(77));
}

#[test]
fn object_hands_out_payloads_for_change() {
    let (mut context, id) = sample();
    let object = context.find_object_by_id_mut(id).unwrap();
    *object.find_component_by_id_mut(ComponentId::new(3), CIRCLE).unwrap() = Shape::Circle(30);
    assert!(object.find_component_by_id_mut(ComponentId::new(3), SQUARE).is_none());
    assert!(object.find_component_by_id_mut(ComponentId::new(9), SQUARE).is_none());
    *object.find_component_by_type_mut(SQUARE).unwrap() = Shape::Square(20);
    assert!(object.find_component_by_type_mut(77).is_none());
    for payload in object.find_components_by_type_mut(CIRCLE) {
        if let Shape::Circle(radius) = payload {
            *radius += 100;
        }
    }
    assert!(object.find_components_by_type_mut(77).is_empty());
    let shapes: Vec<Shape> = object
        .components()
        .iter()
        .map(|c| c.downcast_ref(c.type_id()).unwrap().clone())
        .collect();
    assert_eq!(
        shapes,
        vec![Shape::Circle(101), Shape::Square(20), Shape::Circle(130), Shape::Square(4)]
    );
}

#[test]
fn new_object_is_empty() {
    let mut context = Runtime::new();
    let id = context.create_object();
    let object = context.find_object_by_id(id).unwrap();
    assert_eq!(object.id().get(), 1);
    assert!(object.components().is_empty());
    assert_eq!(object.find_component_by_type(CIRCLE), None);
}
