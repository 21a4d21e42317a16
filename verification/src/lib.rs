//! A runtime for a population of objects. An object is an aggregate of
//! typed components and may have a controller, which reacts to the two
//! passes of a frame and to named events.
//!
//! * [`slotmap`] is a generational arena: reusable slots behind
//!   identifiers that go stale when their slot is freed.
//! * [`Context`] owns the objects, controllers and event subscriptions.
//!   Everything that changes them goes through a transaction, a
//!   [`ContextProxy`]: objects and components change at once, while
//!   changes to controllers and subscriptions are queued and applied,
//!   in order, when the callback that asked for them has returned.
//!
//! The payload type of components, the payload type of events and the
//! type of controllers are parameters of the runtime. A program with
//! several kinds of component or controller makes one type of them, with
//! one variant per kind.

pub mod any_component;
pub mod component;
pub mod component_id;
pub mod context;
pub mod context_proxy;
pub mod controller;
pub mod object;
pub mod object_id;
pub mod slotmap;
pub mod sorted;
pub mod storage;

pub use any_component::AnyComponent;
pub use component::Component;
pub use component_id::ComponentId;
pub use context::Context;
pub use context_proxy::ContextProxy;
pub use controller::Controller;
pub use object::Object;
pub use object_id::ObjectId;
pub use storage::ControllerStorage;
pub use storage::EventReceiverStorage;
pub use storage::ObjectStorage;
