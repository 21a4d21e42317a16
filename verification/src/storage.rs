//! The stores behind the runtime.

pub mod controller_storage;
pub mod event_receiver_storage;
pub mod object_storage;

pub use controller_storage::ControllerStorage;
pub use controller_storage::ControllerStorageView;
pub use event_receiver_storage::EventReceiverStorage;
pub use object_storage::ObjectStorage;
pub use object_storage::ObjectStorageView;
