//! A generational arena: values live in a packed array and are reached
//! through stable identifiers that go stale when their slot is freed.

pub mod arena;
pub mod bitmap;
pub mod id;
pub mod model;

pub use arena::SlotMap;
pub use bitmap::Bitmap;
pub use bitmap::BitmapType;
pub use id::SlotMapId;
pub use model::SlotMapView;
pub use model::SlotOp;
