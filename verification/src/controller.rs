//! The behaviour that can be attached to an object.

use vstd::prelude::*;
use crate::context_proxy::ContextProxy;
use crate::object_id::ObjectId;

verus! {

/// The callbacks of a controller. Each one gets the identifier of the
/// object it is attached to and the running transaction; by default it
/// does nothing.
///
/// A callback is handed a well-formed transaction and has to leave it
/// well formed. No operation of the transaction or of an object does
/// otherwise, so an implementation that works through them meets this.
/// What it must not do is exchange whole objects or transactions of one
/// runtime with those of another. The runtime relies on this and does
/// not check it.
///
/// `C` is the payload type of components and `E` the payload type of
/// events. A program with several kinds of controller makes one type of
/// them, with one variant per kind.
pub trait Controller<C, E>: Sized {
    /// Called once the controller is attached.
    fn on_ready(&mut self, object_id: ObjectId, ctx: &mut ContextProxy<C, E, Self>)
        requires
            old(ctx).wf(),
        ensures
            final(ctx).wf(),
    {
    }

    /// Called before the controller is dropped: when it is detached,
    /// replaced, or its object removed.
    fn on_destroy(&mut self, object_id: ObjectId, ctx: &mut ContextProxy<C, E, Self>)
        requires
            old(ctx).wf(),
        ensures
            final(ctx).wf(),
    {
    }

    /// Called in the update pass of every frame, while subscribed.
    fn on_update(&mut self, object_id: ObjectId, ctx: &mut ContextProxy<C, E, Self>)
        requires
            old(ctx).wf(),
        ensures
            final(ctx).wf(),
    {
    }

    /// Called in the late-update pass of every frame, while subscribed.
    fn on_late_update(&mut self, object_id: ObjectId, ctx: &mut ContextProxy<C, E, Self>)
        requires
            old(ctx).wf(),
        ensures
            final(ctx).wf(),
    {
    }

    /// Called when an event that the object is subscribed to is sent.
    fn on_event(
        &mut self,
        event: &str,
        param: &E,
        object_id: ObjectId,
        ctx: &mut ContextProxy<C, E, Self>,
    )
        requires
            old(ctx).wf(),
        ensures
            final(ctx).wf(),
    {
    }
}

} // verus!
