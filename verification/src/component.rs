//! What a component payload has to offer.

use vstd::prelude::*;

verus! {

/// The capabilities of a component payload.
///
/// A payload type may stand for several kinds of component (an enum with
/// one variant per kind); `type_tag` tells the kinds apart at run time.
/// The runtime asks for the tag once, when the component is wrapped, and
/// goes by that answer from then on.
pub trait Component {
    /// A name for display.
    fn name(&self) -> &'static str;

    /// The runtime type identity of this payload.
    fn type_tag(&self) -> u64;
}

} // verus!
