//! Typed measurements: a compile-time handle carrying a measurement's wire
//! name.

use vstd::prelude::*;

verus! {

/// A typed measurement: a zero-sized handle whose only content is the
/// measurement name events are recorded under.
pub trait TypedMeasurement: Clone + Copy {
    /// The measurement's wire name.
    fn name(&self) -> &'static str;
}

} // verus!
