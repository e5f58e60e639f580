//! Correlates satellite overpasses with a tropical-cyclone track.
//!
//! Times are whole seconds (element epochs, track fixes) or whole microseconds
//! (pass search), counted from 1970-01-01 UTC. Positions are tenths of a degree
//! and intensities whole knots, so every computation here is exact.
use vstd::prelude::*;

pub mod calendar;
pub mod digits;
pub mod bdeck;
pub mod orbital;
pub mod pipeline;
pub mod scan;
pub mod tle;

verus! {

/// An input field that does not hold what its format asks for.
#[derive(Debug, Clone, Copy, PartialEq, Eq)]
pub struct ParseError;

} // verus!
