//! The ways in which aggregation and reporting fail.

use vstd::prelude::*;

verus! {

/// A fatal condition: no failure is recovered from, every one ends the run.
#[derive(Clone, Copy, Debug, PartialEq, Eq, Structural)]
pub enum Error {
    /// An event lacks its editor id, its editor name, or a timestamp that names a calendar day.
    MalformedEvent,
    /// No event was seen, so there is no observed day range to report on.
    EmptyInput,
    /// The requested report span is inverted once clamped to the observed
    /// day range, or its start leaves the calendar.
    ConfigurationRange,
}

} // verus!
