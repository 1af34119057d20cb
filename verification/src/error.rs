//! What can go wrong in the engine.
use vstd::prelude::*;

verus! {

/// The failures that the engine reports.
#[derive(Debug, Clone, Copy, PartialEq, Eq, Structural)]
pub enum Error {
    /// A stored record or document does not have the expected form.
    MalformedStore,
    /// No record of the log carries the identifier asked for.
    RecordNotFound,
}

} // verus!
