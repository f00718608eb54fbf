//! Batched, multi-trial measurement of hardware performance counters.
//!
//! The crate discovers how many counters the processor can sample at once,
//! enumerates the measurable events of an external profiling tool, partitions
//! the events into counter-sized batches, and averages the values recorded
//! over several trials into one mean per event.

pub mod aggregate;
pub mod batch;
pub mod catalog;
pub mod perf;
pub mod pmu;
pub mod value;

use vstd::prelude::*;

verus! {

/// A fatal failure of one of the external collaborators.
///
/// A malformed measurement line is not an error value: such a line is
/// dropped and the run continues.
#[derive(Debug, Clone, Copy, PartialEq, Eq, Structural)]
pub enum PerfError {
    /// The capability probe has no implementation for this processor.
    HardwareUnsupported,
    /// The external profiling command could not be launched.
    ToolUnavailable,
    /// The event listing was malformed, or a listed record had no usable name.
    CatalogParseError,
}

} // verus!
