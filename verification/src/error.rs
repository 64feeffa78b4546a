//! The kinds of failure an operation on partitions, tables and labels reports.

use vstd::prelude::*;

verus! {

/// Why an operation was refused. Every operation that returns one of these
/// leaves the state it was given exactly as it found it.
#[derive(Clone, Copy, Debug, PartialEq, Eq, Structural)]
pub enum Error {
    /// A field value makes no sense whatever the label, such as a size that
    /// overflows when added to the start.
    InvalidArgument,
    /// A partition's sectors fall outside the label's usable window.
    OutOfRange,
    /// Two partitions would share a sector.
    OverlapError,
    /// The label has no slot left for the request.
    TooManyPartitions,
    /// The partition number or partition handle names nothing in the
    /// container it was given to.
    NotFound,
    /// The active label format has no such operation.
    NotSupported,
    /// A device or resource failure.
    IOError,
}

} // verus!
