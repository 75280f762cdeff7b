//! Errors shared by all structures of the crate.

use vstd::prelude::*;

verus! {

/// What can go wrong in an operation on a landfill or one of its structures.
#[derive(Debug)]
pub enum FillError {
    /// The operating system refused a mapping or a flush; the error is
    /// handed on as it came.
    Io(std::io::Error),
    /// The directory holds the lock file of a landfill that is open.
    Locked,
    /// A name was claimed a second time within one landfill.
    Duplicate,
    /// A write would have crossed the boundary between two lanes.
    CrossLane,
    /// The request lies beyond what the lanes of an arena can address.
    OutOfSpace,
    /// A file of a landfill on disk is needed and has not been supplied.
    /// Nothing was changed: supply the file and repeat the call.
    Unmapped { name: String, size: u64 },
    /// A file that waits in the landfill has another length than the
    /// structure that claims it expects. Nothing was changed: set the
    /// length of the file to `size` bytes, hand it back with
    /// [`crate::Landfill::put_back`] and repeat the call.
    SizeMismatch { name: String, size: u64 },
    /// A static file is shorter than the value that is to be read from it.
    Truncated,
    /// The base lane size of an arena is zero or too large for its lanes
    /// to be addressed.
    BadLaneSize,
    /// A record has another length than the array's slots, or is all zero
    /// where a value has to be present.
    BadRecord,
    /// Every band of the search pattern was walked without finding a free
    /// slot.
    Exhausted,
}

} // verus!
