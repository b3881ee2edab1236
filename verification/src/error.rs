use vstd::prelude::*;

verus! {

/// The recoverable faults that the kernel reports to its callers.
#[derive(Clone, Copy, Debug, PartialEq, Eq, Structural)]
pub enum SdmError {
    /// `allocate` asked for more tokens than the resource has free.
    InsufficientResource,
    /// `release` would push the free count past the resource's capacity.
    OverRelease,
    /// No entity in the set carries the requested identifier.
    NotFound,
    /// A push into a bounded entity set that is already full.
    CapacityExceeded,
}

} // verus!
