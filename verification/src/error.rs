use vstd::prelude::*;

verus! {

/// Why an operation of this crate was refused.
#[derive(Clone, Copy, Debug, PartialEq, Eq, Structural)]
pub enum KzgError {
    /// The requested domain size is not a power of two in the supported range.
    UnsupportedSize,
    /// The vector does not have exactly one entry per domain point.
    LengthMismatch,
    /// The index does not name a domain point.
    IndexOutOfRange,
    /// The domain has a single point, where no opening exists.
    DegenerateDomain,
}

} // verus!
