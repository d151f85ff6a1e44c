use vstd::prelude::*;

verus! {

/// The ways a buffer construction can be rejected.
///
/// No other operation fails: index-taking operations accept the full
/// integer range and wrap around by modular arithmetic.
#[derive(Clone, Copy, Debug, PartialEq, Eq, Structural)]
pub enum RingError {
    /// Construction was attempted with zero capacity (empty storage, or a
    /// zero-length rolling window).
    InvalidCapacity,
    /// The input sequence held fewer elements than the requested capacity.
    InsufficientInput,
}

} // verus!
