use vstd::prelude::*;

verus! {

/// Why a reduction was refused or given up.
#[derive(Clone, Copy, Debug, PartialEq, Eq)]
pub enum DecimateError {
    /// The three input sequences are not equally long.
    LengthMismatch,
    /// More samples were asked for than the series holds.
    InsufficientPoints,
    /// The tolerance search used up its rounds without meeting the target.
    BinarySearchExhausted {
        /// Number of samples the last probe retained.
        last_count: usize,
        /// Middle of the interval that was left when the search stopped.
        last_tolerance: u64,
    },
    /// Index growth retained more samples than were asked for.
    OverCount,
    /// A retained index does not point into the series.
    IndexOutOfRange,
}

} // verus!
