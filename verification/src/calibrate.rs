use vstd::prelude::*;
use crate::curve::Curve;
use crate::error::DecimateError;

verus! {

/// Number of probes that a tolerance search makes unless told otherwise.
pub const MAX_BINARY_SEARCH_ITERATIONS: usize = 500;

/// A tolerance search under way, as contracts see it.
pub struct CalibratorView {
    /// Number of samples that the result must have.
    pub target: nat,
    /// A tolerance that retains too many samples, or zero.
    pub lower: u64,
    /// A tolerance that retains too few samples, or the first upper bound.
    pub upper: u64,
    /// Number of probes that may still be made.
    pub rounds_left: nat,
    /// Number of samples that the last probe retained; 0 before the first.
    pub last_count: nat,
}

/// The state after a probe at tolerance `middle` retained `count` samples:
/// too many raise the lower bound to `middle`, too few lower the upper bound
/// to it, and one round is used up.
pub open spec fn bisected(v: CalibratorView, middle: u64, count: nat) -> CalibratorView {
    CalibratorView {
        target: v.target,
        lower: if count > v.target {
            middle
        } else {
            v.lower
        },
        upper: if count < v.target {
            middle
        } else {
            v.upper
        },
        rounds_left: (v.rounds_left - 1) as nat,
        last_count: count,
    }
}

/// The search for a tolerance at which a reduction retains exactly as many
/// samples as were asked for.
///
/// It holds the interval of tolerances that is left. Whoever drives it
/// reduces the series at the middle of the interval and shows the result
/// (`observe`); the search keeps the half in which the target must lie.
#[derive(Debug)]
pub struct Calibrator {
    target: usize,
    lower: u64,
    upper: u64,
    rounds_left: usize,
    last_count: usize,
}

impl View for Calibrator {
    type V = CalibratorView;

    closed spec fn view(&self) -> CalibratorView {
        CalibratorView {
            target: self.target as nat,
            lower: self.lower,
            upper: self.upper,
            rounds_left: self.rounds_left as nat,
            last_count: self.last_count as nat,
        }
    }
}

impl Calibrator {
    /// Begins a search for `target` samples in a series whose three columns
    /// have the given lengths, between tolerance zero and `upper`, with at
    /// most `rounds` probes.
    ///
    /// Refuses a target above the number of timestamps first, then columns of
    /// different lengths.
    pub fn start(
        timestamps_len: usize,
        x_len: usize,
        y_len: usize,
        target: usize,
        upper: u64,
        rounds: usize,
    ) -> (r: Result<Calibrator, DecimateError>)
        ensures
            timestamps_len < target <==> r == Err::<Calibrator, DecimateError>(
                DecimateError::InsufficientPoints,
            ),
            (timestamps_len >= target && (timestamps_len != x_len || timestamps_len != y_len))
                <==> r == Err::<Calibrator, DecimateError>(DecimateError::LengthMismatch),
            (timestamps_len >= target && timestamps_len == x_len && timestamps_len == y_len)
                <==> r is Ok,
            r is Ok ==> r->Ok_0@ == (CalibratorView {
                target: target as nat,
                lower: 0,
                upper,
                rounds_left: rounds as nat,
                last_count: 0,
            }),
    {
        if timestamps_len < target {
            return Err(DecimateError::InsufficientPoints);
        }
        if timestamps_len != x_len || timestamps_len != y_len {
            return Err(DecimateError::LengthMismatch);
        }
        Ok(Calibrator { target, lower: 0, upper, rounds_left: rounds, last_count: 0 })
    }

    /// The interval that is left: its lower and its upper end.
    pub fn bounds(&self) -> (ends: (u64, u64))
        ensures
            ends == (self@.lower, self@.upper),
    {
        (self.lower, self.upper)
    }

    /// Number of probes that may still be made.
    pub fn rounds_left(&self) -> (n: usize)
        ensures
            n == self@.rounds_left,
    {
        self.rounds_left
    }

    /// Takes the series that a reduction at tolerance `middle` gave.
    ///
    /// While rounds are left, a series of exactly the target's length is
    /// handed back as the result, and any other moves the bound on its side
    /// to `middle`. Without a round left the series is turned down and
    /// nothing changes.
    pub fn observe(&mut self, middle: u64, probe: Curve) -> (found: Option<Curve>)
        ensures
            old(self)@.rounds_left == 0 ==> final(self)@ == old(self)@ && found.is_none(),
            old(self)@.rounds_left > 0 ==> final(self)@ == bisected(
                old(self)@,
                middle,
                probe@.len(),
            ),
            old(self)@.rounds_left > 0 && probe@.len() == old(self)@.target ==> found == Some(
                probe,
            ),
            probe@.len() != old(self)@.target ==> found.is_none(),
    {
        if self.rounds_left == 0 {
            return None;
        }
        let count: usize = probe.len();
        self.rounds_left = self.rounds_left - 1;
        self.last_count = count;
        if count == self.target {
            Some(probe)
        } else {
            if count > self.target {
                self.lower = middle;
            } else {
                self.upper = middle;
            }
            None
        }
    }

    /// The failure of a search that has no round left: the number of samples
    /// that the last probe retained, and `middle`, the middle of the interval
    /// that is left.
    pub fn exhausted(&self, middle: u64) -> (e: DecimateError)
        ensures
            e == (DecimateError::BinarySearchExhausted {
                last_count: self@.last_count as usize,
                last_tolerance: middle,
            }),
    {
        DecimateError::BinarySearchExhausted { last_count: self.last_count, last_tolerance: middle }
    }
}

} // verus!
