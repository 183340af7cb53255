//! Shape-preserving reduction of sampled curves.
//!
//! A curve is an ordered series of samples `(timestamp, x, y)`. The library
//! decides which samples of a dense series survive a reduction. It never
//! computes with the coordinates themselves: every sample value is carried as
//! an opaque 64-bit word, and every geometric quantity (how far a sample lies
//! from a chord, how long a step is, where the middle of two tolerances lies)
//! reaches it as a `u64` score whose numeric order is the order of the
//! quantity it stands for. Score 0 is the least: no deviation at all.
//!
//! What comes out is always a part of what went in, in the same order: the
//! samples at indices that rise strictly from the first sample to the last
//! (`indices`).
//!
//! Three reductions are offered. `decimate_by_tolerance` retains what
//! deviates from its chord by more than a tolerance, `decimate_to_count`
//! searches for the tolerance that retains a given number of samples, and
//! `decimate` grows the retained samples one by one up to that number. Each
//! takes the measurements as functions that it calls, and each is built on a
//! small state machine (`tolerance`, `calibrate`, `select`) that names the
//! chord whose interior has to be measured next, takes the scores, and
//! decides what is retained. Whoever cannot hand over a function drives the
//! state machine directly.
pub mod error;
pub mod curve;
pub mod scan;
pub mod indices;
pub mod tolerance;
pub mod calibrate;
pub mod select;

use vstd::prelude::*;
use crate::calibrate::{bisected, Calibrator, MAX_BINARY_SEARCH_ITERATIONS};
use crate::curve::{picked, zip3, Curve};
use crate::error::DecimateError;
use crate::select::{awaits, grown, idle_means_enough, seed, settled, Selector, SelectorView};
use crate::indices::{index_set, rising};
use crate::tolerance::{
    complete_reduction_retains, follows, resolve_follows, retained, start_follows, well_formed,
    work_left, work_left_is_bounded, work_left_shrinks, Simplifier,
};

verus! {

/// What `measure` answers for each chord: the scores of the samples between
/// its ends.
pub open spec fn measured<M: Fn(usize, usize) -> Vec<u64>>(measure: M) -> spec_fn(int, int) -> Seq<
    u64,
> {
    |a: int, b: int|
        (choose|v: Vec<u64>| #[trigger] measure.ensures((a as usize, b as usize), v))@
}

/// `measure` can be asked for every chord of a series of `len` samples, gives
/// one score for each sample between the chord's ends, and gives the same
/// scores whenever it is asked for the same chord.
pub open spec fn measures_chords<M: Fn(usize, usize) -> Vec<u64>>(measure: M, len: nat) -> bool {
    &&& forall|a: usize, b: usize| a < b < len ==> #[trigger] measure.requires((a, b))
    &&& forall|a: usize, b: usize, v: Vec<u64>|
        a < b < len && #[trigger] measure.ensures((a, b), v) ==> v@.len() == b - a - 1
    &&& forall|a: usize, b: usize, v: Vec<u64>, w: Vec<u64>|
        #[trigger] measure.ensures((a, b), v) && #[trigger] measure.ensures((a, b), w) ==> v@
            == w@
}

/// What `step` answers for each sample: the score of the way to the next.
pub open spec fn stepped<S: Fn(usize) -> u64>(step: S) -> spec_fn(int) -> u64 {
    |i: int| choose|d: u64| #[trigger] step.ensures((i as usize,), d)
}

/// `step` can be asked for every sample of a series of `len` samples but the
/// last, and gives the same score whenever it is asked for the same sample.
pub open spec fn measures_steps<S: Fn(usize) -> u64>(step: S, len: nat) -> bool {
    &&& forall|i: usize| i + 1 < len ==> #[trigger] step.requires((i,))
    &&& forall|i: usize, d: u64, e: u64|
        #[trigger] step.ensures((i,), d) && #[trigger] step.ensures((i,), e) ==> d == e
}

/// What `halfway` answers for each interval: the tolerance in its middle.
pub open spec fn halved<H: Fn(u64, u64) -> u64>(halfway: H) -> spec_fn(u64, u64) -> u64 {
    |lower: u64, upper: u64| choose|m: u64| #[trigger] halfway.ensures((lower, upper), m)
}

/// `halfway` can be asked for every interval, and gives the same tolerance
/// whenever it is asked for the same interval.
pub open spec fn halves<H: Fn(u64, u64) -> u64>(halfway: H) -> bool {
    &&& forall|lower: u64, upper: u64| #[trigger] halfway.requires((lower, upper))
    &&& forall|lower: u64, upper: u64, m: u64, k: u64|
        #[trigger] halfway.ensures((lower, upper), m) && #[trigger] halfway.ensures(
            (lower, upper),
            k,
        ) ==> m == k
}

/// Number of steps from a sample to the next in a series of `len` samples.
pub open spec fn step_count(len: nat) -> nat {
    if len == 0 {
        0
    } else {
        (len - 1) as nat
    }
}

/// The largest of the first `count` step scores; 0 where there is none.
pub open spec fn longest_step(lengths: spec_fn(int) -> u64, count: nat) -> u64
    decreases count,
{
    if count == 0 {
        0
    } else if lengths(count - 1) > longest_step(lengths, (count - 1) as nat) {
        lengths(count - 1)
    } else {
        longest_step(lengths, (count - 1) as nat)
    }
}

/// The number of samples that a reduction of a series of `len` samples
/// retains under `measure`, for each tolerance.
pub open spec fn retained_counts(measure: spec_fn(int, int) -> Seq<u64>, len: nat) -> spec_fn(
    u64,
) -> nat {
    |t: u64| retained(measure, len, t).len()
}

/// Where a search for `target` samples ends that has `rounds` probes left for
/// the interval from `lower` to `upper`: at the tolerance whose reduction
/// retains exactly `target` samples, or, out of rounds, with the count of the
/// last probe and the middle of the interval that is left. `counts` gives the
/// number of samples that a reduction retains at a tolerance.
pub open spec fn searched(
    counts: spec_fn(u64) -> nat,
    middle: spec_fn(u64, u64) -> u64,
    target: nat,
    lower: u64,
    upper: u64,
    rounds: nat,
    last_count: nat,
) -> Result<u64, DecimateError>
    decreases rounds,
{
    let probe = middle(lower, upper);
    if rounds == 0 {
        Err(
            DecimateError::BinarySearchExhausted {
                last_count: last_count as usize,
                last_tolerance: probe,
            },
        )
    } else if counts(probe) == target {
        Ok(probe)
    } else if counts(probe) > target {
        searched(counts, middle, target, probe, upper, (rounds - 1) as nat, counts(probe))
    } else {
        searched(counts, middle, target, lower, probe, (rounds - 1) as nat, counts(probe))
    }
}

/// The state in which an index growth ends under `measure`: chord after
/// chord is resolved with the scores that `measure` gives, until nothing is
/// missing.
pub open spec fn completed(v: SelectorView, measure: spec_fn(int, int) -> Seq<u64>) -> SelectorView
    decreases v.target - v.kept.len(),
{
    if v.kept.len() < v.target && 0 <= v.cursor && v.cursor + 1 < v.kept.len() {
        completed(
            grown(v, measure(v.kept[v.cursor] as int, v.kept[v.cursor + 1] as int)),
            measure,
        )
    } else {
        v
    }
}

/// Drives a reduction of a series of `len` samples to its end: asks `measure`
/// for each chord that waits until none waits any more.
fn reduce<M: Fn(usize, usize) -> Vec<u64>>(len: usize, tolerance: u64, measure: &M) -> (done:
    Simplifier)
    requires
        measures_chords(*measure, len as nat),
    ensures
        well_formed(done@),
        done@.len == len,
        done@.tolerance == tolerance,
        done@.pending.len() == 0,
        follows(done@, measured(*measure)),
        index_set(done@.kept) == retained(measured(*measure), len as nat, tolerance),
        done@.kept.len() == retained(measured(*measure), len as nat, tolerance).len(),
{
    let started = Simplifier::start(len, len, len, tolerance);
    let mut simplifier = started.unwrap();
    proof {
        start_follows(len as nat, tolerance, measured(*measure));
        work_left_is_bounded(simplifier@);
    }
    while !simplifier.is_done()
        invariant
            well_formed(simplifier@),
            simplifier@.len == len,
            simplifier@.tolerance == tolerance,
            follows(simplifier@, measured(*measure)),
            measures_chords(*measure, len as nat),
            0 <= work_left(simplifier@),
        decreases work_left(simplifier@),
    {
        let chord = simplifier.pending();
        let (start, end) = chord.unwrap();
        proof {
            let k = simplifier@.pending.len() as int;
            assert(simplifier@.pending[k - 1] == (simplifier@.kept[k - 1], simplifier@.kept[k]));
        }
        let scores = measure(start, end);
        proof {
            let again = choose|v: Vec<u64>| #[trigger] measure.ensures((start, end), v);
            assert(scores@ == again@);
            assert(scores@ == measured(*measure)(start as int, end as int));
            resolve_follows(simplifier@, measured(*measure), scores@);
            work_left_shrinks(simplifier@, scores@);
        }
        if !simplifier.resolve(&scores) {
            // only a `measure` that breaks its word gets here
            return simplifier;
        }
    }
    proof {
        complete_reduction_retains(simplifier@, measured(*measure));
    }
    simplifier
}

/// Reduces a series to its first and last sample and every sample between
/// that deviates from the chord it is held against by more than `tolerance`.
///
/// `measure(start, end)` scores the samples between `start` and `end` against
/// the chord from one to the other; the chord is split at the first sample of
/// the largest score where that score exceeds `tolerance`. Refuses columns of
/// different lengths.
pub fn decimate_by_tolerance<M: Fn(usize, usize) -> Vec<u64>>(
    timestamps: &Vec<u64>,
    x: &Vec<u64>,
    y: &Vec<u64>,
    tolerance: u64,
    measure: M,
) -> (r: Result<Curve, DecimateError>)
    requires
        measures_chords(measure, timestamps.len() as nat),
    ensures
        (timestamps.len() != x.len() || timestamps.len() != y.len()) <==> r == Err::<
            Curve,
            DecimateError,
        >(DecimateError::LengthMismatch),
        (timestamps.len() == x.len() && timestamps.len() == y.len()) <==> r is Ok,
        r is Ok ==> r->Ok_0.aligned() && exists|kept: Seq<usize>|
            {
                &&& #[trigger] index_set(kept) == retained(
                    measured(measure),
                    timestamps.len() as nat,
                    tolerance,
                )
                &&& rising(kept, timestamps.len() as nat)
                &&& r->Ok_0@ == picked(zip3(timestamps@, x@, y@), kept)
            },
        r is Ok ==> r->Ok_0@.len() == retained(
            measured(measure),
            timestamps.len() as nat,
            tolerance,
        ).len(),
        r is Ok && timestamps.len() > 0 ==> r->Ok_0@.len() > 0 && r->Ok_0@.first() == zip3(
            timestamps@,
            x@,
            y@,
        ).first() && r->Ok_0@.last() == zip3(timestamps@, x@, y@).last(),
{
    if timestamps.len() != x.len() || timestamps.len() != y.len() {
        return Err(DecimateError::LengthMismatch);
    }
    let simplifier = reduce(timestamps.len(), tolerance, &measure);
    simplifier.finish(timestamps, x, y)
}

/// Reduces a series to exactly `count` samples by a search for the tolerance
/// at which `decimate_by_tolerance` retains that many.
///
/// The search begins between tolerance zero and the largest score that
/// `step` gives for the way from a sample to the next, probes the tolerance
/// that `halfway` gives for the interval, and keeps the half in which the
/// target lies: above the probe where it retained too many samples, below it
/// where it retained too few. It gives up after
/// `MAX_BINARY_SEARCH_ITERATIONS` probes.
///
/// Refuses a `count` above the number of timestamps first, then columns of
/// different lengths.
pub fn decimate_to_count<M, S, H>(
    timestamps: &Vec<u64>,
    x: &Vec<u64>,
    y: &Vec<u64>,
    count: usize,
    measure: M,
    step: S,
    halfway: H,
) -> (r: Result<Curve, DecimateError>) where
    M: Fn(usize, usize) -> Vec<u64>,
    S: Fn(usize) -> u64,
    H: Fn(u64, u64) -> u64,

    requires
        measures_chords(measure, timestamps.len() as nat),
        measures_steps(step, timestamps.len() as nat),
        halves(halfway),
    ensures
        timestamps.len() < count <==> r == Err::<Curve, DecimateError>(
            DecimateError::InsufficientPoints,
        ),
        (timestamps.len() >= count && (timestamps.len() != x.len() || timestamps.len()
            != y.len())) <==> r == Err::<Curve, DecimateError>(DecimateError::LengthMismatch),
        r is Ok ==> r->Ok_0.aligned() && r->Ok_0@.len() == count,
        timestamps.len() >= count && timestamps.len() == x.len() && timestamps.len() == y.len()
            ==> match searched(
            retained_counts(measured(measure), timestamps.len() as nat),
            halved(halfway),
            count as nat,
            0,
            longest_step(stepped(step), step_count(timestamps.len() as nat)),
            MAX_BINARY_SEARCH_ITERATIONS as nat,
            0,
        ) {
            Ok(tolerance) => r is Ok && exists|kept: Seq<usize>|
                {
                    &&& #[trigger] index_set(kept) == retained(
                        measured(measure),
                        timestamps.len() as nat,
                        tolerance,
                    )
                    &&& rising(kept, timestamps.len() as nat)
                    &&& r->Ok_0@ == picked(zip3(timestamps@, x@, y@), kept)
                },
            Err(e) => r == Err::<Curve, DecimateError>(e),
        },
{
    let len: usize = timestamps.len();
    let ghost counts = retained_counts(measured(measure), len as nat);
    let mut upper: u64 = 0;
    let mut i: usize = 0;
    if len >= count && len == x.len() && len == y.len() {
        while i + 1 < len
            invariant
                measures_steps(step, len as nat),
                i + 1 <= len || (len == 0 && i == 0),
                upper == longest_step(stepped(step), i as nat),
            decreases len - i,
        {
            let d: u64 = step(i);
            proof {
                let again = choose|e: u64| #[trigger] step.ensures((i,), e);
                assert(d == again);
                assert(d == stepped(step)(i as int));
            }
            if d > upper {
                upper = d;
            }
            i += 1;
        }
    }
    let mut search = match Calibrator::start(
        len,
        x.len(),
        y.len(),
        count,
        upper,
        MAX_BINARY_SEARCH_ITERATIONS,
    ) {
        Ok(c) => c,
        Err(e) => {
            return Err(e);
        },
    };
    assert(i == step_count(len as nat));
    let ghost whole = searched(
        counts,
        halved(halfway),
        count as nat,
        0,
        upper,
        MAX_BINARY_SEARCH_ITERATIONS as nat,
        0,
    );
    while search.rounds_left() > 0
        invariant
            len == timestamps.len(),
            len == x.len(),
            len == y.len(),
            len >= count,
            search@.target == count,
            measures_chords(measure, len as nat),
            halves(halfway),
            counts == retained_counts(measured(measure), len as nat),
            whole == searched(
                counts,
                halved(halfway),
                count as nat,
                0,
                longest_step(stepped(step), step_count(len as nat)),
                MAX_BINARY_SEARCH_ITERATIONS as nat,
                0,
            ),
            whole == searched(
                counts,
                halved(halfway),
                count as nat,
                search@.lower,
                search@.upper,
                search@.rounds_left,
                search@.last_count,
            ),
        decreases search@.rounds_left,
    {
        let (lower, upper) = search.bounds();
        let middle: u64 = halfway(lower, upper);
        proof {
            let again = choose|m: u64| #[trigger] halfway.ensures((lower, upper), m);
            assert(middle == again);
            assert(middle == halved(halfway)(lower, upper));
        }
        let simplifier = reduce(len, middle, &measure);
        let probe = simplifier.finish(timestamps, x, y).unwrap();
        assert(probe@.len() == counts(middle));
        let ghost before = search@;
        match search.observe(middle, probe) {
            Some(found) => {
                proof {
                    let kept = simplifier@.kept;
                    assert(whole == Ok::<u64, DecimateError>(middle));
                    assert(index_set(kept) == retained(measured(measure), len as nat, middle));
                    assert(found@ == picked(zip3(timestamps@, x@, y@), kept));
                }
                return Ok(found);
            },
            None => {
                assert(search@ == bisected(before, middle, counts(middle)));
            },
        }
    }
    let (lower, upper) = search.bounds();
    let middle: u64 = halfway(lower, upper);
    proof {
        let again = choose|m: u64| #[trigger] halfway.ensures((lower, upper), m);
        assert(middle == again);
        assert(middle == halved(halfway)(lower, upper));
    }
    Err(search.exhausted(middle))
}

/// Reduces a series to exactly `count` samples by index growth: pass after
/// pass, from left to right, each chord between neighbouring retained
/// samples that has samples between its ends gets the one retained that
/// `measure` scores highest (of equal ones the first), until `count` samples
/// are retained.
///
/// Refuses a `count` above the number of timestamps first, then columns of
/// different lengths, then a `count` below the number of samples that are
/// retained from the start (`OverCount`).
pub fn decimate<M: Fn(usize, usize) -> Vec<u64>>(
    timestamps: &Vec<u64>,
    x: &Vec<u64>,
    y: &Vec<u64>,
    count: usize,
    measure: M,
) -> (r: Result<Curve, DecimateError>)
    requires
        measures_chords(measure, timestamps.len() as nat),
    ensures
        timestamps.len() < count <==> r == Err::<Curve, DecimateError>(
            DecimateError::InsufficientPoints,
        ),
        (timestamps.len() >= count && (timestamps.len() != x.len() || timestamps.len()
            != y.len())) <==> r == Err::<Curve, DecimateError>(DecimateError::LengthMismatch),
        (timestamps.len() >= count && timestamps.len() == x.len() && timestamps.len() == y.len()
            && count < seed(timestamps.len() as nat).len()) <==> r == Err::<Curve, DecimateError>(
            DecimateError::OverCount,
        ),
        (timestamps.len() >= count && timestamps.len() == x.len() && timestamps.len() == y.len()
            && count >= seed(timestamps.len() as nat).len()) <==> r is Ok,
        r is Ok ==> ({
            let kept = completed(
                SelectorView {
                    len: timestamps.len() as nat,
                    target: count as nat,
                    kept: seed(timestamps.len() as nat),
                    cursor: settled(seed(timestamps.len() as nat), 0),
                },
                measured(measure),
            ).kept;
            &&& r->Ok_0.aligned()
            &&& r->Ok_0@.len() == count
            &&& rising(kept, timestamps.len() as nat)
            &&& r->Ok_0@ == picked(zip3(timestamps@, x@, y@), kept)
        }),
{
    let mut growth = match Selector::start(timestamps.len(), x.len(), y.len(), count) {
        Ok(g) => g,
        Err(e) => {
            return Err(e);
        },
    };
    let ghost first = growth@;
    while growth.count() < count
        invariant
            crate::select::well_formed(growth@),
            growth@.len == timestamps.len(),
            growth@.target == count,
            growth@ == first || growth@.kept.len() <= count,
            first.kept == seed(timestamps.len() as nat),
            completed(growth@, measured(measure)) == completed(first, measured(measure)),
            measures_chords(measure, timestamps.len() as nat),
        decreases count - growth@.kept.len(),
    {
        proof {
            if !(growth@.cursor + 1 < growth@.kept.len()) {
                idle_means_enough(growth@);
            }
        }
        let chord = growth.pending();
        let (start, end) = chord.unwrap();
        let scores = measure(start, end);
        proof {
            let again = choose|v: Vec<u64>| #[trigger] measure.ensures((start, end), v);
            assert(scores@ == again@);
            assert(scores@ == measured(measure)(start as int, end as int));
            assert(awaits(growth@, scores@.len() as nat));
        }
        if !growth.resolve(&scores) {
            // only a `measure` that breaks its word gets here
            return Err(DecimateError::InsufficientPoints);
        }
    }
    growth.finish(timestamps, x, y)
}

} // verus!
