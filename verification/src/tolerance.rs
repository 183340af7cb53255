use vstd::prelude::*;
use vstd::set_lib::{lemma_int_range, lemma_len_subset, set_int_range};
use crate::curve::{all_below, picked, zip3, Curve, Sample};
use crate::error::DecimateError;
use crate::indices::{
    index_set, index_set_insert, rising, rising_indices_are_determined, rising_indices_count,
    rising_indices_fit,
};
use crate::scan::{farthest, peak, peak_is_first_maximum};

verus! {

/// Whether a chord whose interior samples have these scores is split: the
/// largest score exceeds the tolerance. A chord without interior never is.
pub open spec fn splits(scores: Seq<u64>, tolerance: u64) -> bool {
    scores.len() > 0 && scores[peak(scores)] > tolerance
}

/// The indices strictly between `start` and `end` that a reduction retains,
/// where `measure(a, b)` gives the scores of the samples between `a` and `b`
/// against the chord from `a` to `b`, from left to right.
pub open spec fn retained_between(
    measure: spec_fn(int, int) -> Seq<u64>,
    start: int,
    end: int,
    tolerance: u64,
) -> Set<int>
    decreases end - start,
{
    let scores = measure(start, end);
    let middle = start + 1 + peak(scores);
    if scores.len() == end - start - 1 && splits(scores, tolerance) && start < middle < end {
        retained_between(measure, start, middle, tolerance).insert(middle).union(
            retained_between(measure, middle, end, tolerance),
        )
    } else {
        Set::empty()
    }
}

/// The indices that a reduction of `len` samples retains: both ends, and what
/// lies between them and is retained.
pub open spec fn retained(measure: spec_fn(int, int) -> Seq<u64>, len: nat, tolerance: u64) -> Set<
    int,
> {
    if len == 0 {
        Set::empty()
    } else {
        retained_between(measure, 0, len - 1, tolerance).insert(0).insert(len - 1)
    }
}

/// What the chords that still wait will retain between their ends.
pub open spec fn pending_union(
    measure: spec_fn(int, int) -> Seq<u64>,
    pending: Seq<(usize, usize)>,
    tolerance: u64,
) -> Set<int>
    decreases pending.len(),
{
    if pending.len() == 0 {
        Set::empty()
    } else {
        pending_union(measure, pending.drop_last(), tolerance).union(
            retained_between(
                measure,
                pending.last().0 as int,
                pending.last().1 as int,
                tolerance,
            ),
        )
    }
}

/// A reduction under way, as contracts see it.
pub struct SimplifierView {
    /// Number of samples of the series that is reduced.
    pub len: nat,
    /// Largest score that a sample may have and still be dropped.
    pub tolerance: u64,
    /// The indices retained so far, in rising order.
    pub kept: Seq<usize>,
    /// The chords that still wait, the next one last.
    pub pending: Seq<(usize, usize)>,
}

/// The state in which every reduction of `len` samples begins.
pub open spec fn initial(len: nat, tolerance: u64) -> SimplifierView {
    if len == 0 {
        SimplifierView { len, tolerance, kept: seq![], pending: seq![] }
    } else if len == 1 {
        SimplifierView { len, tolerance, kept: seq![0usize], pending: seq![] }
    } else {
        SimplifierView {
            len,
            tolerance,
            kept: seq![0usize, (len - 1) as usize],
            pending: seq![(0usize, (len - 1) as usize)],
        }
    }
}

/// The retained indices rise strictly from the first sample to the last, and
/// the waiting chords join the leftmost retained indices, one to the next.
pub open spec fn well_formed(v: SimplifierView) -> bool {
    &&& v.len <= usize::MAX
    &&& rising(v.kept, v.len)
    &&& v.pending.len() == 0 || v.pending.len() < v.kept.len()
    &&& forall|i: int|
        0 <= i < v.pending.len() ==> (#[trigger] v.pending[i]) == (v.kept[i], v.kept[i + 1])
}

/// Whether the reduction waits for exactly `count` scores: a chord waits, and
/// it has that many samples between its ends.
pub open spec fn awaits(v: SimplifierView, count: nat) -> bool {
    v.pending.len() > 0 && count == v.pending.last().1 - v.pending.last().0 - 1
}

/// The state after the waiting chord got its scores. Where the chord is
/// split, the sample with the largest score is retained, just before the
/// chord's end, and the two halves wait in the chord's place, the right one
/// next. Otherwise the chord is gone and nothing between its ends is retained.
pub open spec fn resolved(v: SimplifierView, scores: Seq<u64>) -> SimplifierView {
    let start = v.pending.last().0;
    let end = v.pending.last().1;
    let rest = v.pending.drop_last();
    if splits(scores, v.tolerance) {
        let middle = (start + 1 + peak(scores)) as usize;
        SimplifierView {
            len: v.len,
            tolerance: v.tolerance,
            kept: v.kept.insert(v.pending.len() as int, middle),
            pending: rest.push((start, middle)).push((middle, end)),
        }
    } else {
        SimplifierView { len: v.len, tolerance: v.tolerance, kept: v.kept, pending: rest }
    }
}

/// What is retained so far, together with what the waiting chords will
/// retain under `measure`, is what a reduction under `measure` retains.
pub open spec fn follows(v: SimplifierView, measure: spec_fn(int, int) -> Seq<u64>) -> bool {
    index_set(v.kept).union(pending_union(measure, v.pending, v.tolerance)) =~= retained(
        measure,
        v.len,
        v.tolerance,
    )
}

/// A reduction by tolerance under way.
///
/// It names the chord whose interior is to be measured next (`pending`),
/// takes the scores (`resolve`), and holds the retained indices when no
/// chord waits any more.
#[derive(Debug)]
pub struct Simplifier {
    len: usize,
    tolerance: u64,
    kept: Vec<usize>,
    stack: Vec<(usize, usize)>,
}

impl View for Simplifier {
    type V = SimplifierView;

    closed spec fn view(&self) -> SimplifierView {
        SimplifierView {
            len: self.len as nat,
            tolerance: self.tolerance,
            kept: self.kept@,
            pending: self.stack@,
        }
    }
}

impl Simplifier {
    /// Begins the reduction of a series whose three columns have the given
    /// lengths: the first and the last sample are retained, and the chord
    /// between them waits. Refuses columns of different lengths.
    pub fn start(timestamps_len: usize, x_len: usize, y_len: usize, tolerance: u64) -> (r: Result<
        Simplifier,
        DecimateError,
    >)
        ensures
            (timestamps_len != x_len || timestamps_len != y_len) <==> r == Err::<
                Simplifier,
                DecimateError,
            >(DecimateError::LengthMismatch),
            (timestamps_len == x_len && timestamps_len == y_len) <==> r is Ok,
            r is Ok ==> well_formed(r->Ok_0@) && r->Ok_0@ == initial(
                timestamps_len as nat,
                tolerance,
            ),
    {
        if timestamps_len != x_len || timestamps_len != y_len {
            return Err(DecimateError::LengthMismatch);
        }
        let len: usize = timestamps_len;
        let mut kept: Vec<usize> = Vec::new();
        let mut stack: Vec<(usize, usize)> = Vec::new();
        if len >= 1 {
            kept.push(0);
        }
        if len >= 2 {
            kept.push(len - 1);
            stack.push((0, len - 1));
        }
        let s = Simplifier { len, tolerance, kept, stack };
        assert(s@.kept =~= initial(len as nat, tolerance).kept);
        assert(s@.pending =~= initial(len as nat, tolerance).pending);
        Ok(s)
    }

    /// The chord to measure next, or `None` when the reduction is complete.
    pub fn pending(&self) -> (chord: Option<(usize, usize)>)
        ensures
            chord == if self@.pending.len() == 0 {
                None::<(usize, usize)>
            } else {
                Some(self@.pending.last())
            },
    {
        let k: usize = self.stack.len();
        if k == 0 {
            None
        } else {
            Some(self.stack[k - 1])
        }
    }

    /// Takes the scores of the samples between the ends of the waiting chord,
    /// from left to right, and decides. Scores that are not as many as the
    /// chord has interior samples, or that come when no chord waits, are
    /// turned down and change nothing.
    pub fn resolve(&mut self, scores: &Vec<u64>) -> (accepted: bool)
        requires
            well_formed(old(self)@),
        ensures
            accepted == awaits(old(self)@, scores@.len()),
            accepted ==> final(self)@ == resolved(old(self)@, scores@),
            !accepted ==> final(self)@ == old(self)@,
            well_formed(final(self)@),
    {
        let k: usize = self.stack.len();
        if k == 0 {
            return false;
        }
        let (start, end) = self.stack[k - 1];
        assert(self@.pending[k - 1] == (self@.kept[k - 1], self@.kept[k as int]));
        assert(start < end < self.len);
        if scores.len() != end - start - 1 {
            return false;
        }
        self.stack.pop();
        assert(self@.pending =~= old(self)@.pending.drop_last());
        if scores.len() > 0 {
            let p: usize = farthest(scores);
            proof {
                peak_is_first_maximum(scores@);
            }
            if scores[p] > self.tolerance {
                let middle: usize = start + 1 + p;
                self.kept.insert(k, middle);
                self.stack.push((start, middle));
                self.stack.push((middle, end));
                proof {
                    assert(self@.kept =~= old(self)@.kept.insert(k as int, middle));
                    assert(self@.pending =~= old(self)@.pending.drop_last().push(
                        (start, middle),
                    ).push((middle, end)));
                    assert(self@ == resolved(old(self)@, scores@));
                    resolved_is_well_formed(old(self)@, scores@);
                }
                return true;
            }
        }
        proof {
            assert(self@ == resolved(old(self)@, scores@));
            resolved_is_well_formed(old(self)@, scores@);
        }
        true
    }

    /// Whether no chord waits any more.
    pub fn is_done(&self) -> (done: bool)
        ensures
            done == (self@.pending.len() == 0),
    {
        self.stack.len() == 0
    }

    /// The indices retained so far, in rising order.
    pub fn retained(&self) -> (kept: &Vec<usize>)
        ensures
            kept@ == self@.kept,
    {
        &self.kept
    }

    /// The series reduced so far, picked from the three columns: the samples
    /// at the retained indices, from left to right.
    ///
    /// Refuses columns of different lengths first, then a retained index that
    /// lies outside them. Picked from the columns that were reduced, the
    /// series begins with their first sample and ends with their last.
    pub fn finish(&self, timestamps: &Vec<u64>, x: &Vec<u64>, y: &Vec<u64>) -> (r: Result<
        Curve,
        DecimateError,
    >)
        requires
            well_formed(self@),
        ensures
            (timestamps.len() != x.len() || timestamps.len() != y.len()) <==> r == Err::<
                Curve,
                DecimateError,
            >(DecimateError::LengthMismatch),
            (timestamps.len() == x.len() && timestamps.len() == y.len() && !all_below(
                self@.kept,
                timestamps.len() as nat,
            )) <==> r == Err::<Curve, DecimateError>(DecimateError::IndexOutOfRange),
            (timestamps.len() == x.len() && timestamps.len() == y.len() && all_below(
                self@.kept,
                timestamps.len() as nat,
            )) <==> r is Ok,
            r is Ok ==> r->Ok_0.aligned() && r->Ok_0@ == picked(
                zip3(timestamps@, x@, y@),
                self@.kept,
            ),
            r is Ok && timestamps.len() == self@.len && self@.len > 0 ==> r->Ok_0@.len() > 0
                && r->Ok_0@.first() == zip3(timestamps@, x@, y@).first() && r->Ok_0@.last()
                == zip3(timestamps@, x@, y@).last(),
    {
        proof {
            if timestamps.len() == self@.len && self@.len > 0 {
                endpoints_survive(self@, zip3(timestamps@, x@, y@));
            }
        }
        Curve::select(timestamps, x, y, &self.kept)
    }

    /// Number of samples retained so far.
    pub fn count(&self) -> (n: usize)
        ensures
            n == self@.kept.len(),
    {
        self.kept.len()
    }
}

/// Resolving the waiting chord keeps the state well formed.
pub proof fn resolved_is_well_formed(v: SimplifierView, scores: Seq<u64>)
    requires
        well_formed(v),
        awaits(v, scores.len()),
    ensures
        well_formed(resolved(v, scores)),
{
    let k = v.pending.len() as int;
    let after = resolved(v, scores);
    assert(v.pending[k - 1] == (v.kept[k - 1], v.kept[k]));
    if splits(scores, v.tolerance) {
        peak_is_first_maximum(scores);
        assert forall|i: int, j: int| 0 <= i < j < after.kept.len() implies after.kept[i]
            < after.kept[j] by {
            let bi = if i < k { i } else { i - 1 };
            let bj = if j < k { j } else { j - 1 };
            if i == k {
                assert(v.kept[k] <= v.kept[bj]);
            } else if j == k {
                assert(v.kept[bi] <= v.kept[k - 1]);
            } else {
                assert(v.kept[bi] < v.kept[bj]);
            }
        }
        assert forall|i: int| 0 <= i < after.kept.len() implies (#[trigger] after.kept[i])
            < v.len by {
            if i > k {
                assert(after.kept[i] == v.kept[i - 1]);
            }
        }
        assert forall|i: int| 0 <= i < after.pending.len() implies (#[trigger] after.pending[i])
            == (after.kept[i], after.kept[i + 1]) by {
            if i < k - 1 {
                assert(after.pending[i] == v.pending[i]);
            }
        }
    } else {
        assert forall|i: int| 0 <= i < after.pending.len() implies (#[trigger] after.pending[i])
            == (after.kept[i], after.kept[i + 1]) by {
            assert(after.pending[i] == v.pending[i]);
        }
    }
}

/// What is left to do: twice the samples that are not retained, and the
/// chords that wait.
pub open spec fn work_left(v: SimplifierView) -> int {
    2 * (v.len - v.kept.len()) + v.pending.len()
}

/// No more indices are retained than the series has samples, so what is left
/// to do is never negative.
pub proof fn work_left_is_bounded(v: SimplifierView)
    requires
        well_formed(v),
    ensures
        v.kept.len() <= v.len,
        0 <= work_left(v),
{
    rising_indices_fit(v.kept, v.len);
}

/// Every accepted resolution leaves less to do: a reduction that is driven
/// on comes to its end.
pub proof fn work_left_shrinks(v: SimplifierView, scores: Seq<u64>)
    requires
        well_formed(v),
        awaits(v, scores.len()),
    ensures
        0 <= work_left(resolved(v, scores)) < work_left(v),
{
    resolved_is_well_formed(v, scores);
    work_left_is_bounded(resolved(v, scores));
}

/// Whatever was decided so far, the series picked by the retained indices
/// begins with the first sample of the source and ends with its last.
pub proof fn endpoints_survive(v: SimplifierView, source: Seq<Sample>)
    requires
        well_formed(v),
        source.len() == v.len,
        v.len > 0,
    ensures
        picked(source, v.kept).len() > 0,
        picked(source, v.kept).first() == source.first(),
        picked(source, v.kept).last() == source.last(),
{
}

/// A reduction that has not begun follows every measure.
pub proof fn start_follows(len: nat, tolerance: u64, measure: spec_fn(int, int) -> Seq<u64>)
    requires
        len <= usize::MAX,
    ensures
        follows(initial(len, tolerance), measure),
{
    let v = initial(len, tolerance);
    assert(pending_union(measure, Seq::<(usize, usize)>::empty(), tolerance) == Set::<int>::empty());
    if len >= 2 {
        assert(v.pending.drop_last() =~= Seq::<(usize, usize)>::empty());
        assert(v.pending.last() == (0usize, (len - 1) as usize));
        assert(pending_union(measure, v.pending, tolerance) =~= retained_between(
            measure,
            0,
            len - 1,
            tolerance,
        ));
        assert(v.kept[0] == 0 && v.kept[1] == len - 1);
        assert(index_set(v.kept) =~= Set::<int>::empty().insert(0).insert(len - 1));
    } else if len == 1 {
        assert(v.kept[0] == 0);
        assert(retained_between(measure, 0, 0, tolerance) == Set::<int>::empty());
        assert(index_set(v.kept) =~= Set::<int>::empty().insert(0));
    } else {
        assert(index_set(v.kept) =~= Set::<int>::empty());
    }
}

/// A reduction that follows a measure still follows it after the waiting
/// chord was resolved with the scores that the measure gives for it.
pub proof fn resolve_follows(
    v: SimplifierView,
    measure: spec_fn(int, int) -> Seq<u64>,
    scores: Seq<u64>,
)
    requires
        well_formed(v),
        follows(v, measure),
        awaits(v, scores.len()),
        scores == measure(v.pending.last().0 as int, v.pending.last().1 as int),
    ensures
        follows(resolved(v, scores), measure),
{
    let k = v.pending.len() as int;
    let start = v.pending.last().0;
    let end = v.pending.last().1;
    let rest = v.pending.drop_last();
    let after = resolved(v, scores);
    let tolerance = v.tolerance;
    let whole = retained_between(measure, start as int, end as int, tolerance);
    assert(v.pending[k - 1] == (v.kept[k - 1], v.kept[k]));
    assert(pending_union(measure, v.pending, tolerance) == pending_union(
        measure,
        rest,
        tolerance,
    ).union(whole));
    if splits(scores, tolerance) {
        peak_is_first_maximum(scores);
        let middle = (start + 1 + peak(scores)) as usize;
        assert(start < middle < end);
        let left = rest.push((start, middle));
        assert(left.drop_last() =~= rest);
        assert(left.last() == (start, middle));
        assert(after.pending.drop_last() =~= left);
        assert(after.pending.last() == (middle, end));
        let low = retained_between(measure, start as int, middle as int, tolerance);
        let high = retained_between(measure, middle as int, end as int, tolerance);
        assert(whole == low.insert(middle as int).union(high));
        assert(pending_union(measure, left, tolerance) == pending_union(
            measure,
            rest,
            tolerance,
        ).union(low));
        assert(pending_union(measure, after.pending, tolerance) == pending_union(
            measure,
            left,
            tolerance,
        ).union(high));
        index_set_insert(v.kept, k, middle);
    } else {
        assert(whole == Set::<int>::empty());
    }
}

/// Nothing but indices strictly between the ends is retained between them.
pub proof fn retained_between_is_inside(
    measure: spec_fn(int, int) -> Seq<u64>,
    start: int,
    end: int,
    tolerance: u64,
)
    ensures
        forall|i: int| #[trigger]
            retained_between(measure, start, end, tolerance).contains(i) ==> start < i < end,
    decreases end - start,
{
    let scores = measure(start, end);
    let middle = start + 1 + peak(scores);
    if scores.len() == end - start - 1 && splits(scores, tolerance) && start < middle < end {
        retained_between_is_inside(measure, start, middle, tolerance);
        retained_between_is_inside(measure, middle, end, tolerance);
        let left = retained_between(measure, start, middle, tolerance);
        let right = retained_between(measure, middle, end, tolerance);
        assert(retained_between(measure, start, end, tolerance) == left.insert(middle).union(right));
        assert forall|i: int| #[trigger]
            retained_between(measure, start, end, tolerance).contains(i) implies start < i
            < end by {
            assert(left.contains(i) || i == middle || right.contains(i));
        }
    } else {
        assert(retained_between(measure, start, end, tolerance) == Set::<int>::empty());
    }
}

/// With a larger tolerance nothing is retained between two ends that a
/// smaller tolerance drops.
pub proof fn retained_between_shrinks(
    measure: spec_fn(int, int) -> Seq<u64>,
    start: int,
    end: int,
    small: u64,
    large: u64,
)
    requires
        small <= large,
    ensures
        retained_between(measure, start, end, large).subset_of(
            retained_between(measure, start, end, small),
        ),
    decreases end - start,
{
    let scores = measure(start, end);
    let middle = start + 1 + peak(scores);
    if scores.len() == end - start - 1 && splits(scores, large) && start < middle < end {
        retained_between_shrinks(measure, start, middle, small, large);
        retained_between_shrinks(measure, middle, end, small, large);
    }
}

/// The set of retained indices is finite.
pub proof fn retained_is_finite(measure: spec_fn(int, int) -> Seq<u64>, len: nat, tolerance: u64)
    ensures
        retained(measure, len, tolerance).finite(),
        retained(measure, len, tolerance).subset_of(set_int_range(0, len as int)),
{
    if len > 0 {
        retained_between_is_inside(measure, 0, len - 1, tolerance);
    }
    lemma_int_range(0, len as int);
    lemma_len_subset(retained(measure, len, tolerance), set_int_range(0, len as int));
}

/// For one series and one measure, a larger tolerance retains a part of what
/// a smaller one retains, and so never more samples.
pub proof fn retained_count_is_monotone(
    measure: spec_fn(int, int) -> Seq<u64>,
    len: nat,
    small: u64,
    large: u64,
)
    requires
        small <= large,
    ensures
        retained(measure, len, large).subset_of(retained(measure, len, small)),
        retained(measure, len, large).len() <= retained(measure, len, small).len(),
{
    if len > 0 {
        retained_between_shrinks(measure, 0, len - 1, small, large);
    }
    retained_is_finite(measure, len, small);
    lemma_len_subset(retained(measure, len, large), retained(measure, len, small));
}

/// A complete reduction that followed a measure holds exactly the indices
/// that a reduction under that measure retains, each once.
pub proof fn complete_reduction_retains(v: SimplifierView, measure: spec_fn(int, int) -> Seq<u64>)
    requires
        well_formed(v),
        follows(v, measure),
        v.pending.len() == 0,
    ensures
        index_set(v.kept) == retained(measure, v.len, v.tolerance),
        v.kept.len() == retained(measure, v.len, v.tolerance).len(),
{
    rising_indices_count(v.kept);
    assert(index_set(v.kept) =~= retained(measure, v.len, v.tolerance));
}

/// Of two complete reductions of one series that followed one measure, the
/// one with the larger tolerance retains only what the other retains, and
/// never more samples.
pub proof fn larger_tolerance_retains_no_more(
    small: SimplifierView,
    large: SimplifierView,
    measure: spec_fn(int, int) -> Seq<u64>,
)
    requires
        well_formed(small),
        well_formed(large),
        follows(small, measure),
        follows(large, measure),
        small.pending.len() == 0,
        large.pending.len() == 0,
        small.len == large.len,
        small.tolerance <= large.tolerance,
    ensures
        index_set(large.kept).subset_of(index_set(small.kept)),
        large.kept.len() <= small.kept.len(),
{
    complete_reduction_retains(small, measure);
    complete_reduction_retains(large, measure);
    retained_count_is_monotone(measure, small.len, small.tolerance, large.tolerance);
}

/// Two complete reductions of one series that followed one measure at one
/// tolerance retain the same indices: the result does not depend on the way
/// that led to it.
pub proof fn complete_reductions_agree(
    one: SimplifierView,
    other: SimplifierView,
    measure: spec_fn(int, int) -> Seq<u64>,
)
    requires
        well_formed(one),
        well_formed(other),
        follows(one, measure),
        follows(other, measure),
        one.pending.len() == 0,
        other.pending.len() == 0,
        one.len == other.len,
        one.tolerance == other.tolerance,
    ensures
        one.kept == other.kept,
{
    complete_reduction_retains(one, measure);
    complete_reduction_retains(other, measure);
    rising_indices_are_determined(one.kept, other.kept);
}

} // verus!
