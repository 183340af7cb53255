use vstd::prelude::*;
use crate::curve::{all_below, picked, zip3, Curve};
use crate::error::DecimateError;
use crate::indices::rising;
use crate::scan::{farthest, peak, peak_is_first_maximum};

verus! {

/// Whether samples lie between the retained index at `at` and the next one.
pub open spec fn has_gap(kept: Seq<usize>, at: int) -> bool {
    0 <= at && at + 1 < kept.len() && kept[at + 1] - kept[at] > 1
}

/// The first position at or behind `from` that has a gap, or the length of
/// `kept` where none has.
pub open spec fn next_gap(kept: Seq<usize>, from: int) -> int
    decreases kept.len() - from,
{
    if from < 0 || from + 1 >= kept.len() {
        kept.len() as int
    } else if kept[from + 1] - kept[from] > 1 {
        from
    } else {
        next_gap(kept, from + 1)
    }
}

/// Where a pass goes on from `from`: at the next gap, or, where the pass is
/// over, at the first gap of the next pass. The length of `kept` where no
/// gap is left at all.
pub open spec fn settled(kept: Seq<usize>, from: int) -> int {
    if next_gap(kept, from) < kept.len() {
        next_gap(kept, from)
    } else {
        next_gap(kept, 0)
    }
}

/// An index growth under way, as contracts see it.
pub struct SelectorView {
    /// Number of samples of the series that is reduced.
    pub len: nat,
    /// Number of samples that the result must have.
    pub target: nat,
    /// The indices retained so far, in rising order.
    pub kept: Seq<usize>,
    /// Position in `kept` of the left end of the chord that waits.
    pub cursor: int,
}

/// The indices with which every growth begins: the first and the last.
pub open spec fn seed(len: nat) -> Seq<usize> {
    if len == 0 {
        seq![]
    } else if len == 1 {
        seq![0usize]
    } else {
        seq![0usize, (len - 1) as usize]
    }
}

/// The retained indices span the series, no more are asked for than it
/// holds, and the cursor stands at a gap unless none is left.
pub open spec fn well_formed(v: SelectorView) -> bool {
    &&& v.len <= usize::MAX
    &&& v.target <= v.len
    &&& rising(v.kept, v.len)
    &&& 0 <= v.cursor == settled(v.kept, v.cursor)
}

/// Whether the growth waits for exactly `count` scores: samples are still
/// missing, and the chord at the cursor has that many between its ends.
pub open spec fn awaits(v: SelectorView, count: nat) -> bool {
    &&& v.kept.len() < v.target
    &&& v.cursor + 1 < v.kept.len()
    &&& count == v.kept[v.cursor + 1] - v.kept[v.cursor] - 1
}

/// The state after the waiting chord got its scores: the sample with the
/// largest score is retained between the chord's ends, and the cursor moves
/// past both halves to the next gap of the pass, or to the first gap of a new
/// pass.
pub open spec fn grown(v: SelectorView, scores: Seq<u64>) -> SelectorView {
    let middle = (v.kept[v.cursor] + 1 + peak(scores)) as usize;
    let kept = v.kept.insert(v.cursor + 1, middle);
    SelectorView { len: v.len, target: v.target, kept, cursor: settled(kept, v.cursor + 2) }
}

/// `next_gap` finds a gap, and the first one from `from` on, or says that no
/// position from `from` on has one.
pub proof fn next_gap_is_first(kept: Seq<usize>, from: int)
    requires
        0 <= from,
    ensures
        from <= next_gap(kept, from) || next_gap(kept, from) == kept.len(),
        next_gap(kept, from) <= kept.len(),
        next_gap(kept, from) < kept.len() ==> has_gap(kept, next_gap(kept, from)),
        forall|i: int| from <= i < next_gap(kept, from) ==> !has_gap(kept, i),
    decreases kept.len() - from,
{
    if from + 1 < kept.len() && !(kept[from + 1] - kept[from] > 1) {
        next_gap_is_first(kept, from + 1);
    }
}

/// Rising indices without a gap are the indices of the whole series.
pub proof fn gapless_is_whole(kept: Seq<usize>, len: nat, upto: int)
    requires
        rising(kept, len),
        forall|i: int| 0 <= i ==> !has_gap(kept, i),
        0 <= upto < kept.len(),
    ensures
        kept[upto] == upto,
    decreases upto,
{
    if upto > 0 {
        gapless_is_whole(kept, len, upto - 1);
        assert(!has_gap(kept, upto - 1));
        assert(kept[upto - 1] < kept[upto]);
    }
}

/// While samples are missing, a chord waits: a growth that waits for nothing
/// holds at least as many indices as were asked for.
pub proof fn idle_means_enough(v: SelectorView)
    requires
        well_formed(v),
        !(v.cursor + 1 < v.kept.len()),
    ensures
        v.kept.len() >= v.target,
{
    next_gap_is_first(v.kept, v.cursor);
    next_gap_is_first(v.kept, 0);
    if v.kept.len() > 0 {
        assert(v.cursor == v.kept.len());
        assert(next_gap(v.kept, 0) == v.kept.len());
        assert forall|i: int| 0 <= i implies !has_gap(v.kept, i) by {}
        gapless_is_whole(v.kept, v.len, v.kept.len() - 1);
    }
}

/// An index growth toward an exact number of samples.
///
/// Pass after pass it goes through the chords between neighbouring retained
/// indices, from left to right, and retains in each chord that has samples
/// between its ends the one with the largest score, until as many indices
/// are retained as were asked for.
#[derive(Debug)]
pub struct Selector {
    len: usize,
    target: usize,
    kept: Vec<usize>,
    cursor: usize,
}

impl View for Selector {
    type V = SelectorView;

    closed spec fn view(&self) -> SelectorView {
        SelectorView {
            len: self.len as nat,
            target: self.target as nat,
            kept: self.kept@,
            cursor: self.cursor as int,
        }
    }
}

/// The first position at or behind `from` that has a gap.
fn seek(kept: &Vec<usize>, from: usize) -> (at: usize)
    requires
        forall|i: int, j: int| 0 <= i < j < kept@.len() ==> kept@[i] < kept@[j],
    ensures
        at == next_gap(kept@, from as int),
        at <= kept@.len(),
{
    let n: usize = kept.len();
    let mut i: usize = from;
    while i < n && i + 1 < n && kept[i + 1] - kept[i] <= 1
        invariant
            n == kept@.len(),
            from <= i,
            forall|a: int, b: int| 0 <= a < b < kept@.len() ==> kept@[a] < kept@[b],
            next_gap(kept@, i as int) == next_gap(kept@, from as int),
        decreases n - i,
    {
        i += 1;
    }
    if i < n && i + 1 < n {
        i
    } else {
        n
    }
}

/// Where a pass goes on from `from`.
fn settle(kept: &Vec<usize>, from: usize) -> (at: usize)
    requires
        forall|i: int, j: int| 0 <= i < j < kept@.len() ==> kept@[i] < kept@[j],
    ensures
        at == settled(kept@, from as int),
        at <= kept@.len(),
{
    let at: usize = seek(kept, from);
    if at < kept.len() {
        at
    } else {
        seek(kept, 0)
    }
}

/// Settling where a pass has settled changes nothing.
proof fn settled_is_stable(kept: Seq<usize>, from: int)
    requires
        0 <= from,
    ensures
        settled(kept, settled(kept, from)) == settled(kept, from),
{
    let at = settled(kept, from);
    next_gap_is_first(kept, from);
    next_gap_is_first(kept, 0);
    next_gap_is_first(kept, at);
}

impl Selector {
    /// Begins the growth toward `target` samples of a series whose three
    /// columns have the given lengths: the first and the last sample are
    /// retained.
    ///
    /// Refuses a target above the number of timestamps first, then columns of
    /// different lengths.
    pub fn start(timestamps_len: usize, x_len: usize, y_len: usize, target: usize) -> (r: Result<
        Selector,
        DecimateError,
    >)
        ensures
            timestamps_len < target <==> r == Err::<Selector, DecimateError>(
                DecimateError::InsufficientPoints,
            ),
            (timestamps_len >= target && (timestamps_len != x_len || timestamps_len != y_len))
                <==> r == Err::<Selector, DecimateError>(DecimateError::LengthMismatch),
            (timestamps_len >= target && timestamps_len == x_len && timestamps_len == y_len)
                <==> r is Ok,
            r is Ok ==> well_formed(r->Ok_0@) && r->Ok_0@ == (SelectorView {
                len: timestamps_len as nat,
                target: target as nat,
                kept: seed(timestamps_len as nat),
                cursor: settled(seed(timestamps_len as nat), 0),
            }),
    {
        if timestamps_len < target {
            return Err(DecimateError::InsufficientPoints);
        }
        if timestamps_len != x_len || timestamps_len != y_len {
            return Err(DecimateError::LengthMismatch);
        }
        let mut kept: Vec<usize> = Vec::new();
        if timestamps_len >= 1 {
            kept.push(0);
        }
        if timestamps_len >= 2 {
            kept.push(timestamps_len - 1);
        }
        assert(kept@ =~= seed(timestamps_len as nat));
        let cursor: usize = settle(&kept, 0);
        proof {
            settled_is_stable(kept@, 0);
        }
        Ok(Selector { len: timestamps_len, target, kept, cursor })
    }

    /// The chord to measure next, or `None` when as many indices are retained
    /// as were asked for.
    pub fn pending(&self) -> (chord: Option<(usize, usize)>)
        requires
            well_formed(self@),
        ensures
            chord == if self@.kept.len() < self@.target {
                Some((self@.kept[self@.cursor], self@.kept[self@.cursor + 1]))
            } else {
                None::<(usize, usize)>
            },
            chord is Some ==> chord->Some_0.0 + 1 < chord->Some_0.1 < self@.len,
    {
        let n: usize = self.kept.len();
        if n >= self.target {
            return None;
        }
        proof {
            if !(self@.cursor + 1 < self@.kept.len()) {
                idle_means_enough(self@);
            }
            next_gap_is_first(self@.kept, self@.cursor);
            next_gap_is_first(self@.kept, 0);
        }
        Some((self.kept[self.cursor], self.kept[self.cursor + 1]))
    }

    /// Takes the scores of the samples between the ends of the waiting chord,
    /// from left to right, and retains the one with the largest score. Scores
    /// that are not as many as the chord has interior samples, or that come
    /// when nothing is missing, are turned down and change nothing.
    pub fn resolve(&mut self, scores: &Vec<u64>) -> (accepted: bool)
        requires
            well_formed(old(self)@),
        ensures
            accepted == awaits(old(self)@, scores@.len()),
            accepted ==> final(self)@ == grown(old(self)@, scores@),
            !accepted ==> final(self)@ == old(self)@,
            well_formed(final(self)@),
    {
        let n: usize = self.kept.len();
        if n >= self.target {
            return false;
        }
        proof {
            if !(self@.cursor + 1 < self@.kept.len()) {
                idle_means_enough(self@);
            }
            next_gap_is_first(self@.kept, self@.cursor);
            next_gap_is_first(self@.kept, 0);
        }
        let at: usize = self.cursor;
        let start: usize = self.kept[at];
        let end: usize = self.kept[at + 1];
        if scores.len() != end - start - 1 {
            return false;
        }
        let p: usize = farthest(scores);
        proof {
            peak_is_first_maximum(scores@);
        }
        let middle: usize = start + 1 + p;
        self.kept.insert(at + 1, middle);
        proof {
            let before = old(self)@.kept;
            let after = self@.kept;
            assert(after =~= before.insert(at + 1, middle));
            assert forall|i: int, j: int| 0 <= i < j < after.len() implies after[i] < after[j] by {
                let bi = if i <= at { i } else { i - 1 };
                let bj = if j <= at { j } else { j - 1 };
                if i == at + 1 {
                    assert(before[at + 1] <= before[bj]);
                } else if j == at + 1 {
                    assert(before[bi] <= before[at as int]);
                } else {
                    assert(before[bi] < before[bj]);
                }
            }
            assert forall|i: int| 0 <= i < after.len() implies (#[trigger] after[i])
                < self@.len by {
                if i > at + 1 {
                    assert(after[i] == before[i - 1]);
                }
            }
            assert(after.last() == before.last());
        }
        self.cursor = settle(&self.kept, at + 2);
        proof {
            settled_is_stable(self@.kept, at + 2);
        }
        true
    }

    /// The indices retained so far, in rising order.
    pub fn retained(&self) -> (kept: &Vec<usize>)
        ensures
            kept@ == self@.kept,
    {
        &self.kept
    }

    /// Number of samples retained so far.
    pub fn count(&self) -> (n: usize)
        ensures
            n == self@.kept.len(),
    {
        self.kept.len()
    }

    /// The reduced series, picked from the three columns, once nothing is
    /// missing any more.
    ///
    /// Refuses with `OverCount` where more indices are retained than were
    /// asked for; then columns of different lengths; then a retained index
    /// that lies outside them. A series that is handed out has exactly as
    /// many samples as were asked for.
    pub fn finish(&self, timestamps: &Vec<u64>, x: &Vec<u64>, y: &Vec<u64>) -> (r: Result<
        Curve,
        DecimateError,
    >)
        requires
            self@.kept.len() >= self@.target,
        ensures
            self@.kept.len() > self@.target <==> r == Err::<Curve, DecimateError>(
                DecimateError::OverCount,
            ),
            (self@.kept.len() == self@.target && (timestamps.len() != x.len() || timestamps.len()
                != y.len())) <==> r == Err::<Curve, DecimateError>(DecimateError::LengthMismatch),
            (self@.kept.len() == self@.target && timestamps.len() == x.len() && timestamps.len()
                == y.len() && !all_below(self@.kept, timestamps.len() as nat)) <==> r == Err::<
                Curve,
                DecimateError,
            >(DecimateError::IndexOutOfRange),
            (self@.kept.len() == self@.target && timestamps.len() == x.len() && timestamps.len()
                == y.len() && all_below(self@.kept, timestamps.len() as nat)) <==> r is Ok,
            r is Ok ==> r->Ok_0.aligned() && r->Ok_0@ == picked(
                zip3(timestamps@, x@, y@),
                self@.kept,
            ) && r->Ok_0@.len() == self@.target,
    {
        if self.kept.len() > self.target {
            return Err(DecimateError::OverCount);
        }
        Curve::select(timestamps, x, y, &self.kept)
    }
}

} // verus!
