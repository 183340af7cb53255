use vstd::prelude::*;

verus! {

/// Position of the largest score; of equal ones the first. 0 for no scores.
pub open spec fn peak(scores: Seq<u64>) -> int
    decreases scores.len(),
{
    if scores.len() <= 1 {
        0
    } else {
        let before = peak(scores.drop_last());
        if scores.last() > scores[before] {
            scores.len() - 1
        } else {
            before
        }
    }
}

/// `peak` points into the scores, nothing is larger than the score there, and
/// everything before it is strictly smaller.
pub proof fn peak_is_first_maximum(scores: Seq<u64>)
    requires
        scores.len() > 0,
    ensures
        0 <= peak(scores) < scores.len(),
        forall|i: int| 0 <= i < scores.len() ==> (#[trigger] scores[i]) <= scores[peak(scores)],
        forall|i: int| 0 <= i < peak(scores) ==> (#[trigger] scores[i]) < scores[peak(scores)],
    decreases scores.len(),
{
    if scores.len() > 1 {
        let head = scores.drop_last();
        peak_is_first_maximum(head);
        let p = peak(scores);
        assert forall|i: int| 0 <= i < scores.len() implies (#[trigger] scores[i]) <= scores[p] by {
            if i < head.len() {
                assert(head[i] == scores[i]);
            }
        }
        assert forall|i: int| 0 <= i < p implies (#[trigger] scores[i]) < scores[p] by {
            assert(head[i] == scores[i]);
        }
    }
}

/// Finds the largest score and the first place where it stands.
pub fn farthest(scores: &Vec<u64>) -> (at: usize)
    ensures
        at == peak(scores@),
{
    let mut at: usize = 0;
    let mut i: usize = 1;
    if scores.len() == 0 {
        return 0;
    }
    assert(scores@.take(1).len() == 1);
    while i < scores.len()
        invariant
            1 <= i <= scores.len(),
            at == peak(scores@.take(i as int)),
            at < i,
        decreases scores.len() - i,
    {
        assert(scores@.take(i + 1).drop_last() =~= scores@.take(i as int));
        if scores[i] > scores[at] {
            at = i;
        }
        i += 1;
    }
    assert(scores@.take(i as int) =~= scores@);
    at
}

} // verus!
