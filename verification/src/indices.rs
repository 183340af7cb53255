use vstd::prelude::*;
use vstd::set_lib::{lemma_int_range, lemma_len_subset, set_int_range};

verus! {

/// The indices rise strictly from the first sample of a series of `len`
/// samples to its last; of an empty series none is held.
pub open spec fn rising(kept: Seq<usize>, len: nat) -> bool {
    &&& forall|i: int, j: int| 0 <= i < j < kept.len() ==> kept[i] < kept[j]
    &&& forall|i: int| 0 <= i < kept.len() ==> (#[trigger] kept[i]) < len
    &&& len == 0 ==> kept.len() == 0
    &&& len > 0 ==> kept.len() > 0 && kept[0] == 0 && kept.last() == len - 1
}

/// The indices that a sequence holds.
pub open spec fn index_set(kept: Seq<usize>) -> Set<int> {
    Set::new(|i: int| exists|k: int| 0 <= k < kept.len() && kept[k] == i)
}

/// The indices of a sequence with one more element are those of the sequence
/// and the new one.
pub proof fn index_set_insert(kept: Seq<usize>, at: int, index: usize)
    requires
        0 <= at <= kept.len(),
    ensures
        index_set(kept.insert(at, index)) =~= index_set(kept).insert(index as int),
{
    let grown = kept.insert(at, index);
    assert forall|i: int| index_set(kept).insert(index as int).contains(i) implies index_set(
        grown,
    ).contains(i) by {
        if i == index {
            assert(grown[at] == i);
        } else {
            let k = choose|k: int| 0 <= k < kept.len() && kept[k] == i;
            if k < at {
                assert(grown[k] == i);
            } else {
                assert(grown[k + 1] == i);
            }
        }
    }
    assert forall|i: int| index_set(grown).contains(i) implies index_set(kept).insert(
        index as int,
    ).contains(i) by {
        let k = choose|k: int| 0 <= k < grown.len() && grown[k] == i;
        if k < at {
            assert(kept[k] == i);
        } else if k > at {
            assert(kept[k - 1] == i);
        }
    }
}

/// Indices that rise strictly are as many as the set that they form.
pub proof fn rising_indices_count(kept: Seq<usize>)
    requires
        forall|i: int, j: int| 0 <= i < j < kept.len() ==> kept[i] < kept[j],
    ensures
        index_set(kept).finite(),
        index_set(kept).len() == kept.len(),
    decreases kept.len(),
{
    if kept.len() == 0 {
        assert(index_set(kept) =~= Set::<int>::empty());
    } else {
        let head = kept.drop_last();
        rising_indices_count(head);
        assert(kept =~= head.insert(head.len() as int, kept.last()));
        index_set_insert(head, head.len() as int, kept.last());
        if index_set(head).contains(kept.last() as int) {
            let k = choose|k: int| 0 <= k < head.len() && head[k] == kept.last();
            assert(kept[k] < kept[kept.len() - 1]);
        }
    }
}

/// Indices that rise strictly are determined by the set that they form: two
/// such sequences with the same indices are the same sequence.
pub proof fn rising_indices_are_determined(a: Seq<usize>, b: Seq<usize>)
    requires
        forall|i: int, j: int| 0 <= i < j < a.len() ==> a[i] < a[j],
        forall|i: int, j: int| 0 <= i < j < b.len() ==> b[i] < b[j],
        index_set(a) == index_set(b),
    ensures
        a == b,
    decreases a.len(),
{
    rising_indices_count(a);
    rising_indices_count(b);
    if a.len() > 0 {
        let top = a.len() - 1;
        assert(index_set(a).contains(a[top] as int));
        assert(index_set(b).contains(b[top] as int));
        let in_b = choose|k: int| 0 <= k < b.len() && b[k] == a[top];
        let in_a = choose|k: int| 0 <= k < a.len() && a[k] == b[top];
        assert(a[top] == b[top]) by {
            if in_b < top {
                assert(b[in_b] < b[top]);
            }
            if in_a < top {
                assert(a[in_a] < a[top]);
            }
        }
        let head_a = a.drop_last();
        let head_b = b.drop_last();
        assert forall|i: int| index_set(head_a).contains(i) <==> index_set(head_b).contains(
            i,
        ) by {
            if index_set(head_a).contains(i) {
                let k = choose|k: int| 0 <= k < head_a.len() && head_a[k] == i;
                assert(a[k] == i && a[k] < a[top]);
                assert(index_set(a).contains(i));
                let m = choose|m: int| 0 <= m < b.len() && b[m] == i;
                assert(m != top);
                assert(head_b[m] == i);
            }
            if index_set(head_b).contains(i) {
                let k = choose|k: int| 0 <= k < head_b.len() && head_b[k] == i;
                assert(b[k] == i && b[k] < b[top]);
                assert(index_set(b).contains(i));
                let m = choose|m: int| 0 <= m < a.len() && a[m] == i;
                assert(m != top);
                assert(head_a[m] == i);
            }
        }
        assert(index_set(head_a) =~= index_set(head_b));
        rising_indices_are_determined(head_a, head_b);
        assert(a =~= head_a.push(a[top]));
        assert(b =~= head_b.push(b[top]));
    } else {
        assert(a =~= b);
    }
}

/// Indices that rise through a series are no more than it has samples.
pub proof fn rising_indices_fit(kept: Seq<usize>, len: nat)
    requires
        rising(kept, len),
    ensures
        kept.len() <= len,
{
    rising_indices_count(kept);
    lemma_int_range(0, len as int);
    assert(index_set(kept).subset_of(set_int_range(0, len as int)));
    lemma_len_subset(index_set(kept), set_int_range(0, len as int));
}

} // verus!
