//! Sorting times: a merge sort, with the proof that it orders its input and
//! keeps every time as often as it was there.
use vstd::prelude::*;
use vstd::multiset::lemma_multiset_empty_len;
use vstd::relations::sorted_by;
use vstd::seq_lib::{lemma_multiset_commutative, lemma_sorted_unique, to_multiset_build};

verus! {

/// `times` ascends.
pub open spec fn is_ascending(times: Seq<u64>) -> bool {
    forall|i: int, j: int| 0 <= i <= j < times.len() ==> times[i] <= times[j]
}

/// The order of times: at most.
pub open spec fn at_most() -> spec_fn(u64, u64) -> bool {
    |a: u64, b: u64| a <= b
}

/// The times in ascending order.
pub open spec fn ascending(times: Seq<u64>) -> Seq<u64> {
    times.sort_by(at_most())
}

/// The times in ascending order are the same times, each as often, and they
/// ascend.
pub proof fn lemma_ascending_sorts(times: Seq<u64>)
    ensures
        ascending(times).to_multiset() == times.to_multiset(),
        ascending(times).len() == times.len(),
        is_ascending(ascending(times)),
{
    let sorted = ascending(times);
    times.lemma_sort_by_ensures(at_most());
    times.to_multiset_ensures();
    sorted.to_multiset_ensures();
    assert forall|i: int, j: int| 0 <= i <= j < sorted.len() implies sorted[i] <= sorted[j] by {
        if i < j {
            assert(at_most()(sorted[i], sorted[j]));
        }
    }
}

/// Merges two ascending vectors into one.
fn merge(left: &Vec<u64>, right: &Vec<u64>) -> (out: Vec<u64>)
    requires
        is_ascending(left@),
        is_ascending(right@),
        left.len() + right.len() <= usize::MAX,
    ensures
        is_ascending(out@),
        out@.to_multiset() == left@.to_multiset().add(right@.to_multiset()),
{
    let mut out: Vec<u64> = Vec::new();
    let mut i: usize = 0;
    let mut j: usize = 0;
    proof {
        let none = Seq::<u64>::empty();
        assert(left@.subrange(0, 0) =~= none);
        assert(right@.subrange(0, 0) =~= none);
        assert(out@ =~= none);
        none.to_multiset_ensures();
        lemma_multiset_empty_len(none.to_multiset());
        assert(none.to_multiset().add(none.to_multiset()) =~= none.to_multiset());
    }
    while i < left.len() || j < right.len()
        invariant
            i <= left.len(),
            j <= right.len(),
            left.len() + right.len() <= usize::MAX,
            is_ascending(left@),
            is_ascending(right@),
            is_ascending(out@),
            out@.len() == i + j,
            out@.to_multiset() == left@.subrange(0, i as int).to_multiset().add(
                right@.subrange(0, j as int).to_multiset(),
            ),
            forall|k: int| 0 <= k < out@.len() && i < left.len() ==> out@[k] <= left@[i as int],
            forall|k: int| 0 <= k < out@.len() && j < right.len() ==> out@[k] <= right@[j as int],
        decreases left.len() - i + right.len() - j,
    {
        let ghost before = out@;
        let ghost taken_left = left@.subrange(0, i as int);
        let ghost taken_right = right@.subrange(0, j as int);
        let from_left: bool = if i < left.len() && j < right.len() {
            left[i] <= right[j]
        } else {
            i < left.len()
        };
        if from_left {
            let x: u64 = left[i];
            out.push(x);
            proof {
                to_multiset_build(before, x);
                to_multiset_build(taken_left, x);
                assert(left@.subrange(0, i + 1) =~= taken_left.push(x));
                assert(taken_left.to_multiset().insert(x).add(taken_right.to_multiset())
                    =~= taken_left.to_multiset().add(taken_right.to_multiset()).insert(x));
            }
            i = i + 1;
        } else {
            let x: u64 = right[j];
            out.push(x);
            proof {
                to_multiset_build(before, x);
                to_multiset_build(taken_right, x);
                assert(right@.subrange(0, j + 1) =~= taken_right.push(x));
                assert(taken_left.to_multiset().add(taken_right.to_multiset().insert(x))
                    =~= taken_left.to_multiset().add(taken_right.to_multiset()).insert(x));
            }
            j = j + 1;
        }
    }
    proof {
        assert(left@.subrange(0, left.len() as int) =~= left@);
        assert(right@.subrange(0, right.len() as int) =~= right@);
    }
    out
}

/// The times of `times[from..to]`, in ascending order.
fn sorted_part(times: &Vec<u64>, from: usize, to: usize) -> (out: Vec<u64>)
    requires
        from <= to <= times.len(),
    ensures
        is_ascending(out@),
        out@.to_multiset() == times@.subrange(from as int, to as int).to_multiset(),
        out@.len() == to - from,
    decreases to - from,
{
    if to - from <= 1 {
        let mut out: Vec<u64> = Vec::new();
        if from < to {
            out.push(times[from]);
        }
        proof {
            assert(out@ =~= times@.subrange(from as int, to as int));
        }
        return out;
    }
    let mid: usize = from + (to - from) / 2;
    let left = sorted_part(times, from, mid);
    let right = sorted_part(times, mid, to);
    let out = merge(&left, &right);
    proof {
        let a = times@.subrange(from as int, mid as int);
        let b = times@.subrange(mid as int, to as int);
        assert(a + b =~= times@.subrange(from as int, to as int));
        lemma_multiset_commutative(a, b);
        out@.to_multiset_ensures();
        times@.subrange(from as int, to as int).to_multiset_ensures();
    }
    out
}

/// Puts the times in ascending order. Every time stays as often as it was
/// there.
pub fn sort_times(times: &mut Vec<u64>)
    ensures
        final(times)@ == ascending(old(times)@),
        final(times)@.to_multiset() == old(times)@.to_multiset(),
        final(times)@.len() == old(times)@.len(),
        is_ascending(final(times)@),
{
    let ghost unsorted = times@;
    proof {
        assert(unsorted.subrange(0, times.len() as int) =~= unsorted);
    }
    let sorted = sorted_part(times, 0, times.len());
    proof {
        unsorted.lemma_sort_by_ensures(at_most());
        assert(sorted_by(sorted@, at_most()));
        lemma_sorted_unique(sorted@, ascending(unsorted), at_most());
    }
    *times = sorted;
}

} // verus!
