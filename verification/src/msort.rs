//! Recursive merge sort returning a freshly allocated sorted copy.

use vstd::prelude::*;
use crate::sorts::{sorted, permutes};

verus! {

broadcast use vstd::seq_lib::group_to_multiset_ensures, vstd::multiset::group_multiset_axioms;

/// Merge sort: sort both halves recursively, then merge them.
pub fn merge_sort(values: &[i32]) -> (r: Vec<i32>)
    ensures
        sorted(r@),
        permutes(r@, values@),
    decreases values@.len(),
{
    let n = values.len();
    if n <= 1 {
        let mut out: Vec<i32> = Vec::new();
        if n == 1 {
            out.push(values[0]);
        }
        assert(out@ =~= values@);
        return out;
    }
    let mid = n / 2;
    let left = merge_sort(&values[0..mid]);
    let right = merge_sort(&values[mid..n]);
    let ghost lv = left@;
    let ghost rv = right@;

    let mut merged: Vec<i32> = Vec::with_capacity(n);
    let mut i: usize = 0;
    let mut j: usize = 0;
    while i < left.len() || j < right.len()
        invariant
            lv == left@,
            rv == right@,
            sorted(lv),
            sorted(rv),
            i <= lv.len(),
            j <= rv.len(),
            sorted(merged@),
            merged@.to_multiset() == lv.subrange(0, i as int).to_multiset().add(
                rv.subrange(0, j as int).to_multiset(),
            ),
            merged@.len() > 0 && i < lv.len() ==> merged@.last() <= lv[i as int],
            merged@.len() > 0 && j < rv.len() ==> merged@.last() <= rv[j as int],
        decreases lv.len() - i + rv.len() - j,
    {
        let take_left = j >= right.len() || (i < left.len() && left[i] <= right[j]);
        let x;
        if take_left {
            x = left[i];
            assert(lv.subrange(0, i + 1) =~= lv.subrange(0, i as int).push(x));
            i = i + 1;
        } else {
            x = right[j];
            assert(rv.subrange(0, j + 1) =~= rv.subrange(0, j as int).push(x));
            j = j + 1;
        }
        let ghost before = merged@;
        merged.push(x);
        assert(sorted(merged@)) by {
            assert forall|p: int, q: int| 0 <= p <= q < merged@.len() implies merged@[p] <= merged@[q] by {
                if q == merged@.len() - 1 && p < q {
                    assert(before[p] <= before.last());
                }
            }
        }
    }
    proof {
        assert(lv.subrange(0, lv.len() as int) =~= lv);
        assert(rv.subrange(0, rv.len() as int) =~= rv);
        let a = values@.subrange(0, mid as int);
        let b = values@.subrange(mid as int, n as int);
        assert(values@ =~= a + b);
        vstd::seq_lib::lemma_multiset_commutative(a, b);
    }
    merged
}

} // verus!
