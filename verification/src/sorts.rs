//! Classic in-place sorting algorithms over `i32` slices, plus binary search
//! and the reproducible shuffled input they are exercised on.

use vstd::prelude::*;
use vstd::seq_lib::to_multiset_update;
use crate::lcg::{Lcg, lcg_step};

verus! {

/// `s` is in ascending order.
pub open spec fn sorted(s: Seq<i32>) -> bool {
    forall|i: int, j: int| 0 <= i <= j < s.len() ==> s[i] <= s[j]
}

/// `s` and `t` hold the same elements, counted with multiplicity.
pub open spec fn permutes(s: Seq<i32>, t: Seq<i32>) -> bool {
    s.to_multiset() == t.to_multiset()
}

/// Exchange `a[i]` and `a[j]`.
fn swap(a: &mut [i32], i: usize, j: usize)
    requires
        i < old(a)@.len(),
        j < old(a)@.len(),
    ensures
        final(a)@ == old(a)@.update(i as int, old(a)@[j as int]).update(j as int, old(a)@[i as int]),
        permutes(final(a)@, old(a)@),
{
    proof {
        broadcast use vstd::multiset::group_multiset_axioms;
        broadcast use vstd::seq_lib::group_to_multiset_ensures;
        let s = a@;
        let s1 = s.update(i as int, s[j as int]);
        to_multiset_update(s, i as int, s[j as int]);
        to_multiset_update(s1, j as int, s[i as int]);
        let m = s.to_multiset();
        assert(s1[j as int] == s[j as int]);
        assert(s.contains(s[i as int]));
        assert(m.count(s[i as int]) > 0);
        assert(s1.to_multiset() == m.insert(s[j as int]).remove(s[i as int]));
        assert(s1.update(j as int, s[i as int]).to_multiset()
            == m.insert(s[j as int]).remove(s[i as int]).insert(s[i as int]).remove(s[j as int]));
        assert(m.insert(s[j as int]).remove(s[i as int]).insert(s[i as int]).remove(s[j as int]) =~= m);
    }
    let ai = a[i];
    let aj = a[j];
    a[i] = aj;
    a[j] = ai;
}

/// Is `values` in ascending order?
pub fn is_sorted(values: &[i32]) -> (r: bool)
    ensures
        r == sorted(values@),
{
    let n = values.len();
    if n < 2 {
        return true;
    }
    let mut i: usize = 1;
    while i < n
        invariant
            n == values@.len(),
            1 <= i <= n,
            sorted(values@.subrange(0, i as int)),
        decreases n - i,
    {
        if values[i - 1] > values[i] {
            assert(!sorted(values@)) by {
                assert(values@[i - 1] > values@[i as int]);
            }
            return false;
        }
        assert(sorted(values@.subrange(0, i + 1))) by {
            let t = values@.subrange(0, i + 1);
            let p = values@.subrange(0, i as int);
            assert forall|x: int, y: int| 0 <= x <= y < t.len() implies t[x] <= t[y] by {
                if y < i {
                    assert(p[x] <= p[y]);
                } else if x < i {
                    assert(p[x] <= p[i - 1]);
                }
            }
        }
        i = i + 1;
    }
    assert(values@.subrange(0, n as int) =~= values@);
    true
}

/// Bubble sort: repeatedly swap adjacent out-of-order neighbours.
pub fn bubble_sort(a: &mut [i32])
    ensures
        sorted(final(a)@),
        permutes(final(a)@, old(a)@),
{
    let n = a.len();
    if n < 2 {
        return;
    }
    let mut end: usize = n - 1;
    while end > 0
        invariant
            n == a@.len(),
            end < n,
            permutes(a@, old(a)@),
            // a[end+1..] is sorted and holds the largest elements
            forall|x: int, y: int| end < x <= y < n ==> a@[x] <= a@[y],
            forall|x: int, y: int| 0 <= x <= end < y < n ==> a@[x] <= a@[y],
        decreases end,
    {
        let mut i: usize = 0;
        while i < end
            invariant
                n == a@.len(),
                0 < end < n,
                i <= end,
                permutes(a@, old(a)@),
                forall|x: int, y: int| end < x <= y < n ==> a@[x] <= a@[y],
                forall|x: int, y: int| 0 <= x <= end < y < n ==> a@[x] <= a@[y],
                // a[i] is the largest of a[0..=i]
                forall|x: int| 0 <= x <= i ==> a@[x] <= a@[i as int],
            decreases end - i,
        {
            if a[i] > a[i + 1] {
                swap(a, i, i + 1);
            }
            i = i + 1;
        }
        end = end - 1;
    }
}


/// Insertion sort: grow a sorted prefix, sinking each new element into place.
pub fn insertion_sort(a: &mut [i32])
    ensures
        sorted(final(a)@),
        permutes(final(a)@, old(a)@),
{
    let n = a.len();
    let mut i: usize = 1;
    while i < n
        invariant
            n == a@.len(),
            permutes(a@, old(a)@),
            forall|x: int, y: int| 0 <= x <= y < i && y < n ==> a@[x] <= a@[y],
        decreases n - i,
    {
        let mut j: usize = i;
        while j > 0 && a[j - 1] > a[j]
            invariant
                n == a@.len(),
                j <= i < n,
                permutes(a@, old(a)@),
                forall|x: int, y: int| 0 <= x <= y < j ==> a@[x] <= a@[y],
                forall|x: int, y: int| j < x <= y <= i ==> a@[x] <= a@[y],
                forall|x: int, y: int| 0 <= x < j && j < y <= i ==> a@[x] <= a@[y],
                forall|y: int| j < y <= i ==> a@[j as int] <= a@[y],
            decreases j,
        {
            swap(a, j - 1, j);
            j = j - 1;
        }
        i = i + 1;
    }
}

/// Selection sort: place the minimum of the unsorted suffix at its front.
pub fn selection_sort(a: &mut [i32])
    ensures
        sorted(final(a)@),
        permutes(final(a)@, old(a)@),
{
    let n = a.len();
    let mut i: usize = 0;
    while i < n
        invariant
            n == a@.len(),
            i <= n,
            permutes(a@, old(a)@),
            forall|x: int, y: int| 0 <= x <= y < i ==> a@[x] <= a@[y],
            forall|x: int, y: int| 0 <= x < i <= y < n ==> a@[x] <= a@[y],
        decreases n - i,
    {
        let mut min: usize = i;
        let mut j: usize = i + 1;
        while j < n
            invariant
                n == a@.len(),
                i < n,
                i <= min < n,
                i < j <= n,
                forall|k: int| i <= k < j ==> a@[min as int] <= a@[k],
            decreases n - j,
        {
            if a[j] < a[min] {
                min = j;
            }
            j = j + 1;
        }
        swap(a, i, min);
        i = i + 1;
    }
}


/// Two sequences that hold the same elements and agree outside `[lo, hi)`
/// hold the same elements inside `[lo, hi)`.
proof fn lemma_range_permutes(s: Seq<i32>, t: Seq<i32>, lo: int, hi: int)
    requires
        0 <= lo <= hi <= s.len(),
        s.len() == t.len(),
        permutes(s, t),
        forall|k: int| 0 <= k < s.len() && !(lo <= k < hi) ==> s[k] == t[k],
    ensures
        permutes(s.subrange(lo, hi), t.subrange(lo, hi)),
{
    broadcast use vstd::multiset::group_multiset_axioms;
    let n = s.len() as int;
    assert(s.subrange(0, lo) =~= t.subrange(0, lo));
    assert(s.subrange(hi, n) =~= t.subrange(hi, n));
    assert(s =~= s.subrange(0, lo) + s.subrange(lo, hi) + s.subrange(hi, n));
    assert(t =~= t.subrange(0, lo) + t.subrange(lo, hi) + t.subrange(hi, n));
    vstd::seq_lib::lemma_multiset_commutative(s.subrange(0, lo), s.subrange(lo, hi));
    vstd::seq_lib::lemma_multiset_commutative(
        s.subrange(0, lo) + s.subrange(lo, hi),
        s.subrange(hi, n),
    );
    vstd::seq_lib::lemma_multiset_commutative(t.subrange(0, lo), t.subrange(lo, hi));
    vstd::seq_lib::lemma_multiset_commutative(
        t.subrange(0, lo) + t.subrange(lo, hi),
        t.subrange(hi, n),
    );
    assert(s.subrange(lo, hi).to_multiset() =~= t.subrange(lo, hi).to_multiset()) by {
        assert forall|v: i32|
            s.subrange(lo, hi).to_multiset().count(v) == t.subrange(lo, hi).to_multiset().count(
                v,
            ) by {
            assert(s.to_multiset().count(v) == t.to_multiset().count(v));
        }
    }
}

/// A property held by every element of `s[lo..hi)` is held by every element
/// of `t[lo..hi)` when the two ranges hold the same elements.
proof fn lemma_range_property(
    s: Seq<i32>,
    t: Seq<i32>,
    lo: int,
    hi: int,
    p: spec_fn(i32) -> bool,
)
    requires
        0 <= lo <= hi <= s.len(),
        s.len() == t.len(),
        permutes(s.subrange(lo, hi), t.subrange(lo, hi)),
        forall|k: int| lo <= k < hi ==> #[trigger] p(s[k]),
    ensures
        forall|k: int| lo <= k < hi ==> #[trigger] p(t[k]),
{
    broadcast use vstd::seq_lib::group_to_multiset_ensures;
    assert forall|k: int| lo <= k < hi implies #[trigger] p(t[k]) by {
        let ts = t.subrange(lo, hi);
        let ss = s.subrange(lo, hi);
        assert(ts[k - lo] == t[k]);
        assert(ts.contains(t[k]));
        assert(ts.to_multiset().count(t[k]) > 0);
        assert(ss.to_multiset().count(t[k]) > 0);
        assert(ss.contains(t[k]));
        let m = choose|m: int| 0 <= m < ss.len() && ss[m] == t[k];
        assert(p(s[lo + m]));
    }
}

/// Sort `a[lo..hi)` in place by Lomuto-partition quicksort, leaving the rest
/// of `a` untouched.
fn quicksort_range(a: &mut [i32], lo: usize, hi: usize)
    requires
        lo <= hi <= old(a)@.len(),
    ensures
        final(a)@.len() == old(a)@.len(),
        permutes(final(a)@, old(a)@),
        forall|k: int| 0 <= k < old(a)@.len() && !(lo <= k < hi) ==> final(a)@[k] == old(a)@[k],
        forall|x: int, y: int| lo <= x <= y < hi ==> final(a)@[x] <= final(a)@[y],
    decreases hi - lo,
{
    if hi - lo <= 1 {
        return;
    }
    let ghost a0 = a@;
    // Lomuto partition around the last element.
    let pivot = hi - 1;
    let mut store = lo;
    let mut i = lo;
    while i < pivot
        invariant
            a@.len() == a0.len(),
            lo <= store <= i <= pivot < hi <= a@.len(),
            permutes(a@, a0),
            forall|k: int| 0 <= k < a0.len() && !(lo <= k < pivot) ==> a@[k] == a0[k],
            forall|k: int| lo <= k < store ==> a@[k] < a@[pivot as int],
            forall|k: int| store <= k < i ==> a@[k] >= a@[pivot as int],
        decreases pivot - i,
    {
        if a[i] < a[pivot] {
            swap(a, i, store);
            store = store + 1;
        }
        i = i + 1;
    }
    swap(a, store, pivot);
    let ghost a1 = a@;
    let ghost pv = a1[store as int];
    assert(forall|k: int| lo <= k < store ==> a1[k] < pv);
    assert(forall|k: int| store < k < hi ==> a1[k] >= pv);
    quicksort_range(a, lo, store);
    let ghost a2 = a@;
    let ghost below = |v: i32| v < pv;
    let ghost above = |v: i32| v >= pv;
    proof {
        lemma_range_permutes(a1, a2, lo as int, store as int);
        assert forall|k: int| lo <= k < store implies #[trigger] below(a1[k]) by {}
        lemma_range_property(a1, a2, lo as int, store as int, below);
    }
    quicksort_range(a, store + 1, hi);
    proof {
        let a3 = a@;
        lemma_range_permutes(a2, a3, store + 1, hi as int);
        assert forall|k: int| store + 1 <= k < hi implies #[trigger] above(a2[k]) by {
            assert(a2[k] == a1[k]);
        }
        lemma_range_property(a2, a3, store + 1, hi as int, above);
        assert forall|k: int| lo <= k < store implies a3[k] < pv by {
            assert(a3[k] == a2[k]);
            assert(below(a2[k]));
        }
        assert forall|k: int| store < k < hi implies a3[k] >= pv by {
            assert(above(a3[k]));
        }
        assert(a3[store as int] == pv);
    }
}

/// Quicksort (Lomuto partition around the last element).
pub fn quicksort(a: &mut [i32])
    ensures
        sorted(final(a)@),
        permutes(final(a)@, old(a)@),
{
    let n = a.len();
    quicksort_range(a, 0, n);
}


/// Every node in `[lo, end)` is at least as large as each of its children
/// (`2i + 1`, `2i + 2`) that lies below `end`.
pub open spec fn heap_from(s: Seq<i32>, lo: int, end: int) -> bool {
    forall|i: int, c: int|
        lo <= i < end && (c == 2 * i + 1 || c == 2 * i + 2) && c < end ==> #[trigger] s[i] >= #[trigger] s[c]
}

/// The root of a heap over `[0, end)` is its largest element.
proof fn lemma_heap_root_is_max(s: Seq<i32>, end: int, k: int)
    requires
        0 <= k < end <= s.len(),
        heap_from(s, 0, end),
    ensures
        s[0] >= s[k],
    decreases k,
{
    if k > 0 {
        let p = (k - 1) / 2;
        lemma_heap_root_is_max(s, end, p);
        assert(k == 2 * p + 1 || k == 2 * p + 2);
        assert(s[p] >= s[k]);
    }
}

/// `i` lies in the subtree rooted at `r` of the implicit binary tree whose
/// node `p` has children `2p + 1` and `2p + 2`.
pub open spec fn in_subtree(r: int, i: int) -> bool
    decreases i,
{
    if i <= r || i <= 0 {
        i == r
    } else {
        in_subtree(r, (i - 1) / 2)
    }
}

/// Every node of the subtree rooted at `root`, within `[0, end)`, is at
/// least as large as each of its children below `end`.
pub open spec fn heap_below(s: Seq<i32>, root: int, end: int) -> bool {
    forall|i: int, c: int|
        in_subtree(root, i) && i < end && (c == 2 * i + 1 || c == 2 * i + 2) && c < end
            ==> #[trigger] s[i] >= #[trigger] s[c]
}

proof fn lemma_subtree_child(r: int, i: int, c: int)
    requires
        0 <= r,
        in_subtree(r, i),
        c == 2 * i + 1 || c == 2 * i + 2,
    ensures
        in_subtree(r, c),
        r <= i,
{
    lemma_subtree_above_root(r, i);
    assert((c - 1) / 2 == i);
}

proof fn lemma_subtree_above_root(r: int, i: int)
    requires
        0 <= r,
        in_subtree(r, i),
    ensures
        r <= i,
        i != r ==> in_subtree(r, (i - 1) / 2) && (i - 1) / 2 < i,
    decreases i,
{
}

proof fn lemma_subtree_of_zero(i: int)
    requires
        0 <= i,
    ensures
        in_subtree(0, i),
    decreases i,
{
    if i > 0 {
        lemma_subtree_of_zero((i - 1) / 2);
    }
}

/// Restore the heap property of the subtree rooted at `root` within
/// `a[..end)`, assuming it already holds at every node of that subtree but
/// `root`; entries outside the subtree, or at or beyond `end`, stay put.
fn sift_down(a: &mut [i32], root: usize, end: usize)
    requires
        root < end <= old(a)@.len(),
        old(a)@.len() * 4 <= isize::MAX,
        forall|i: int, c: int|
            in_subtree(root as int, i) && i != root && i < end && (c == 2 * i + 1 || c == 2 * i
                + 2) && c < end ==> #[trigger] old(a)@[i] >= #[trigger] old(a)@[c],
    ensures
        final(a)@.len() == old(a)@.len(),
        permutes(final(a)@, old(a)@),
        forall|k: int|
            0 <= k < old(a)@.len() && !(in_subtree(root as int, k) && k < end) ==> #[trigger] final(a)@[k]
                == old(a)@[k],
        heap_below(final(a)@, root as int, end as int),
{
    let ghost a0 = a@;
    let mut cur = root;
    loop
        invariant
            a@.len() == a0.len(),
            a0.len() * 4 <= isize::MAX,
            root <= cur < end <= a@.len(),
            in_subtree(root as int, cur as int),
            permutes(a@, a0),
            forall|k: int|
                0 <= k < a0.len() && !(in_subtree(root as int, k) && k < end) ==> a@[k] == a0[k],
            forall|i: int, c: int|
                in_subtree(root as int, i) && i != cur && i < end && (c == 2 * i + 1 || c == 2 * i
                    + 2) && c < end ==> #[trigger] a@[i] >= #[trigger] a@[c],
            cur > root ==> forall|c: int|
                (c == 2 * cur + 1 || c == 2 * cur + 2) && c < end ==> a@[(cur - 1) / 2]
                    >= #[trigger] a@[c],
        ensures
            heap_below(a@, root as int, end as int),
            a@.len() == a0.len(),
            permutes(a@, a0),
            forall|k: int|
                0 <= k < a0.len() && !(in_subtree(root as int, k) && k < end) ==> a@[k] == a0[k],
        decreases end - cur,
    {
        let mut largest = cur;
        let l = 2 * cur + 1;
        let r = 2 * cur + 2;
        if l < end && a[l] > a[largest] {
            largest = l;
        }
        if r < end && a[r] > a[largest] {
            largest = r;
        }
        if largest == cur {
            break;
        }
        let ghost b = a@;
        proof {
            lemma_subtree_child(root as int, cur as int, largest as int);
            lemma_subtree_above_root(root as int, cur as int);
        }
        swap(a, cur, largest);
        proof {
            let p = (cur - 1) / 2;
            assert forall|i: int, c: int|
                in_subtree(root as int, i) && i != largest && i < end && (c == 2 * i + 1 || c == 2
                    * i + 2) && c < end implies #[trigger] a@[i] >= #[trigger] a@[c] by {
                lemma_subtree_child(root as int, i, c);
                if i == cur {
                } else if c == cur {
                    assert(i == p);
                } else {
                    assert(b[i] >= b[c]);
                }
            }
            assert forall|c: int|
                (c == 2 * largest + 1 || c == 2 * largest + 2) && c < end
                    implies a@[(largest - 1) / 2] >= #[trigger] a@[c] by {
                assert((largest - 1) / 2 == cur);
                lemma_subtree_child(root as int, largest as int, c);
                assert(b[largest as int] >= b[c]);
            }
        }
        cur = largest;
    }
}

/// Heapsort: build a max-heap, then repeatedly move the maximum to the end.
pub fn heapsort(a: &mut [i32])
    requires
        old(a)@.len() * 4 <= isize::MAX,
    ensures
        sorted(final(a)@),
        permutes(final(a)@, old(a)@),
{
    let n = a.len();
    let ghost a0 = a@;
    // Build a max-heap.
    let mut start = n / 2;
    while start > 0
        invariant
            n == a@.len(),
            n * 4 <= isize::MAX,
            start <= n / 2,
            permutes(a@, a0),
            heap_from(a@, start as int, n as int),
        decreases start,
    {
        start = start - 1;
        let ghost b = a@;
        sift_down(a, start, n);
        proof {
            assert forall|i: int, c: int|
                start <= i < n && (c == 2 * i + 1 || c == 2 * i + 2) && c < n
                    implies #[trigger] a@[i] >= #[trigger] a@[c] by {
                if !in_subtree(start as int, i) {
                    assert(!in_subtree(start as int, c)) by {
                        assert((c - 1) / 2 == i);
                    }
                    assert(b[i] >= b[c]);
                }
            }
        }
    }
    if n < 2 {
        return;
    }
    // Repeatedly move the max to the end and restore the heap.
    let mut end = n - 1;
    while end > 0
        invariant
            n == a@.len(),
            n * 4 <= isize::MAX,
            end < n,
            permutes(a@, a0),
            heap_from(a@, 0, end + 1),
            forall|x: int, y: int| end < x <= y < n ==> a@[x] <= a@[y],
            forall|x: int, y: int| 0 <= x <= end < y < n ==> a@[x] <= a@[y],
        decreases end,
    {
        proof {
            assert forall|k: int| 0 <= k <= end implies a@[0] >= #[trigger] a@[k] by {
                lemma_heap_root_is_max(a@, end + 1, k);
            }
        }
        swap(a, 0, end);
        let ghost b = a@;
        assert(heap_from(b, 1, end as int)) by {
            assert forall|i: int, c: int|
                1 <= i < end && (c == 2 * i + 1 || c == 2 * i + 2) && c < end
                    implies #[trigger] b[i] >= #[trigger] b[c] by {}
        }
        sift_down(a, 0, end);
        proof {
            assert forall|i: int, c: int|
                0 <= i < end && (c == 2 * i + 1 || c == 2 * i + 2) && c < end
                    implies #[trigger] a@[i] >= #[trigger] a@[c] by {
                lemma_subtree_of_zero(i);
            }
            assert forall|k: int| 0 <= k < n && !(0 <= k < end) implies a@[k] == b[k] by {
                assert(!(in_subtree(0, k) && k < end));
            }
        }
        let ghost le_top = |v: i32| v <= b[end as int];
        proof {
            lemma_range_permutes(b, a@, 0, end as int);
            assert forall|k: int| 0 <= k < end implies #[trigger] le_top(b[k]) by {}
            lemma_range_property(b, a@, 0, end as int, le_top);
            assert forall|x: int, y: int| 0 <= x < end <= y < n implies a@[x] <= a@[y] by {
                assert(le_top(a@[x]));
            }
        }
        end = end - 1;
    }
}


/// The probe sequence of binary search for `key` in `a[lo..hi)`: look at the
/// middle element, stop on a match, otherwise continue in the half the
/// comparison points to.
pub open spec fn search_probe(a: Seq<i32>, key: i32, lo: int, hi: int) -> Option<usize>
    decreases hi - lo,
{
    if lo >= hi {
        None
    } else {
        let mid = lo + (hi - lo) / 2;
        if a[mid] == key {
            Some(mid as usize)
        } else if a[mid] < key {
            search_probe(a, key, mid + 1, hi)
        } else {
            search_probe(a, key, lo, mid)
        }
    }
}

/// Classic binary search: the index of an element equal to `key`, or `None`.
/// On ascending input, `None` means that `key` does not occur.
pub fn binary_search(a: &[i32], key: i32) -> (r: Option<usize>)
    ensures
        r == search_probe(a@, key, 0, a@.len() as int),
        r matches Some(i) ==> i < a@.len() && a@[i as int] == key,
        sorted(a@) ==> (r is None <==> !a@.contains(key)),
{
    let mut lo: usize = 0;
    let mut hi: usize = a.len();
    while lo < hi
        invariant
            lo <= hi <= a@.len(),
            search_probe(a@, key, lo as int, hi as int) == search_probe(a@, key, 0, a@.len() as int),
            sorted(a@) ==> forall|k: int| 0 <= k < lo ==> a@[k] < key,
            sorted(a@) ==> forall|k: int| hi <= k < a@.len() ==> a@[k] > key,
        decreases hi - lo,
    {
        let mid = lo + (hi - lo) / 2;
        if a[mid] == key {
            return Some(mid);
        } else if a[mid] < key {
            lo = mid + 1;
        } else {
            hi = mid;
        }
    }
    proof {
        if sorted(a@) && a@.contains(key) {
            let k = choose|k: int| 0 <= k < a@.len() && a@[k] == key;
            assert(a@[k] == key);
        }
    }
    None
}

/// Two outputs that are each ascending and each a rearrangement of the same
/// input are equal: every correct sort gives the same result.
pub proof fn lemma_sorts_agree(input: Seq<i32>, x: Seq<i32>, y: Seq<i32>)
    requires
        sorted(x),
        permutes(x, input),
        sorted(y),
        permutes(y, input),
    ensures
        x == y,
{
    let leq = |p: i32, q: i32| p <= q;
    assert(vstd::relations::sorted_by(x, leq)) by {
        assert forall|i: int, j: int| 0 <= i < j < x.len() implies #[trigger] leq(x[i], x[j]) by {}
    }
    assert(vstd::relations::sorted_by(y, leq)) by {
        assert forall|i: int, j: int| 0 <= i < j < y.len() implies #[trigger] leq(y[i], y[j]) by {}
    }
    assert(vstd::relations::total_ordering(leq));
    vstd::seq_lib::lemma_sorted_unique(x, y, leq);
}


/// Number of elements in the shuffled working set.
pub const N: usize = 128;

/// Seed of the generator that drives the shuffle.
pub const SHUFFLE_SEED: u32 = 0x1234_5678;

/// `s` with the elements at `i` and `j` exchanged.
pub open spec fn seq_swap(s: Seq<i32>, i: int, j: int) -> Seq<i32> {
    s.update(i, s[j]).update(j, s[i])
}

/// The values `0, 1, ..., n - 1` in order.
pub open spec fn iota(n: nat) -> Seq<i32> {
    Seq::new(n, |k: int| k as i32)
}

/// Fisher–Yates from position `i` down to `1`: at each position `i` the
/// generator steps and `i` is exchanged with position `state % (i + 1)`.
pub open spec fn fisher_yates(s: Seq<i32>, state: u32, i: int) -> Seq<i32>
    decreases i,
{
    if i <= 0 {
        s
    } else {
        let next = lcg_step(state);
        fisher_yates(seq_swap(s, i, next as int % (i + 1)), next, i - 1)
    }
}

proof fn lemma_fisher_yates_permutes(s: Seq<i32>, state: u32, i: int)
    requires
        i < s.len(),
    ensures
        fisher_yates(s, state, i).len() == s.len(),
        permutes(fisher_yates(s, state, i), s),
    decreases i,
{
    broadcast use vstd::multiset::group_multiset_axioms;
    broadcast use vstd::seq_lib::group_to_multiset_ensures;
    if i > 0 {
        let next = lcg_step(state);
        let j = next as int % (i + 1);
        let t = seq_swap(s, i, j);
        let s1 = s.update(i, s[j]);
        assert(s.contains(s[i]));
        assert(s1[j] == s[j] || i == j);
        assert(t.to_multiset() =~= s.to_multiset()) by {
            assert(s1.to_multiset() == s.to_multiset().insert(s[j]).remove(s[i]));
            assert(t.to_multiset() == s1.to_multiset().insert(s[i]).remove(s1[j]));
            if i != j {
                assert(s1[j] == s[j]);
            }
        }
        lemma_fisher_yates_permutes(t, next, i - 1);
    }
}

/// A reproducible shuffled array of `N` values in `0..N`.
pub fn shuffled() -> (r: Vec<i32>)
    ensures
        r@ == fisher_yates(iota(N as nat), SHUFFLE_SEED, N - 1),
        permutes(r@, iota(N as nat)),
{
    let mut data: Vec<i32> = Vec::new();
    let mut k: usize = 0;
    while k < N
        invariant
            k <= N,
            data@ == iota(k as nat),
        decreases N - k,
    {
        data.push(k as i32);
        k = k + 1;
        assert(data@ =~= iota(k as nat));
    }
    let mut rng = Lcg(SHUFFLE_SEED);
    let mut i: usize = N - 1;
    // Fisher–Yates with generator-derived indices.
    while i > 0
        invariant
            i < N,
            data@.len() == N,
            fisher_yates(data@, rng.0, i as int) == fisher_yates(iota(N as nat), SHUFFLE_SEED, N - 1),
        decreases i,
    {
        let ghost before = data@;
        let j = (rng.next() as usize) % (i + 1);
        let t = data[i];
        let u = data[j];
        data.set(i, u);
        data.set(j, t);
        assert(data@ =~= seq_swap(before, i as int, j as int));
        i = i - 1;
    }
    proof {
        lemma_fisher_yates_permutes(iota(N as nat), SHUFFLE_SEED, N - 1);
    }
    data
}

} // verus!
