//! In-place quicksort with a Lomuto partition around the last element of the
//! range under work.

use vstd::prelude::*;

verus! {

use vstd::relations::{sorted_by, total_ordering};
use vstd::seq_lib::lemma_multiset_commutative;
use vstd::seq_lib::lemma_sorted_unique;

/// The ascending order the sort establishes.
pub open spec fn le(x: i32, y: i32) -> bool {
    x <= y
}

/// `s` is non-decreasing between `lo` (inclusive) and `hi` (exclusive).
pub open spec fn sorted_between(s: Seq<i32>, lo: int, hi: int) -> bool {
    forall|i: int, j: int| lo <= i < j < hi ==> s[i] <= s[j]
}

/// `s` is non-decreasing throughout.
pub open spec fn sorted(s: Seq<i32>) -> bool {
    sorted_between(s, 0, s.len() as int)
}

/// The sorted rearrangement of `s`: the unique non-decreasing sequence with
/// the same multiset of elements.
pub open spec fn sort_spec(s: Seq<i32>) -> Seq<i32> {
    s.sort_by(|x: i32, y: i32| le(x, y))
}

/// `le` is a total order on `i32`.
pub proof fn lemma_le_total_ordering()
    ensures
        total_ordering(|x: i32, y: i32| le(x, y)),
{
}

/// What `sort_spec` returns is sorted and keeps the multiset of elements.
pub proof fn lemma_sort_spec_ensures(s: Seq<i32>)
    ensures
        sorted(sort_spec(s)),
        sort_spec(s).to_multiset() == s.to_multiset(),
        sort_spec(s).len() == s.len(),
{
    lemma_le_total_ordering();
    s.lemma_sort_by_ensures(|x: i32, y: i32| le(x, y));
    assert(sorted_by(sort_spec(s), |x: i32, y: i32| le(x, y)));
    assert forall|i: int, j: int| 0 <= i < j < sort_spec(s).len() implies sort_spec(s)[i]
        <= sort_spec(s)[j] by {
        assert((|x: i32, y: i32| le(x, y))(sort_spec(s)[i], sort_spec(s)[j]));
    }
    vstd::seq_lib::to_multiset_len(s);
    vstd::seq_lib::to_multiset_len(sort_spec(s));
}

/// A sorted sequence is the only sorted arrangement of its elements: two
/// sorted sequences over the same multiset are equal.  In particular the sort
/// is idempotent: run on an already sorted sequence, any function that
/// returns a sorted permutation of its input must hand the sequence back
/// unchanged.
pub proof fn lemma_sorted_permutation_equal(a: Seq<i32>, b: Seq<i32>)
    requires
        sorted(a),
        sorted(b),
        a.to_multiset() == b.to_multiset(),
    ensures
        a == b,
{
    let leq = |x: i32, y: i32| le(x, y);
    lemma_le_total_ordering();
    assert(sorted_by(a, leq));
    assert(sorted_by(b, leq));
    lemma_sorted_unique(a, b, leq);
}

/// Sorting is idempotent: sorting a second time changes nothing.
pub proof fn lemma_sort_spec_idempotent(s: Seq<i32>)
    ensures
        sort_spec(sort_spec(s)) == sort_spec(s),
{
    lemma_sort_spec_ensures(s);
    lemma_sort_spec_ensures(sort_spec(s));
    lemma_sorted_permutation_equal(sort_spec(sort_spec(s)), sort_spec(s));
}

/// A sequence of length at most one is already sorted, so the sort leaves it
/// unchanged: the empty sequence and singletons are base cases.
pub proof fn lemma_sort_spec_short_identity(s: Seq<i32>)
    requires
        s.len() <= 1,
    ensures
        sort_spec(s) == s,
{
    lemma_sort_spec_ensures(s);
    lemma_sorted_permutation_equal(sort_spec(s), s);
}

/// Exchanges the elements at positions `i` and `j`.
pub(crate) fn swap(v: &mut Vec<i32>, i: usize, j: usize)
    requires
        i < old(v).len(),
        j < old(v).len(),
    ensures
        final(v)@ == old(v)@.update(i as int, old(v)@[j as int]).update(
            j as int,
            old(v)@[i as int],
        ),
        final(v)@.len() == old(v)@.len(),
        final(v)@.to_multiset() == old(v)@.to_multiset(),
{
    let x = v[i];
    let y = v[j];
    v.set(i, y);
    v.set(j, x);
    proof {
        lemma_swap_multiset(old(v)@, i as int, j as int);
    }
}

/// Swapping two positions of a sequence does not change its multiset.
proof fn lemma_swap_multiset(s: Seq<i32>, i: int, j: int)
    requires
        0 <= i < s.len(),
        0 <= j < s.len(),
    ensures
        s.update(i, s[j]).update(j, s[i]).to_multiset() == s.to_multiset(),
{
    broadcast use vstd::seq_lib::group_to_multiset_ensures;
    broadcast use vstd::multiset::group_multiset_axioms;

    let t = s.update(i, s[j]).update(j, s[i]);
    if i == j {
        assert(t =~= s);
    } else {
        let m = s.to_multiset();
        assert(s.contains(s[i]));
        assert(s.contains(s[j]));
        assert(m.count(s[i]) > 0);
        assert(m.count(s[j]) > 0);
        assert(s.update(i, s[j])[j] == s[j]);
        assert(t.to_multiset() =~= m);
    }
}

/// Two sequences that agree outside `[lo, hi)` have equal multisets exactly
/// when their `[lo, hi)` parts do.
proof fn lemma_patch_multiset(s1: Seq<i32>, s2: Seq<i32>, lo: int, hi: int)
    requires
        s1.len() == s2.len(),
        0 <= lo <= hi <= s1.len(),
        forall|i: int| 0 <= i < lo || hi <= i < s1.len() ==> s1[i] == s2[i],
    ensures
        s1.subrange(lo, hi).to_multiset() == s2.subrange(lo, hi).to_multiset()
            <==> s1.to_multiset() == s2.to_multiset(),
{
    broadcast use vstd::multiset::group_multiset_axioms;

    let n = s1.len() as int;
    let a1 = s1.subrange(0, lo);
    let m1 = s1.subrange(lo, hi);
    let b1 = s1.subrange(hi, n);
    let a2 = s2.subrange(0, lo);
    let m2 = s2.subrange(lo, hi);
    let b2 = s2.subrange(hi, n);
    assert(a1 =~= a2);
    assert(b1 =~= b2);
    assert(s1 =~= (a1 + m1) + b1);
    assert(s2 =~= (a2 + m2) + b2);
    lemma_multiset_commutative(a1 + m1, b1);
    lemma_multiset_commutative(a2 + m2, b2);
    lemma_multiset_commutative(a1, m1);
    lemma_multiset_commutative(a2, m2);
    if m1.to_multiset() == m2.to_multiset() {
        assert(s1.to_multiset() =~= s2.to_multiset());
    }
    if s1.to_multiset() == s2.to_multiset() {
        assert forall|x: i32| m1.to_multiset().count(x) == m2.to_multiset().count(x) by {
            assert(s1.to_multiset().count(x) == a1.to_multiset().count(x)
                + m1.to_multiset().count(x) + b1.to_multiset().count(x));
            assert(s2.to_multiset().count(x) == a2.to_multiset().count(x)
                + m2.to_multiset().count(x) + b2.to_multiset().count(x));
        }
        assert(m1.to_multiset() =~= m2.to_multiset());
    }
}

/// Rearranges `v` between `lo` (inclusive) and `hi` (exclusive) around the
/// value initially at position `hi - 1` (the pivot) with a single
/// left-to-right scan.  Everything strictly below the returned position is
/// strictly less than the pivot, everything strictly above it (within the
/// range) is at least the pivot, and the pivot itself rests at the returned
/// position.  Only positions inside the range move, and only by exchanges.
pub fn partition(v: &mut Vec<i32>, lo: usize, hi: usize) -> (p: usize)
    requires
        lo < hi,
        hi <= old(v).len(),
    ensures
        lo <= p < hi,
        final(v)@.len() == old(v)@.len(),
        final(v)@[p as int] == old(v)@[hi - 1],
        forall|i: int| lo <= i < p ==> final(v)@[i] < final(v)@[p as int],
        forall|i: int| p < i < hi ==> final(v)@[i] >= final(v)@[p as int],
        final(v)@.subrange(lo as int, hi as int).to_multiset() == old(v)@.subrange(
            lo as int,
            hi as int,
        ).to_multiset(),
        forall|i: int| 0 <= i < lo || hi <= i < old(v)@.len() ==> final(v)@[i] == old(v)@[i],
{
    let ghost orig = v@;
    let pivot = v[hi - 1];
    let mut b = lo;
    let mut i = lo;
    while i < hi - 1
        invariant
            lo <= b <= i <= hi - 1,
            lo < hi <= v@.len(),
            v@.len() == orig.len(),
            pivot == orig[hi - 1],
            v@[hi - 1] == pivot,
            forall|k: int| lo <= k < b ==> v@[k] < pivot,
            forall|k: int| b <= k < i ==> v@[k] >= pivot,
            forall|k: int| 0 <= k < lo || hi <= k < orig.len() ==> v@[k] == orig[k],
            v@.to_multiset() == orig.to_multiset(),
        decreases hi - 1 - i,
    {
        if v[i] < pivot {
            swap(v, b, i);
            b += 1;
        }
        i += 1;
    }
    swap(v, b, hi - 1);
    proof {
        lemma_patch_multiset(v@, orig, lo as int, hi as int);
    }
    b
}

/// Sorts `v` between `lo` (inclusive) and `hi` (exclusive) in place:
/// partition around the last element of the range, then recurse on the part
/// below the pivot and the part above it.  A range of length at most one is
/// left untouched.
fn sort_range(v: &mut Vec<i32>, lo: usize, hi: usize)
    requires
        lo <= hi,
        hi <= old(v).len(),
    ensures
        final(v)@.len() == old(v)@.len(),
        sorted_between(final(v)@, lo as int, hi as int),
        final(v)@.subrange(lo as int, hi as int).to_multiset() == old(v)@.subrange(
            lo as int,
            hi as int,
        ).to_multiset(),
        forall|i: int| 0 <= i < lo || hi <= i < old(v)@.len() ==> final(v)@[i] == old(v)@[i],
    decreases hi - lo,
{
    if hi - lo <= 1 {
        return ;
    }
    let ghost s0 = v@;
    let p = partition(v, lo, hi);
    let ghost s1 = v@;
    sort_range(v, lo, p);
    let ghost s2 = v@;
    sort_range(v, p + 1, hi);
    let ghost s3 = v@;
    proof {
        broadcast use vstd::seq_lib::group_to_multiset_ensures;

        let loi = lo as int;
        let hii = hi as int;
        let pi = p as int;
        let pv = s1[pi];
        // The left recursion did not move the pivot or anything above it,
        // and the right recursion did not move the pivot or anything below.
        assert(s2[pi] == pv);
        assert(s3[pi] == pv);
        // Everything now below the pivot is a rearrangement of what stood
        // there after partitioning, hence still strictly less than the pivot.
        assert forall|i: int| loi <= i < pi implies s3[i] < pv by {
            assert(s3[i] == s2[i]);
            let t1 = s1.subrange(loi, pi);
            let t2 = s2.subrange(loi, pi);
            assert(t2[i - loi] == s2[i]);
            assert(t2.contains(s2[i]));
            assert(t2.to_multiset().count(s2[i]) > 0);
            assert(t1.to_multiset().count(s2[i]) > 0);
            assert(t1.contains(s2[i]));
            let k = choose|k: int| 0 <= k < t1.len() && t1[k] == s2[i];
            assert(s1[loi + k] == s2[i]);
        }
        // And everything now above it is a rearrangement of what stood
        // there, hence still at least the pivot.
        assert forall|i: int| pi < i < hii implies s3[i] >= pv by {
            let t2 = s2.subrange(pi + 1, hii);
            let t3 = s3.subrange(pi + 1, hii);
            assert(t3[i - pi - 1] == s3[i]);
            assert(t3.contains(s3[i]));
            assert(t3.to_multiset().count(s3[i]) > 0);
            assert(t2.to_multiset().count(s3[i]) > 0);
            assert(t2.contains(s3[i]));
            let k = choose|k: int| 0 <= k < t2.len() && t2[k] == s3[i];
            assert(s2[pi + 1 + k] == s3[i]);
            assert(s2[pi + 1 + k] == s1[pi + 1 + k]);
        }
        assert(sorted_between(s3, loi, hii)) by {
            assert forall|i: int, j: int| loi <= i < j < hii implies s3[i] <= s3[j] by {
                if j < pi {
                    assert(s3[i] == s2[i] && s3[j] == s2[j]);
                } else if j == pi {
                    assert(s3[j] == pv);
                } else if i == pi {
                    assert(s3[i] == pv);
                } else if i > pi {
                } else {
                    assert(s3[i] < pv);
                    assert(s3[j] >= pv);
                }
            }
        }
        // The three stages each preserve the multiset of the whole range.
        lemma_patch_multiset(s2, s1, loi, pi);
        lemma_patch_multiset(s2, s1, loi, hii);
        lemma_patch_multiset(s3, s2, pi + 1, hii);
        lemma_patch_multiset(s3, s2, loi, hii);
        assert(s3.subrange(loi, hii).to_multiset() == s0.subrange(loi, hii).to_multiset());
    }
}

/// Sorts the whole vector ascending, in place.  The result is the sorted
/// rearrangement of the input: non-decreasing, with the multiset of elements
/// kept exactly.
pub fn quick_sort(v: &mut Vec<i32>)
    ensures
        final(v)@.len() == old(v)@.len(),
        sorted(final(v)@),
        final(v)@.to_multiset() == old(v)@.to_multiset(),
        final(v)@ == sort_spec(old(v)@),
{
    let n = v.len();
    sort_range(v, 0, n);
    proof {
        assert(v@.subrange(0, n as int) =~= v@);
        assert(old(v)@.subrange(0, n as int) =~= old(v)@);
        lemma_sort_spec_ensures(old(v)@);
        lemma_sorted_permutation_equal(v@, sort_spec(old(v)@));
    }
}

} // verus!
