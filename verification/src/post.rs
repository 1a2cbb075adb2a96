//! Post-processing of a sorted vector: removal of adjacent duplicates,
//! end-to-end reversal, and the full sort-then-postprocess pipeline.

use vstd::prelude::*;

verus! {

use crate::sort::{quick_sort, sort_spec, sorted, swap};

/// Collapses every run of adjacent equal elements of `s` into a single
/// representative: an element is kept exactly when it differs from its
/// predecessor.
pub open spec fn dedup_adjacent(s: Seq<i32>) -> Seq<i32>
    decreases s.len(),
{
    if s.len() <= 1 {
        s
    } else if s[s.len() - 2] == s[s.len() - 1] {
        dedup_adjacent(s.drop_last())
    } else {
        dedup_adjacent(s.drop_last()).push(s[s.len() - 1])
    }
}

/// Adjacent-duplicate removal keeps the last element and never lengthens the
/// sequence.
proof fn lemma_dedup_adjacent_last(s: Seq<i32>)
    requires
        s.len() > 0,
    ensures
        dedup_adjacent(s).len() > 0,
        dedup_adjacent(s).len() <= s.len(),
        dedup_adjacent(s).last() == s.last(),
    decreases s.len(),
{
    if s.len() > 1 {
        lemma_dedup_adjacent_last(s.drop_last());
    }
}

/// On a sorted sequence, removing adjacent duplicates is true
/// set-deduplication: the result is strictly increasing, so every distinct
/// value appears exactly once, in the order the sorted sequence gave them,
/// and the set of values is unchanged.
pub proof fn lemma_dedup_adjacent_sorted(s: Seq<i32>)
    requires
        sorted(s),
    ensures
        forall|i: int, j: int|
            0 <= i < j < dedup_adjacent(s).len() ==> dedup_adjacent(s)[i] < dedup_adjacent(s)[j],
        dedup_adjacent(s).to_set() == s.to_set(),
    decreases s.len(),
{
    let d = dedup_adjacent(s);
    if s.len() <= 1 {
        assert(d.to_set() =~= s.to_set());
    } else {
        let t = s.drop_last();
        let dt = dedup_adjacent(t);
        assert(sorted(t)) by {
            assert(forall|i: int, j: int| 0 <= i < j < t.len() ==> t[i] == s[i] && t[j] == s[j]);
        }
        lemma_dedup_adjacent_sorted(t);
        lemma_dedup_adjacent_last(t);
        assert(t.last() == s[s.len() - 2]);
        // Every value of the deduplicated prefix occurs in the prefix, whose
        // elements are all at most its last element.
        assert forall|i: int| 0 <= i < dt.len() implies dt[i] <= s[s.len() - 2] by {
            assert(dt.to_set().contains(dt[i]));
            assert(t.to_set().contains(dt[i]));
            let k = choose|k: int| 0 <= k < t.len() && t[k] == dt[i];
            assert(t[k] <= t[t.len() - 1]);
        }
        if s[s.len() - 2] == s[s.len() - 1] {
            assert(d == dt);
            assert(t.to_set().contains(t.last()));
            assert(d.to_set() =~= s.to_set()) by {
                assert forall|x: i32| s.to_set().contains(x) implies t.to_set().contains(x) by {
                    let k = choose|k: int| 0 <= k < s.len() && s[k] == x;
                    if k == s.len() - 1 {
                        assert(t[s.len() - 2] == x);
                    } else {
                        assert(t[k] == x);
                    }
                }
                assert(forall|x: i32| t.to_set().contains(x) ==> s.to_set().contains(x));
            }
        } else {
            assert(d == dt.push(s[s.len() - 1]));
            assert(s[s.len() - 2] < s[s.len() - 1]);
            assert(forall|i: int| 0 <= i < dt.len() ==> #[trigger] d[i] == dt[i]);
            assert(forall|i: int| 0 <= i < dt.len() ==> #[trigger] d[i] < d[dt.len() as int]);
            assert(d.to_set() =~= s.to_set()) by {
                assert forall|x: i32| s.to_set().contains(x) implies d.to_set().contains(x) by {
                    let k = choose|k: int| 0 <= k < s.len() && s[k] == x;
                    if k == s.len() - 1 {
                        assert(d.last() == x);
                    } else {
                        assert(t[k] == x);
                        assert(dt.to_set().contains(x));
                        let m = choose|m: int| 0 <= m < dt.len() && dt[m] == x;
                        assert(d[m] == x);
                    }
                }
                assert forall|x: i32| d.to_set().contains(x) implies s.to_set().contains(x) by {
                    let m = choose|m: int| 0 <= m < d.len() && d[m] == x;
                    if m == d.len() - 1 {
                        assert(s[s.len() - 1] == x);
                    } else {
                        assert(dt[m] == x);
                        assert(t.to_set().contains(x));
                        let k = choose|k: int| 0 <= k < t.len() && t[k] == x;
                        assert(s[k] == x);
                    }
                }
            }
        }
    }
}

/// Removes every element equal to its predecessor, in place: what remains is
/// `dedup_adjacent` of the input.
pub fn dedup(v: &mut Vec<i32>)
    ensures
        final(v)@ == dedup_adjacent(old(v)@),
{
    let ghost orig = v@;
    let n = v.len();
    if n <= 1 {
        return ;
    }
    let mut w: usize = 1;
    let mut i: usize = 1;
    while i < n
        invariant
            1 <= w <= i <= n,
            n == v@.len(),
            n == orig.len(),
            v@.subrange(0, w as int) == dedup_adjacent(orig.subrange(0, i as int)),
            forall|k: int| i <= k < n ==> v@[k] == orig[k],
            v@[w - 1] == orig[i - 1],
        decreases n - i,
    {
        let x = v[i];
        let keep = x != v[w - 1];
        proof {
            let pre = orig.subrange(0, i as int);
            let ext = orig.subrange(0, i + 1);
            assert(ext.drop_last() =~= pre);
            assert(ext[ext.len() - 2] == orig[i - 1]);
            assert(ext[ext.len() - 1] == orig[i as int]);
            lemma_dedup_adjacent_last(pre);
        }
        if keep {
            v.set(w, x);
            proof {
                assert(v@.subrange(0, w + 1) =~= dedup_adjacent(orig.subrange(0, i as int)).push(
                    orig[i as int],
                ));
            }
            w += 1;
        } else {
            proof {
                assert(v@.subrange(0, w as int) == dedup_adjacent(orig.subrange(0, i + 1)));
            }
        }
        i += 1;
    }
    v.truncate(w);
    proof {
        assert(orig.subrange(0, n as int) =~= orig);
    }
}

/// Reverses the vector end to end, in place.
pub fn reverse(v: &mut Vec<i32>)
    ensures
        final(v)@ == old(v)@.reverse(),
{
    let ghost orig = v@;
    let n = v.len();
    let mut i: usize = 0;
    while i < n / 2
        invariant
            0 <= i <= n / 2,
            n == v@.len(),
            n == orig.len(),
            forall|k: int| 0 <= k < i ==> v@[k] == orig[n - 1 - k],
            forall|k: int| 0 <= k < i ==> v@[n - 1 - k] == orig[k],
            forall|k: int| i <= k < n - i ==> v@[k] == orig[k],
        decreases n / 2 - i,
    {
        swap(v, i, n - 1 - i);
        i += 1;
    }
    proof {
        assert(v@ =~= orig.reverse());
    }
}

/// The sequence the whole pipeline owes for input `s`: the ascending sort,
/// then (when `unique` is set) removal of adjacent duplicates, then (when
/// `rev` is set) reversal.  Deduplication comes before reversal.
pub open spec fn process_spec(s: Seq<i32>, unique: bool, rev: bool) -> Seq<i32> {
    let t = sort_spec(s);
    let u = if unique {
        dedup_adjacent(t)
    } else {
        t
    };
    if rev {
        u.reverse()
    } else {
        u
    }
}

/// Sorts `v` ascending in place, then applies the requested post-processing
/// steps: duplicate removal first, reversal second.
pub fn process(v: &mut Vec<i32>, unique: bool, rev: bool)
    ensures
        final(v)@ == process_spec(old(v)@, unique, rev),
{
    quick_sort(v);
    if unique {
        dedup(v);
    }
    if rev {
        reverse(v);
    }
}

} // verus!
