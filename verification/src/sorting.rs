//! Sorting of distinct words.

use crate::model::lemma_take_one_more;
use vstd::prelude::*;

verus! {

/// The sequence ascends strictly: every entry is below the later ones.
pub open spec fn ascending(s: Seq<u64>) -> bool {
    forall|i: int, j: int| 0 <= i < j < s.len() ==> s[i] < s[j]
}

/// Two strictly ascending sequences that hold the same words are the
/// same sequence: the order in which the words came does not show in
/// the sorted sequence.
pub proof fn lemma_sorted_same(a: Seq<u64>, b: Seq<u64>)
    requires
        ascending(a),
        ascending(b),
        a.to_set() == b.to_set(),
    ensures
        a == b,
    decreases a.len(),
{
    a.unique_seq_to_set();
    b.unique_seq_to_set();
    if a.len() == 0 {
        assert(a =~= b);
    } else {
        let top = a.last();
        assert(a.to_set().contains(top));
        assert(b.contains(top));
        let j = choose|j: int| 0 <= j < b.len() && b[j] == top;
        assert(b.to_set().contains(b.last()));
        assert(a.contains(b.last()));
        let i = choose|i: int| 0 <= i < a.len() && a[i] == b.last();
        assert(j == b.len() - 1);
        let a0 = a.drop_last();
        let b0 = b.drop_last();
        assert forall|x: u64| a0.to_set().contains(x) <==> b0.to_set().contains(x) by {
            if a0.contains(x) {
                let k = choose|k: int| 0 <= k < a0.len() && a0[k] == x;
                assert(a[k] == x);
                assert(a.to_set().contains(x));
                assert(b.contains(x));
                let m = choose|m: int| 0 <= m < b.len() && b[m] == x;
                assert(m != b.len() - 1);
                assert(b0[m] == x);
            }
            if b0.contains(x) {
                let k = choose|k: int| 0 <= k < b0.len() && b0[k] == x;
                assert(b[k] == x);
                assert(b.to_set().contains(x));
                assert(a.contains(x));
                let m = choose|m: int| 0 <= m < a.len() && a[m] == x;
                assert(m != a.len() - 1);
                assert(a0[m] == x);
            }
        }
        assert(a0.to_set() =~= b0.to_set());
        lemma_sorted_same(a0, b0);
        assert(a =~= a0.push(top));
        assert(b =~= b0.push(top));
    }
}

/// Merges two strictly ascending vectors that share no word into one.
fn merge(a: &Vec<u64>, b: &Vec<u64>) -> (out: Vec<u64>)
    requires
        ascending(a@),
        ascending(b@),
        a@.to_set().disjoint(b@.to_set()),
        a@.len() + b@.len() <= usize::MAX,
    ensures
        ascending(out@),
        out@.len() == a@.len() + b@.len(),
        out@.to_set() == a@.to_set().union(b@.to_set()),
{
    let mut out: Vec<u64> = Vec::with_capacity(a.len() + b.len());
    let mut i: usize = 0;
    let mut j: usize = 0;
    assert(out@.to_set() =~= a@.take(0).to_set().union(b@.take(0).to_set()));
    while i < a.len() || j < b.len()
        invariant
            i <= a@.len(),
            j <= b@.len(),
            ascending(a@),
            ascending(b@),
            a@.to_set().disjoint(b@.to_set()),
            ascending(out@),
            out@.len() == i + j,
            out@.to_set() == a@.take(i as int).to_set().union(b@.take(j as int).to_set()),
            forall|k: int, m: int| 0 <= k < out@.len() && i <= m < a@.len() ==> out@[k] < a@[m],
            forall|k: int, m: int| 0 <= k < out@.len() && j <= m < b@.len() ==> out@[k] < b@[m],
        decreases a@.len() - i + b@.len() - j,
    {
        let ghost before = out@;
        let from_a = if j >= b.len() {
            true
        } else if i >= a.len() {
            false
        } else {
            a[i] < b[j]
        };
        proof {
            if i < a@.len() && j < b@.len() {
                assert(a@.to_set().contains(a@[i as int]));
                assert(b@.to_set().contains(b@[j as int]));
            }
        }
        if from_a {
            out.push(a[i]);
            proof {
                lemma_take_one_more(a@, i as int);
                assert(out@.to_set() =~= a@.take(i + 1).to_set().union(b@.take(j as int).to_set())) by {
                    lemma_pushed_set(before, a@[i as int]);
                }
            }
            i = i + 1;
        } else {
            out.push(b[j]);
            proof {
                lemma_take_one_more(b@, j as int);
                assert(out@.to_set() =~= a@.take(i as int).to_set().union(b@.take(j + 1).to_set())) by {
                    lemma_pushed_set(before, b@[j as int]);
                }
            }
            j = j + 1;
        }
    }
    proof {
        assert(a@.take(i as int) =~= a@);
        assert(b@.take(j as int) =~= b@);
    }
    out
}

/// The words of a sequence with one more are the words of the sequence
/// and that one.
proof fn lemma_pushed_set(s: Seq<u64>, w: u64)
    ensures
        s.push(w).to_set() == s.to_set().insert(w),
{
    let q = s.push(w);
    assert forall|x: u64| q.to_set().contains(x) <==> s.to_set().insert(w).contains(x) by {
        if q.contains(x) {
            let k = choose|k: int| 0 <= k < q.len() && q[k] == x;
            if k < s.len() {
                assert(s[k] == x);
            }
        }
        if s.contains(x) {
            let k = choose|k: int| 0 <= k < s.len() && s[k] == x;
            assert(q[k] == x);
        }
        if x == w {
            assert(q[s.len() as int] == w);
        }
    }
    assert(q.to_set() =~= s.to_set().insert(w));
}

/// The words of a stretch of a sequence are those of its two halves.
proof fn lemma_split_set(s: Seq<u64>, lo: int, mid: int, hi: int)
    requires
        0 <= lo <= mid <= hi <= s.len(),
        s.no_duplicates(),
    ensures
        s.subrange(lo, hi).to_set() == s.subrange(lo, mid).to_set().union(
            s.subrange(mid, hi).to_set(),
        ),
        s.subrange(lo, mid).to_set().disjoint(s.subrange(mid, hi).to_set()),
{
    let whole = s.subrange(lo, hi);
    let left = s.subrange(lo, mid);
    let right = s.subrange(mid, hi);
    assert forall|x: u64| whole.to_set().contains(x) <==> left.to_set().union(
        right.to_set(),
    ).contains(x) by {
        if whole.contains(x) {
            let k = choose|k: int| 0 <= k < whole.len() && whole[k] == x;
            if lo + k < mid {
                assert(left[k] == x);
            } else {
                assert(right[lo + k - mid] == x);
            }
        }
        if left.contains(x) {
            let k = choose|k: int| 0 <= k < left.len() && left[k] == x;
            assert(whole[k] == x);
        }
        if right.contains(x) {
            let k = choose|k: int| 0 <= k < right.len() && right[k] == x;
            assert(whole[k + mid - lo] == x);
        }
    }
    assert(whole.to_set() =~= left.to_set().union(right.to_set()));
    assert forall|x: u64| !(left.to_set().contains(x) && right.to_set().contains(x)) by {
        if left.contains(x) && right.contains(x) {
            let k = choose|k: int| 0 <= k < left.len() && left[k] == x;
            let m = choose|m: int| 0 <= m < right.len() && right[m] == x;
            assert(s[lo + k] == s[mid + m]);
        }
    }
}

/// Sorts the words of the stretch of `v` from `lo` up to `hi`, which are
/// distinct, by merging its sorted halves.
fn sort_stretch(v: &Vec<u64>, lo: usize, hi: usize) -> (out: Vec<u64>)
    requires
        lo <= hi <= v@.len(),
        v@.no_duplicates(),
    ensures
        ascending(out@),
        out@.len() == hi - lo,
        out@.to_set() == v@.subrange(lo as int, hi as int).to_set(),
    decreases hi - lo,
{
    if hi - lo == 0 {
        let out: Vec<u64> = Vec::new();
        assert(out@.to_set() =~= v@.subrange(lo as int, hi as int).to_set());
        out
    } else if hi - lo == 1 {
        let mut out: Vec<u64> = Vec::new();
        out.push(v[lo]);
        assert(out@ =~= v@.subrange(lo as int, hi as int));
        out
    } else {
        let mid = lo + (hi - lo) / 2;
        let left = sort_stretch(v, lo, mid);
        let right = sort_stretch(v, mid, hi);
        proof {
            lemma_split_set(v@, lo as int, mid as int, hi as int);
        }
        merge(&left, &right)
    }
}

/// Sorts distinct words: returns them in strictly ascending order.
pub fn sort_distinct(v: &Vec<u64>) -> (out: Vec<u64>)
    requires
        v@.no_duplicates(),
    ensures
        ascending(out@),
        out@.len() == v@.len(),
        out@.to_set() == v@.to_set(),
{
    let out = sort_stretch(v, 0, v.len());
    assert(v@.subrange(0, v@.len() as int) =~= v@);
    out
}

} // verus!
