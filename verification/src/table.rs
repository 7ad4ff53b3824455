//! The Robin-Hood slot table: search, insertion by displacement, and
//! removal by backward shift, on a slice of slots.
//!
//! The table is the first `n` slots of the slice.  What lies behind them
//! is not touched.

use crate::capacity::{is_pow2, lemma_mask_is_mod};
use crate::model::{
    below, carry, dist_from, distinct, home, inserted, lemma_carry_passes, lemma_displace,
    lemma_fill, lemma_home_range, lemma_live_set_finite, lemma_overwrite, lemma_probe_absent,
    lemma_resentinel, lemma_shift_back, lemma_table_map_at, live_set, moves_back, next_sentinel,
    ordered, passes, path_clear, pull, removed, resentineled, shifted, sized, slot_dist, slots,
    step, table_map,
};
use crate::slot::HasInvalid;
use vstd::prelude::*;

verus! {

/// Where a search for a word ended.
#[derive(Clone, Copy, Debug)]
pub enum SearchResult {
    /// The word is in this slot.
    Present(usize),
    /// The word is absent, and this empty slot is where it belongs.
    Empty(usize),
    /// The word is absent, and this slot holds a word that is nearer to
    /// its home than the absent word would be here.
    Richer(usize),
}

impl SearchResult {
    /// The slot at which the search ended.
    pub open spec fn slot(self) -> int {
        match self {
            SearchResult::Present(i) => i as int,
            SearchResult::Empty(i) => i as int,
            SearchResult::Richer(i) => i as int,
        }
    }
}

/// A table that a search can run on: in order, without repeated words.
pub open spec fn table_ok<K: HasInvalid>(t: Seq<u64>, inv: u64) -> bool {
    &&& sized(t)
    &&& ordered::<K>(t, inv)
    &&& distinct(t, inv)
}

/// What the result `r` of a search for `w` says of the table.
pub open spec fn search_ok<K: HasInvalid>(t: Seq<u64>, inv: u64, w: u64, r: SearchResult) -> bool {
    let d = dist_from(home::<K>(w, t.len() as int), r.slot(), t.len() as int);
    match r {
        SearchResult::Present(i) => i < t.len() && t[i as int] == w,
        SearchResult::Empty(i) => {
            &&& i < t.len()
            &&& t[i as int] == inv
            &&& !t.contains(w)
            &&& path_clear::<K>(t, inv, w, d)
        },
        SearchResult::Richer(i) => {
            &&& i < t.len()
            &&& t[i as int] != inv
            &&& !t.contains(w)
            &&& slot_dist::<K>(t, i as int) < d
            &&& path_clear::<K>(t, inv, w, d)
        },
    }
}

/// The home slot of `elem` in a table of `n` slots.
pub fn home_slot<K: HasInvalid>(elem: K, n: usize) -> (h: usize)
    requires
        1 <= n <= 0x8000_0000,
        is_pow2(n as int),
    ensures
        h == home::<K>(elem.spec_word(), n as int),
        h < n,
{
    let hash = elem.hash_usize();
    proof {
        lemma_home_range::<K>(elem.spec_word(), n as int);
        lemma_mask_is_mod(hash, n);
    }
    hash & (n - 1)
}

/// The number of steps from slot `h` forward to slot `i`.
pub fn distance(h: usize, i: usize, n: usize) -> (d: usize)
    requires
        h < n,
        i < n,
    ensures
        d == dist_from(h as int, i as int, n as int),
        d < n,
{
    if i >= h {
        i - h
    } else {
        n - h + i
    }
}

/// The slot after slot `i`.
pub fn next_slot(i: usize, n: usize) -> (j: usize)
    requires
        i < n,
    ensures
        j == step(i as int, 1, n as int),
        j < n,
{
    if i + 1 == n {
        0
    } else {
        i + 1
    }
}

/// Searches the table for `elem`, along its probe path from its home.
pub fn search<K: HasInvalid>(v: &[K], n: usize, elem: K, invalid: K) -> (r: SearchResult)
    requires
        1 <= n <= v@.len(),
        table_ok::<K>(slots(v@, n as int), invalid.spec_word()),
        slots(v@, n as int).contains(invalid.spec_word()),
        elem.spec_word() != invalid.spec_word(),
    ensures
        search_ok::<K>(slots(v@, n as int), invalid.spec_word(), elem.spec_word(), r),
{
    let h = home_slot(elem, n);
    search_from(v, n, h, elem, invalid)
}

/// Searches the table for `elem`, along its probe path from slot
/// `i_start` on.  The probe must pass every slot of the path before
/// `i_start`.
pub fn search_from<K: HasInvalid>(v: &[K], n: usize, i_start: usize, elem: K, invalid: K) -> (r:
    SearchResult)
    requires
        1 <= n <= v@.len(),
        i_start < n,
        table_ok::<K>(slots(v@, n as int), invalid.spec_word()),
        slots(v@, n as int).contains(invalid.spec_word()),
        elem.spec_word() != invalid.spec_word(),
        path_clear::<K>(
            slots(v@, n as int),
            invalid.spec_word(),
            elem.spec_word(),
            dist_from(home::<K>(elem.spec_word(), n as int), i_start as int, n as int),
        ),
    ensures
        search_ok::<K>(slots(v@, n as int), invalid.spec_word(), elem.spec_word(), r),
        dist_from(home::<K>(elem.spec_word(), n as int), i_start as int, n as int) <= dist_from(
            home::<K>(elem.spec_word(), n as int),
            r.slot(),
            n as int,
        ),
{
    let ghost t = slots(v@, n as int);
    let w = elem.to_word();
    let inv = invalid.to_word();
    let h = home_slot(elem, n);
    let ghost start = dist_from(h as int, i_start as int, n as int);
    let mut dist = distance(h, i_start, n);
    let mut i = i_start;
    loop
        invariant
            1 <= n <= v@.len(),
            t == slots(v@, n as int),
            table_ok::<K>(t, inv),
            t.contains(inv),
            w == elem.spec_word(),
            inv == invalid.spec_word(),
            w != inv,
            h == home::<K>(w, n as int),
            h < n,
            i < n,
            start <= dist <= n,
            start == dist_from(h as int, i_start as int, n as int),
            i == step(h as int, dist as int, n as int),
            path_clear::<K>(t, inv, w, dist as int),
        decreases n - dist,
    {
        let x = v[i];
        let xw = x.to_word();
        assert(t[i as int] == xw);
        proof {
            let e = choose|e: int| 0 <= e < t.len() && t[e] == inv;
            let de = dist_from(h as int, e, n as int);
            if de < dist {
                assert(passes::<K>(t, inv, w, de));
            }
            assert(dist < n);
        }
        if xw == inv {
            proof {
                lemma_probe_absent::<K>(t, inv, w, dist as int);
            }
            return SearchResult::Empty(i);
        } else if xw == w {
            return SearchResult::Present(i);
        }
        let his_dist = distance(home_slot(x, n), i, n);
        if his_dist < dist {
            proof {
                lemma_probe_absent::<K>(t, inv, w, dist as int);
            }
            return SearchResult::Richer(i);
        }
        assert(passes::<K>(t, inv, w, dist as int));
        dist = dist + 1;
        i = next_slot(i, n);
    }
}

/// What `steal` asks of the table: in order, with an empty slot, and
/// without the word `w`, whose probe passes every slot of its path up
/// to and including slot `i`.
pub open spec fn steal_ready<K: HasInvalid>(t: Seq<u64>, inv: u64, i: int, w: u64) -> bool {
    &&& table_ok::<K>(t, inv)
    &&& t.contains(inv)
    &&& w != inv
    &&& !t.contains(w)
    &&& path_clear::<K>(t, inv, w, dist_from(home::<K>(w, t.len() as int), i, t.len() as int) + 1)
}

/// Finds a slot for `elem`, which another word has taken slot `i` from
/// or which was put out of slot `i`: walks on from there, and at every
/// word that is nearer to its home takes that word's slot and goes on
/// with the word put out.  `budget` is a number of steps that leads
/// from slot `i` at least to an empty slot.
pub fn steal<K: HasInvalid>(
    v: &mut [K],
    n: usize,
    i: usize,
    elem: K,
    invalid: K,
    Ghost(budget): Ghost<nat>,
)
    requires
        1 <= n <= old(v)@.len(),
        i < n,
        steal_ready::<K>(slots(old(v)@, n as int), invalid.spec_word(), i as int, elem.spec_word()),
        exists|e: int|
            0 <= e < n && slots(old(v)@, n as int)[e] == invalid.spec_word() && budget >= dist_from(
                i as int,
                e,
                n as int,
            ),
    ensures
        final(v)@.len() == old(v)@.len(),
        forall|k: int| n <= k < old(v)@.len() ==> final(v)@[k] == old(v)@[k],
        final(v)@[i as int] == old(v)@[i as int],
        table_ok::<K>(slots(final(v)@, n as int), invalid.spec_word()),
        live_set(slots(final(v)@, n as int), invalid.spec_word()) == live_set(
            slots(old(v)@, n as int),
            invalid.spec_word(),
        ).insert(elem.spec_word()),
        slots(final(v)@, n as int) == carry::<K>(
            slots(old(v)@, n as int),
            invalid.spec_word(),
            elem.spec_word(),
            step(i as int, 1, n as int),
            budget,
        ),
{
    let ghost inv = invalid.spec_word();
    let ghost t0 = slots(v@, n as int);
    let ghost goal = live_set(t0, inv).insert(elem.spec_word());
    let ghost e = choose|e: int|
        0 <= e < n && t0[e] == inv && budget >= dist_from(i as int, e, n as int);
    let ghost mut left: nat = budget;
    let mut at = i;
    let mut homeless = elem;
    proof {
        assert(t0.len() == n);
        lemma_home_range::<K>(elem.spec_word(), n as int);
        assert(passes::<K>(
            t0,
            inv,
            elem.spec_word(),
            dist_from(home::<K>(elem.spec_word(), n as int), i as int, n as int),
        ));
    }
    loop
        invariant
            1 <= n <= v@.len(),
            v@.len() == old(v)@.len(),
            forall|k: int| n <= k < old(v)@.len() ==> v@[k] == old(v)@[k],
            v@[i as int] == old(v)@[i as int],
            inv == invalid.spec_word(),
            i < n,
            at < n,
            0 <= e < n,
            slots(v@, n as int)[e] == inv,
            at != e,
            dist_from(i as int, at as int, n as int) + dist_from(at as int, e, n as int)
                == dist_from(i as int, e, n as int),
            steal_ready::<K>(slots(v@, n as int), inv, at as int, homeless.spec_word()),
            goal == live_set(slots(old(v)@, n as int), inv).insert(elem.spec_word()),
            live_set(slots(v@, n as int), inv).insert(homeless.spec_word()) == goal,
            left >= dist_from(at as int, e, n as int),
            carry::<K>(
                slots(v@, n as int),
                inv,
                homeless.spec_word(),
                step(at as int, 1, n as int),
                left,
            ) == carry::<K>(
                slots(old(v)@, n as int),
                inv,
                elem.spec_word(),
                step(i as int, 1, n as int),
                budget,
            ),
        decreases dist_from(at as int, e, n as int),
    {
        let ghost t = slots(v@, n as int);
        let ghost w = homeless.spec_word();
        let ghost h = home::<K>(w, n as int);
        let ghost ds = dist_from(h, at as int, n as int);
        let ghost de = dist_from(h, e, n as int);
        let r = search_from(v, n, at, homeless, invalid);
        proof {
            assert(t.len() == n);
            lemma_home_range::<K>(w, n as int);
            assert(passes::<K>(t, inv, w, ds));
            let dp = dist_from(h, r.slot(), n as int);
            if de < dp {
                assert(passes::<K>(t, inv, w, de));
            }
            assert(ds <= dp <= de);
            assert(r.slot() != at);
            assert(dist_from(at as int, r.slot(), n as int) == dp - ds);
            assert(dist_from(at as int, e, n as int) == de - ds);
            assert(r.slot() != i);
            if !(r is Present) {
                lemma_carry_passes::<K>(t, inv, w, ds + 1, dp, left);
                assert(step(h, ds + 1, n as int) == step(at as int, 1, n as int));
                assert(step(h, dp, n as int) == r.slot());
                left = (left - (dp - ds - 1)) as nat;
                assert(left >= 1);
            }
        }
        match r {
            SearchResult::Present(p) => {
                assert(t[p as int] == w);
                return ;
            },
            SearchResult::Empty(p) => {
                v[p] = homeless;
                proof {
                    lemma_fill::<K, u64>(t, t, inv, w, w, p as int);
                    assert(slots(v@, n as int) =~= t.update(p as int, w));
                    assert(carry::<K>(t, inv, w, p as int, left) == t.update(p as int, w));
                }
                return ;
            },
            SearchResult::Richer(p) => {
                let y = v[p];
                v[p] = homeless;
                proof {
                    lemma_displace::<K, u64>(t, t, inv, w, w, p as int);
                    assert(slots(v@, n as int) =~= t.update(p as int, w));
                    assert(slots(v@, n as int)[e] == inv);
                    assert(slots(v@, n as int).contains(inv));
                    lemma_home_range::<K>(y.spec_word(), n as int);
                    assert(y.spec_word() == t[p as int]);
                    assert(carry::<K>(t, inv, w, p as int, left) == carry::<K>(
                        t.update(p as int, w),
                        inv,
                        t[p as int],
                        step(p as int, 1, n as int),
                        (left - 1) as nat,
                    ));
                    left = (left - 1) as nat;
                }
                homeless = y;
                at = p;
            },
        }
    }
}

/// Looks `elem` up in the table and says in which slot it is.
pub fn table_find<K: HasInvalid>(v: &[K], n: usize, elem: K, invalid: K) -> (r: Option<usize>)
    requires
        1 <= n <= v@.len(),
        table_ok::<K>(slots(v@, n as int), invalid.spec_word()),
        slots(v@, n as int).contains(invalid.spec_word()),
        elem.spec_word() != invalid.spec_word(),
    ensures
        r.is_some() == slots(v@, n as int).contains(elem.spec_word()),
        r matches Some(i) ==> i < n && v@[i as int].spec_word() == elem.spec_word(),
{
    match search(v, n, elem, invalid) {
        SearchResult::Present(i) => {
            assert(slots(v@, n as int)[i as int] == elem.spec_word());
            Some(i)
        },
        SearchResult::Empty(_) => None,
        SearchResult::Richer(_) => None,
    }
}

/// Puts `elem` into the table unless it is there.  `Ok` gives the slot
/// that took the new word, `Err` the slot where the word already was.
pub fn table_insert<K: HasInvalid>(v: &mut [K], n: usize, elem: K, invalid: K) -> (r: Result<
    usize,
    usize,
>)
    requires
        1 <= n <= old(v)@.len(),
        table_ok::<K>(slots(old(v)@, n as int), invalid.spec_word()),
        slots(old(v)@, n as int).contains(invalid.spec_word()),
        elem.spec_word() != invalid.spec_word(),
    ensures
        final(v)@.len() == old(v)@.len(),
        forall|k: int| n <= k < old(v)@.len() ==> final(v)@[k] == old(v)@[k],
        table_ok::<K>(slots(final(v)@, n as int), invalid.spec_word()),
        r.is_ok() == !slots(old(v)@, n as int).contains(elem.spec_word()),
        live_set(slots(final(v)@, n as int), invalid.spec_word()) == live_set(
            slots(old(v)@, n as int),
            invalid.spec_word(),
        ).insert(elem.spec_word()),
        match r {
            Ok(i) => i < n && final(v)@[i as int].spec_word() == elem.spec_word(),
            Err(i) => i < n && old(v)@[i as int].spec_word() == elem.spec_word() && final(v)@
                == old(v)@,
        },
        r.is_ok() ==> slots(final(v)@, n as int) == inserted::<K>(
            slots(old(v)@, n as int),
            invalid.spec_word(),
            elem.spec_word(),
        ),
{
    let ghost t = slots(v@, n as int);
    let ghost inv = invalid.spec_word();
    let ghost w = elem.spec_word();
    let ghost h = home::<K>(w, n as int);
    let r = search(v, n, elem, invalid);
    let ghost d = dist_from(h, r.slot(), n as int);
    let ghost e = choose|e: int| 0 <= e < t.len() && t[e] == inv;
    proof {
        lemma_home_range::<K>(w, n as int);
        if !(r is Present) {
            let de = dist_from(h, e, n as int);
            if de < d {
                assert(passes::<K>(t, inv, w, de));
            }
            lemma_carry_passes::<K>(t, inv, w, 0, d, n as nat);
            assert(step(h, 0, n as int) == h);
            assert(step(h, d, n as int) == r.slot());
        }
    }
    match r {
        SearchResult::Present(i) => {
            proof {
                assert(t[i as int] == w);
                assert(live_set(t, inv).insert(w) =~= live_set(t, inv));
            }
            Err(i)
        },
        SearchResult::Empty(i) => {
            v[i] = elem;
            proof {
                lemma_fill::<K, u64>(t, t, inv, w, w, i as int);
                assert(slots(v@, n as int) =~= t.update(i as int, w));
                assert(carry::<K>(t, inv, w, i as int, (n - d) as nat) == t.update(i as int, w));
            }
            Ok(i)
        },
        SearchResult::Richer(i) => {
            let y = v[i];
            v[i] = elem;
            proof {
                lemma_displace::<K, u64>(t, t, inv, w, w, i as int);
                assert(slots(v@, n as int) =~= t.update(i as int, w));
                assert(slots(v@, n as int)[e] == inv);
                assert(y.spec_word() == t[i as int]);
                assert(carry::<K>(t, inv, w, i as int, (n - d) as nat) == carry::<K>(
                    t.update(i as int, w),
                    inv,
                    t[i as int],
                    step(i as int, 1, n as int),
                    (n - d - 1) as nat,
                ));
                assert(dist_from(i as int, e, n as int) <= n - d - 1);
            }
            steal(v, n, i, y, invalid, Ghost((n - d - 1) as nat));
            Ok(i)
        },
    }
}

/// Takes the word out of slot `i0` by backward shift: the words that
/// follow move one slot back each, up to the first slot that is empty or
/// holds a word at its home.
pub fn shift_back<K: HasInvalid>(v: &mut [K], n: usize, i0: usize, invalid: K)
    requires
        1 <= n <= old(v)@.len(),
        i0 < n,
        table_ok::<K>(slots(old(v)@, n as int), invalid.spec_word()),
        slots(old(v)@, n as int).contains(invalid.spec_word()),
        old(v)@[i0 as int].spec_word() != invalid.spec_word(),
    ensures
        final(v)@.len() == old(v)@.len(),
        forall|k: int| n <= k < old(v)@.len() ==> final(v)@[k] == old(v)@[k],
        table_ok::<K>(slots(final(v)@, n as int), invalid.spec_word()),
        live_set(slots(final(v)@, n as int), invalid.spec_word()) == live_set(
            slots(old(v)@, n as int),
            invalid.spec_word(),
        ).remove(old(v)@[i0 as int].spec_word()),
        slots(final(v)@, n as int) == removed::<K>(
            slots(old(v)@, n as int),
            invalid.spec_word(),
            i0 as int,
        ),
{
    let ghost t0 = slots(v@, n as int);
    let ghost inv = invalid.spec_word();
    let ghost e = choose|e: int| 0 <= e < t0.len() && t0[e] == inv;
    let inv_word = invalid.to_word();
    let mut i = i0;
    assert(t0[i0 as int] != inv);
    loop
        invariant
            1 <= n <= v@.len(),
            v@.len() == old(v)@.len(),
            forall|k: int| n <= k < old(v)@.len() ==> v@[k] == old(v)@[k],
            t0 == slots(old(v)@, n as int),
            pull::<K>(
                slots(v@, n as int),
                inv,
                i as int,
                (n - dist_from(i0 as int, i as int, n as int)) as nat,
            ) == removed::<K>(t0, inv, i0 as int),
            inv == invalid.spec_word(),
            inv_word == inv,
            table_ok::<K>(t0, inv),
            i0 < n,
            i < n,
            0 <= e < n,
            t0[e] == inv,
            t0[i0 as int] != inv,
            dist_from(i0 as int, i as int, n as int) < dist_from(i0 as int, e, n as int),
            forall|k: int|
                0 <= k < n && k != i ==> slots(v@, n as int)[k] == #[trigger] shifted(
                    t0,
                    i0 as int,
                    dist_from(i0 as int, i as int, n as int),
                    inv,
                )[k],
            forall|q: int|
                0 <= q < n && 1 <= dist_from(i0 as int, q, n as int) <= dist_from(
                    i0 as int,
                    i as int,
                    n as int,
                ) ==> #[trigger] moves_back::<K>(t0, inv, q),
        decreases dist_from(i0 as int, e, n as int) - dist_from(i0 as int, i as int, n as int),
    {
        let ghost c = dist_from(i0 as int, i as int, n as int);
        let ghost before = slots(v@, n as int);
        let j = next_slot(i, n);
        let x = v[j];
        proof {
            assert(dist_from(i0 as int, j as int, n as int) == c + 1);
            assert(before[j as int] == shifted(t0, i0 as int, c, inv)[j as int]);
            assert(x.spec_word() == t0[j as int]);
            lemma_home_range::<K>(x.spec_word(), n as int);
        }
        proof {
            assert(before[j as int] == x.spec_word());
        }
        if x.to_word() == inv_word || distance(home_slot(x, n), j, n) == 0 {
            v[i] = invalid;
            proof {
                assert(!moves_back::<K>(t0, inv, j as int));
                lemma_shift_back::<K, u64>(t0, t0, inv, i0 as int, c, inv);
                assert(slots(v@, n as int) =~= shifted(t0, i0 as int, c, inv));
                assert(slots(v@, n as int) =~= before.update(i as int, inv));
                assert(pull::<K>(before, inv, i as int, (n - c) as nat) == before.update(
                    i as int,
                    inv,
                ));
            }
            return ;
        }
        v[i] = x;
        proof {
            assert(slots(v@, n as int) =~= before.update(i as int, before[j as int]));
            assert(pull::<K>(before, inv, i as int, (n - c) as nat) == pull::<K>(
                before.update(i as int, before[j as int]),
                inv,
                j as int,
                (n - c - 1) as nat,
            ));
            assert(moves_back::<K>(t0, inv, j as int));
            assert forall|k: int| 0 <= k < n && k != j implies slots(v@, n as int)[k]
                == #[trigger] shifted(t0, i0 as int, c + 1, inv)[k] by {
                if k != i {
                    assert(before[k] == shifted(t0, i0 as int, c, inv)[k]);
                }
            }
        }
        i = j;
    }
}

/// Takes `elem` out of the table if it is there, and says whether it was.
pub fn table_remove<K: HasInvalid>(v: &mut [K], n: usize, elem: K, invalid: K) -> (r: bool)
    requires
        1 <= n <= old(v)@.len(),
        table_ok::<K>(slots(old(v)@, n as int), invalid.spec_word()),
        slots(old(v)@, n as int).contains(invalid.spec_word()),
        elem.spec_word() != invalid.spec_word(),
    ensures
        final(v)@.len() == old(v)@.len(),
        forall|k: int| n <= k < old(v)@.len() ==> final(v)@[k] == old(v)@[k],
        table_ok::<K>(slots(final(v)@, n as int), invalid.spec_word()),
        r == slots(old(v)@, n as int).contains(elem.spec_word()),
        !r ==> final(v)@ == old(v)@,
        live_set(slots(final(v)@, n as int), invalid.spec_word()) == live_set(
            slots(old(v)@, n as int),
            invalid.spec_word(),
        ).remove(elem.spec_word()),
        r ==> slots(final(v)@, n as int) == removed::<K>(
            slots(old(v)@, n as int),
            invalid.spec_word(),
            slots(old(v)@, n as int).index_of(elem.spec_word()),
        ),
{
    let ghost t = slots(v@, n as int);
    let ghost inv = invalid.spec_word();
    match search(v, n, elem, invalid) {
        SearchResult::Present(i) => {
            proof {
                assert(t[i as int] == elem.spec_word());
                let k = t.index_of(elem.spec_word());
                assert(0 <= k < t.len() && t[k] == elem.spec_word());
                assert(k == i);
            }
            shift_back(v, n, i, invalid);
            true
        },
        SearchResult::Empty(_) => {
            assert(live_set(t, inv).remove(elem.spec_word()) =~= live_set(t, inv));
            false
        },
        SearchResult::Richer(_) => {
            assert(live_set(t, inv).remove(elem.spec_word()) =~= live_set(t, inv));
            false
        },
    }
}

/// Looks `key` up in the table and returns the value beside it.
pub fn map_find<K: HasInvalid, V: Copy>(keys: &[K], vals: &[V], n: usize, key: K, invalid: K) -> (r:
    Option<V>)
    requires
        1 <= n <= keys@.len(),
        n <= vals@.len(),
        table_ok::<K>(slots(keys@, n as int), invalid.spec_word()),
        slots(keys@, n as int).contains(invalid.spec_word()),
        key.spec_word() != invalid.spec_word(),
    ensures
        r == table_map(slots(keys@, n as int), vals@.take(n as int), invalid.spec_word()).get(
            key.spec_word(),
        ),
{
    let ghost t = slots(keys@, n as int);
    let ghost u = vals@.take(n as int);
    match search(keys, n, key, invalid) {
        SearchResult::Present(i) => {
            proof {
                assert(t[i as int] == key.spec_word());
                lemma_table_map_at(t, u, invalid.spec_word(), i as int);
            }
            Some(vals[i])
        },
        SearchResult::Empty(_) => None,
        SearchResult::Richer(_) => None,
    }
}

/// Finds a slot for the entry of `elem` and `val`, which another entry
/// has taken slot `i` from: as `steal` does for a word alone, with the
/// values moving in step with their words.  `budget` is a number of
/// steps that leads from slot `i` at least to an empty slot.
pub fn mapsteal<K: HasInvalid, V: Copy>(
    k: &mut [K],
    v: &mut [V],
    n: usize,
    i: usize,
    elem: K,
    val: V,
    invalid: K,
    Ghost(budget): Ghost<nat>,
)
    requires
        1 <= n <= old(k)@.len(),
        n <= old(v)@.len(),
        i < n,
        steal_ready::<K>(slots(old(k)@, n as int), invalid.spec_word(), i as int, elem.spec_word()),
        exists|e: int|
            0 <= e < n && slots(old(k)@, n as int)[e] == invalid.spec_word() && budget >= dist_from(
                i as int,
                e,
                n as int,
            ),
    ensures
        slots(final(k)@, n as int) == carry::<K>(
            slots(old(k)@, n as int),
            invalid.spec_word(),
            elem.spec_word(),
            step(i as int, 1, n as int),
            budget,
        ),
        final(k)@.len() == old(k)@.len(),
        final(v)@.len() == old(v)@.len(),
        forall|j: int| n <= j < old(k)@.len() ==> final(k)@[j] == old(k)@[j],
        forall|j: int| n <= j < old(v)@.len() ==> final(v)@[j] == old(v)@[j],
        table_ok::<K>(slots(final(k)@, n as int), invalid.spec_word()),
        live_set(slots(final(k)@, n as int), invalid.spec_word()) == live_set(
            slots(old(k)@, n as int),
            invalid.spec_word(),
        ).insert(elem.spec_word()),
        table_map(slots(final(k)@, n as int), final(v)@.take(n as int), invalid.spec_word())
            == table_map(slots(old(k)@, n as int), old(v)@.take(n as int), invalid.spec_word()).insert(
            elem.spec_word(),
            val,
        ),
{
    let ghost inv = invalid.spec_word();
    let ghost t0 = slots(k@, n as int);
    let ghost u0 = v@.take(n as int);
    let ghost e = choose|e: int|
        0 <= e < n && t0[e] == inv && budget >= dist_from(i as int, e, n as int);
    let ghost mut left: nat = budget;
    let mut at = i;
    let mut homeless = elem;
    let mut carried = val;
    proof {
        assert(t0.len() == n);
        lemma_home_range::<K>(elem.spec_word(), n as int);
        assert(passes::<K>(
            t0,
            inv,
            elem.spec_word(),
            dist_from(home::<K>(elem.spec_word(), n as int), i as int, n as int),
        ));
    }
    loop
        invariant
            1 <= n <= k@.len(),
            n <= v@.len(),
            k@.len() == old(k)@.len(),
            v@.len() == old(v)@.len(),
            forall|j: int| n <= j < old(k)@.len() ==> k@[j] == old(k)@[j],
            forall|j: int| n <= j < old(v)@.len() ==> v@[j] == old(v)@[j],
            inv == invalid.spec_word(),
            at < n,
            0 <= e < n,
            slots(k@, n as int)[e] == inv,
            at != e,
            steal_ready::<K>(slots(k@, n as int), inv, at as int, homeless.spec_word()),
            live_set(slots(k@, n as int), inv).insert(homeless.spec_word()) == live_set(
                slots(old(k)@, n as int),
                inv,
            ).insert(elem.spec_word()),
            table_map(slots(k@, n as int), v@.take(n as int), inv).insert(
                homeless.spec_word(),
                carried,
            ) == table_map(slots(old(k)@, n as int), old(v)@.take(n as int), inv).insert(
                elem.spec_word(),
                val,
            ),
            left >= dist_from(at as int, e, n as int),
            carry::<K>(
                slots(k@, n as int),
                inv,
                homeless.spec_word(),
                step(at as int, 1, n as int),
                left,
            ) == carry::<K>(
                slots(old(k)@, n as int),
                inv,
                elem.spec_word(),
                step(i as int, 1, n as int),
                budget,
            ),
        decreases dist_from(at as int, e, n as int),
    {
        let ghost t = slots(k@, n as int);
        let ghost u = v@.take(n as int);
        let ghost w = homeless.spec_word();
        let ghost h = home::<K>(w, n as int);
        let ghost ds = dist_from(h, at as int, n as int);
        let ghost de = dist_from(h, e, n as int);
        let r = search_from(k, n, at, homeless, invalid);
        proof {
            assert(t.len() == n);
            lemma_home_range::<K>(w, n as int);
            assert(passes::<K>(t, inv, w, ds));
            let dp = dist_from(h, r.slot(), n as int);
            if de < dp {
                assert(passes::<K>(t, inv, w, de));
            }
            assert(ds <= dp <= de);
            assert(r.slot() != at);
            assert(dist_from(at as int, r.slot(), n as int) == dp - ds);
            assert(dist_from(at as int, e, n as int) == de - ds);
            if !(r is Present) {
                lemma_carry_passes::<K>(t, inv, w, ds + 1, dp, left);
                assert(step(h, ds + 1, n as int) == step(at as int, 1, n as int));
                assert(step(h, dp, n as int) == r.slot());
                left = (left - (dp - ds - 1)) as nat;
                assert(left >= 1);
            }
        }
        match r {
            SearchResult::Present(p) => {
                assert(t[p as int] == w);
                return ;
            },
            SearchResult::Empty(p) => {
                k[p] = homeless;
                v[p] = carried;
                proof {
                    lemma_fill::<K, V>(t, u, inv, w, carried, p as int);
                    assert(slots(k@, n as int) =~= t.update(p as int, w));
                    assert(v@.take(n as int) =~= u.update(p as int, carried));
                    assert(carry::<K>(t, inv, w, p as int, left) == t.update(p as int, w));
                }
                return ;
            },
            SearchResult::Richer(p) => {
                let y = k[p];
                let yv = v[p];
                k[p] = homeless;
                v[p] = carried;
                proof {
                    lemma_displace::<K, V>(t, u, inv, w, carried, p as int);
                    assert(slots(k@, n as int) =~= t.update(p as int, w));
                    assert(v@.take(n as int) =~= u.update(p as int, carried));
                    assert(slots(k@, n as int)[e] == inv);
                    assert(slots(k@, n as int).contains(inv));
                    lemma_home_range::<K>(y.spec_word(), n as int);
                    assert(y.spec_word() == t[p as int]);
                    assert(yv == u[p as int]);
                    assert(carry::<K>(t, inv, w, p as int, left) == carry::<K>(
                        t.update(p as int, w),
                        inv,
                        t[p as int],
                        step(p as int, 1, n as int),
                        (left - 1) as nat,
                    ));
                    left = (left - 1) as nat;
                }
                homeless = y;
                carried = yv;
                at = p;
            },
        }
    }
}

/// Maps `key` to `val` in the table, and returns the value that `key`
/// was mapped to before, if any.
pub fn map_insert<K: HasInvalid, V: Copy>(
    keys: &mut [K],
    vals: &mut [V],
    n: usize,
    key: K,
    val: V,
    invalid: K,
) -> (r: Option<V>)
    requires
        1 <= n <= old(keys)@.len(),
        n <= old(vals)@.len(),
        table_ok::<K>(slots(old(keys)@, n as int), invalid.spec_word()),
        slots(old(keys)@, n as int).contains(invalid.spec_word()),
        key.spec_word() != invalid.spec_word(),
    ensures
        final(keys)@.len() == old(keys)@.len(),
        final(vals)@.len() == old(vals)@.len(),
        forall|j: int| n <= j < old(keys)@.len() ==> final(keys)@[j] == old(keys)@[j],
        forall|j: int| n <= j < old(vals)@.len() ==> final(vals)@[j] == old(vals)@[j],
        table_ok::<K>(slots(final(keys)@, n as int), invalid.spec_word()),
        r == table_map(
            slots(old(keys)@, n as int),
            old(vals)@.take(n as int),
            invalid.spec_word(),
        ).get(key.spec_word()),
        live_set(slots(final(keys)@, n as int), invalid.spec_word()) == live_set(
            slots(old(keys)@, n as int),
            invalid.spec_word(),
        ).insert(key.spec_word()),
        table_map(slots(final(keys)@, n as int), final(vals)@.take(n as int), invalid.spec_word())
            == table_map(
            slots(old(keys)@, n as int),
            old(vals)@.take(n as int),
            invalid.spec_word(),
        ).insert(key.spec_word(), val),
        slots(final(keys)@, n as int) == if r.is_none() {
            inserted::<K>(slots(old(keys)@, n as int), invalid.spec_word(), key.spec_word())
        } else {
            slots(old(keys)@, n as int)
        },
{
    let ghost t = slots(keys@, n as int);
    let ghost u = vals@.take(n as int);
    let ghost inv = invalid.spec_word();
    let ghost w = key.spec_word();
    let ghost h = home::<K>(w, n as int);
    let r = search(keys, n, key, invalid);
    let ghost d = dist_from(h, r.slot(), n as int);
    let ghost e = choose|e: int| 0 <= e < t.len() && t[e] == inv;
    proof {
        lemma_home_range::<K>(w, n as int);
        if !(r is Present) {
            let de = dist_from(h, e, n as int);
            if de < d {
                assert(passes::<K>(t, inv, w, de));
            }
            lemma_carry_passes::<K>(t, inv, w, 0, d, n as nat);
            assert(step(h, 0, n as int) == h);
            assert(step(h, d, n as int) == r.slot());
        }
    }
    match r {
        SearchResult::Present(i) => {
            let before = vals[i];
            vals[i] = val;
            proof {
                assert(t[i as int] == w);
                lemma_table_map_at(t, u, inv, i as int);
                lemma_overwrite(t, u, inv, i as int, val);
                assert(vals@.take(n as int) =~= u.update(i as int, val));
                assert(live_set(t, inv).insert(w) =~= live_set(t, inv));
            }
            Some(before)
        },
        SearchResult::Empty(i) => {
            keys[i] = key;
            vals[i] = val;
            proof {
                lemma_fill::<K, V>(t, u, inv, w, val, i as int);
                assert(slots(keys@, n as int) =~= t.update(i as int, w));
                assert(vals@.take(n as int) =~= u.update(i as int, val));
                assert(carry::<K>(t, inv, w, i as int, (n - d) as nat) == t.update(i as int, w));
            }
            None
        },
        SearchResult::Richer(i) => {
            let y = keys[i];
            let yv = vals[i];
            keys[i] = key;
            vals[i] = val;
            proof {
                lemma_displace::<K, V>(t, u, inv, w, val, i as int);
                assert(slots(keys@, n as int) =~= t.update(i as int, w));
                assert(vals@.take(n as int) =~= u.update(i as int, val));
                assert(slots(keys@, n as int)[e] == inv);
                assert(y.spec_word() == t[i as int]);
                assert(yv == u[i as int]);
                assert(carry::<K>(t, inv, w, i as int, (n - d) as nat) == carry::<K>(
                    t.update(i as int, w),
                    inv,
                    t[i as int],
                    step(i as int, 1, n as int),
                    (n - d - 1) as nat,
                ));
                assert(dist_from(i as int, e, n as int) <= n - d - 1);
            }
            mapsteal(keys, vals, n, i, y, yv, invalid, Ghost((n - d - 1) as nat));
            None
        },
    }
}

/// Takes the entry out of slot `i0` by backward shift, as `shift_back`
/// does for a word alone, with the values moving in step with their
/// words.
pub fn map_shift_back<K: HasInvalid, V: Copy>(
    keys: &mut [K],
    vals: &mut [V],
    n: usize,
    i0: usize,
    invalid: K,
)
    requires
        1 <= n <= old(keys)@.len(),
        n <= old(vals)@.len(),
        i0 < n,
        table_ok::<K>(slots(old(keys)@, n as int), invalid.spec_word()),
        slots(old(keys)@, n as int).contains(invalid.spec_word()),
        old(keys)@[i0 as int].spec_word() != invalid.spec_word(),
    ensures
        final(keys)@.len() == old(keys)@.len(),
        final(vals)@.len() == old(vals)@.len(),
        forall|j: int| n <= j < old(keys)@.len() ==> final(keys)@[j] == old(keys)@[j],
        forall|j: int| n <= j < old(vals)@.len() ==> final(vals)@[j] == old(vals)@[j],
        table_ok::<K>(slots(final(keys)@, n as int), invalid.spec_word()),
        live_set(slots(final(keys)@, n as int), invalid.spec_word()) == live_set(
            slots(old(keys)@, n as int),
            invalid.spec_word(),
        ).remove(old(keys)@[i0 as int].spec_word()),
        table_map(slots(final(keys)@, n as int), final(vals)@.take(n as int), invalid.spec_word())
            == table_map(
            slots(old(keys)@, n as int),
            old(vals)@.take(n as int),
            invalid.spec_word(),
        ).remove(old(keys)@[i0 as int].spec_word()),
        slots(final(keys)@, n as int) == removed::<K>(
            slots(old(keys)@, n as int),
            invalid.spec_word(),
            i0 as int,
        ),
{
    let ghost t0 = slots(keys@, n as int);
    let ghost u0 = vals@.take(n as int);
    let ghost inv = invalid.spec_word();
    let ghost e = choose|e: int| 0 <= e < t0.len() && t0[e] == inv;
    let inv_word = invalid.to_word();
    let mut i = i0;
    assert(t0[i0 as int] != inv);
    loop
        invariant
            1 <= n <= keys@.len(),
            n <= vals@.len(),
            keys@.len() == old(keys)@.len(),
            vals@.len() == old(vals)@.len(),
            forall|j: int| n <= j < old(keys)@.len() ==> keys@[j] == old(keys)@[j],
            forall|j: int| n <= j < old(vals)@.len() ==> vals@[j] == old(vals)@[j],
            t0 == slots(old(keys)@, n as int),
            u0 == old(vals)@.take(n as int),
            pull::<K>(
                slots(keys@, n as int),
                inv,
                i as int,
                (n - dist_from(i0 as int, i as int, n as int)) as nat,
            ) == removed::<K>(t0, inv, i0 as int),
            inv == invalid.spec_word(),
            inv_word == inv,
            table_ok::<K>(t0, inv),
            i0 < n,
            i < n,
            0 <= e < n,
            t0[e] == inv,
            t0[i0 as int] != inv,
            dist_from(i0 as int, i as int, n as int) < dist_from(i0 as int, e, n as int),
            forall|j: int|
                0 <= j < n && j != i ==> slots(keys@, n as int)[j] == #[trigger] shifted(
                    t0,
                    i0 as int,
                    dist_from(i0 as int, i as int, n as int),
                    inv,
                )[j],
            forall|j: int|
                0 <= j < n && j != i ==> vals@[j] == #[trigger] shifted(
                    u0,
                    i0 as int,
                    dist_from(i0 as int, i as int, n as int),
                    vals@[i as int],
                )[j],
            forall|q: int|
                0 <= q < n && 1 <= dist_from(i0 as int, q, n as int) <= dist_from(
                    i0 as int,
                    i as int,
                    n as int,
                ) ==> #[trigger] moves_back::<K>(t0, inv, q),
        decreases dist_from(i0 as int, e, n as int) - dist_from(i0 as int, i as int, n as int),
    {
        let ghost c = dist_from(i0 as int, i as int, n as int);
        let ghost before = slots(keys@, n as int);
        let ghost vals_before = vals@;
        let j = next_slot(i, n);
        let x = keys[j];
        let xv = vals[j];
        proof {
            assert(dist_from(i0 as int, j as int, n as int) == c + 1);
            assert(before[j as int] == shifted(t0, i0 as int, c, inv)[j as int]);
            assert(vals_before[j as int] == shifted(u0, i0 as int, c, vals_before[i as int])[j as int]);
            assert(x.spec_word() == t0[j as int]);
            assert(xv == u0[j as int]);
            lemma_home_range::<K>(x.spec_word(), n as int);
        }
        proof {
            assert(before[j as int] == x.spec_word());
        }
        if x.to_word() == inv_word || distance(home_slot(x, n), j, n) == 0 {
            keys[i] = invalid;
            proof {
                let z = vals@[i as int];
                assert(!moves_back::<K>(t0, inv, j as int));
                lemma_shift_back::<K, V>(t0, u0, inv, i0 as int, c, z);
                assert(slots(keys@, n as int) =~= shifted(t0, i0 as int, c, inv));
                assert(vals@.take(n as int) =~= shifted(u0, i0 as int, c, z));
                assert(slots(keys@, n as int) =~= before.update(i as int, inv));
                assert(pull::<K>(before, inv, i as int, (n - c) as nat) == before.update(
                    i as int,
                    inv,
                ));
            }
            return ;
        }
        keys[i] = x;
        vals[i] = xv;
        proof {
            assert(slots(keys@, n as int) =~= before.update(i as int, before[j as int]));
            assert(pull::<K>(before, inv, i as int, (n - c) as nat) == pull::<K>(
                before.update(i as int, before[j as int]),
                inv,
                j as int,
                (n - c - 1) as nat,
            ));
            assert(moves_back::<K>(t0, inv, j as int));
            assert forall|m: int| 0 <= m < n && m != j implies slots(keys@, n as int)[m]
                == #[trigger] shifted(t0, i0 as int, c + 1, inv)[m] by {
                if m != i {
                    assert(before[m] == shifted(t0, i0 as int, c, inv)[m]);
                }
            }
            assert forall|m: int| 0 <= m < n && m != j implies vals@[m] == #[trigger] shifted(
                u0,
                i0 as int,
                c + 1,
                vals@[j as int],
            )[m] by {
                if m != i {
                    assert(vals_before[m] == shifted(u0, i0 as int, c, vals_before[i as int])[m]);
                }
            }
        }
        i = j;
    }
}

/// Takes the entry of `key` out of the table if there is one, and
/// returns its value.
pub fn map_remove<K: HasInvalid, V: Copy>(
    keys: &mut [K],
    vals: &mut [V],
    n: usize,
    key: K,
    invalid: K,
) -> (r: Option<V>)
    requires
        1 <= n <= old(keys)@.len(),
        n <= old(vals)@.len(),
        table_ok::<K>(slots(old(keys)@, n as int), invalid.spec_word()),
        slots(old(keys)@, n as int).contains(invalid.spec_word()),
        key.spec_word() != invalid.spec_word(),
    ensures
        final(keys)@.len() == old(keys)@.len(),
        final(vals)@.len() == old(vals)@.len(),
        forall|j: int| n <= j < old(keys)@.len() ==> final(keys)@[j] == old(keys)@[j],
        forall|j: int| n <= j < old(vals)@.len() ==> final(vals)@[j] == old(vals)@[j],
        table_ok::<K>(slots(final(keys)@, n as int), invalid.spec_word()),
        r == table_map(
            slots(old(keys)@, n as int),
            old(vals)@.take(n as int),
            invalid.spec_word(),
        ).get(key.spec_word()),
        live_set(slots(final(keys)@, n as int), invalid.spec_word()) == live_set(
            slots(old(keys)@, n as int),
            invalid.spec_word(),
        ).remove(key.spec_word()),
        table_map(slots(final(keys)@, n as int), final(vals)@.take(n as int), invalid.spec_word())
            == table_map(
            slots(old(keys)@, n as int),
            old(vals)@.take(n as int),
            invalid.spec_word(),
        ).remove(key.spec_word()),
        slots(final(keys)@, n as int) == if r.is_some() {
            removed::<K>(
                slots(old(keys)@, n as int),
                invalid.spec_word(),
                slots(old(keys)@, n as int).index_of(key.spec_word()),
            )
        } else {
            slots(old(keys)@, n as int)
        },
{
    let ghost t = slots(keys@, n as int);
    let ghost u = vals@.take(n as int);
    let ghost inv = invalid.spec_word();
    let ghost w = key.spec_word();
    match search(keys, n, key, invalid) {
        SearchResult::Present(i) => {
            let before = vals[i];
            proof {
                assert(t[i as int] == w);
                lemma_table_map_at(t, u, inv, i as int);
                let k = t.index_of(w);
                assert(0 <= k < t.len() && t[k] == w);
                assert(k == i);
            }
            map_shift_back(keys, vals, n, i, invalid);
            Some(before)
        },
        SearchResult::Empty(_) => {
            assert(live_set(t, inv).remove(w) =~= live_set(t, inv));
            assert(table_map(t, u, inv).remove(w) =~= table_map(t, u, inv));
            None
        },
        SearchResult::Richer(_) => {
            assert(live_set(t, inv).remove(w) =~= live_set(t, inv));
            assert(table_map(t, u, inv).remove(w) =~= table_map(t, u, inv));
            None
        },
    }
}

/// Gives a table of 64-bit slots another sentinel, so that the word
/// which marked the empty slots up to now can be stored.  The sentinel
/// is kept in the cell behind the `n` slots.  The new one is the
/// nearest word below the old one that is in no slot.
pub fn relocate_sentinel(v: &mut [u64], n: usize) -> (fresh: u64)
    requires
        1 <= n,
        old(v)@.len() == n + 1,
        table_ok::<u64>(slots(old(v)@, n as int), old(v)@[n as int]),
        slots(old(v)@, n as int).contains(old(v)@[n as int]),
    ensures
        final(v)@.len() == old(v)@.len(),
        final(v)@[n as int] == fresh,
        fresh != old(v)@[n as int],
        !live_set(slots(old(v)@, n as int), old(v)@[n as int]).contains(fresh),
        slots(final(v)@, n as int) == resentineled(
            slots(old(v)@, n as int),
            old(v)@[n as int],
            fresh,
        ),
        table_ok::<u64>(slots(final(v)@, n as int), fresh),
        live_set(slots(final(v)@, n as int), fresh) == live_set(
            slots(old(v)@, n as int),
            old(v)@[n as int],
        ),
        next_sentinel(
            live_set(slots(old(v)@, n as int), old(v)@[n as int]),
            old(v)@[n as int],
            fresh,
        ),
{
    let stale = v[n];
    let cells = v.len();
    let ghost t = slots(v@, n as int);
    let ghost live = live_set(t, stale);
    let ghost mut tried: Set<u64> = Set::empty();
    let ghost mut k: int = 1;
    let mut fresh = stale.wrapping_sub(1);
    proof {
        lemma_live_set_finite(t, stale);
    }
    loop
        invariant
            1 <= n,
            n < usize::MAX,
            v@ == old(v)@,
            v@.len() == n + 1,
            stale == v@[n as int],
            t == slots(v@, n as int),
            live == live_set(t, stale),
            live.finite(),
            live.len() <= n,
            table_ok::<u64>(t, stale),
            t.contains(stale),
            tried.finite(),
            tried.subset_of(live),
            k == tried.len() + 1,
            fresh == below(stale, k),
            forall|x: u64|
                tried.contains(x) ==> exists|j: int| 1 <= j < k && x == #[trigger] below(stale, j),
            forall|j: int| 1 <= j < k ==> tried.contains(#[trigger] below(stale, j)),
        ensures
            !live.contains(fresh),
            fresh != stale,
            1 <= k <= n + 1,
            fresh == below(stale, k),
            forall|j: int| 1 <= j < k ==> live.contains(#[trigger] below(stale, j)),
        decreases live.len() - tried.len(),
    {
        proof {
            vstd::set_lib::lemma_len_subset(tried, live);
            assert(1 <= k <= n + 1);
            assert(k < 0x1_0000_0000_0000_0000);
        }
        let found = table_find(v, n, fresh, stale);
        if found.is_none() {
            break ;
        }
        proof {
            assert(t.contains(fresh));
            assert(live.contains(fresh));
            if tried.contains(fresh) {
                let j = choose|j: int| 1 <= j < k && fresh == #[trigger] below(stale, j);
                assert(false);
            }
            tried = tried.insert(fresh);
            k = k + 1;
            vstd::set_lib::lemma_len_subset(tried, live);
        }
        fresh = fresh.wrapping_sub(1);
    }
    let mut j: usize = 0;
    while j <= n
        invariant
            v@.len() == n + 1,
            old(v)@.len() == n + 1,
            n < usize::MAX,
            j <= n + 1,
            stale == old(v)@[n as int],
            fresh != stale,
            forall|m: int|
                0 <= m < j ==> v@[m] == (if old(v)@[m] == stale {
                    fresh
                } else {
                    old(v)@[m]
                }),
            forall|m: int| j <= m <= n ==> v@[m] == old(v)@[m],
        decreases n + 1 - j,
    {
        if v[j] == stale {
            v[j] = fresh;
        }
        j = j + 1;
    }
    proof {
        assert(slots(v@, n as int) =~= resentineled(t, stale, fresh));
        lemma_resentinel::<u64, u64>(t, t, stale, fresh);
        assert(1 <= k && fresh == below(stale, k));
    }
    fresh
}

} // verus!
