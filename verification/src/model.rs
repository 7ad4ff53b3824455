//! The mathematical model of a Robin-Hood slot table.
//!
//! A table is a sequence of words.  A slot that holds the sentinel is
//! empty; any other slot is live.  Every word has a home slot, given by
//! its hash, and the probe path of a word starts at its home and walks
//! forward, wrapping at the end of the table.

use crate::capacity::is_pow2;
use crate::slot::HasInvalid;
use vstd::prelude::*;

verus! {

/// The slot at which the probe path of `w` starts in a table of `len`
/// slots: the hash of `w` modulo `len`.
pub open spec fn home<K: HasInvalid>(w: u64, len: int) -> int {
    K::spec_hash(w) as int % len
}

/// The slot that lies `j` steps after slot `h`.
pub open spec fn step(h: int, j: int, len: int) -> int {
    if h + j >= len {
        h + j - len
    } else {
        h + j
    }
}

/// The slot before slot `i`.
pub open spec fn prev(i: int, len: int) -> int {
    if i == 0 {
        len - 1
    } else {
        i - 1
    }
}

/// The number of steps that lead from slot `h` forward to slot `i`.
pub open spec fn dist_from(h: int, i: int, len: int) -> int {
    if i >= h {
        i - h
    } else {
        i - h + len
    }
}

/// The probe distance of the word in slot `i`: the steps from its home to `i`.
pub open spec fn slot_dist<K: HasInvalid>(t: Seq<u64>, i: int) -> int {
    dist_from(home::<K>(t[i], t.len() as int), i, t.len() as int)
}

/// Slot `i` is in order with the slot before it: if it is live and away
/// from home, the slot before it is live and at most one step nearer to
/// its own home.
pub open spec fn settled<K: HasInvalid>(t: Seq<u64>, inv: u64, i: int) -> bool {
    t[i] != inv && slot_dist::<K>(t, i) > 0 ==> {
        let p = prev(i, t.len() as int);
        t[p] != inv && slot_dist::<K>(t, p) + 1 >= slot_dist::<K>(t, i)
    }
}

/// Every slot is in order with the slot before it.
pub open spec fn ordered<K: HasInvalid>(t: Seq<u64>, inv: u64) -> bool {
    forall|i: int| 0 <= i < t.len() ==> #[trigger] settled::<K>(t, inv, i)
}

/// The slot `j` steps along the probe path of the word in slot `i` is
/// live, and its word is at least `j` steps from its own home.
pub open spec fn path_slot_ok<K: HasInvalid>(t: Seq<u64>, inv: u64, i: int, j: int) -> bool {
    let p = step(home::<K>(t[i], t.len() as int), j, t.len() as int);
    t[p] != inv && slot_dist::<K>(t, p) >= j
}

/// The Robin-Hood ordering: on the probe path from the home of a live
/// slot to that slot, every slot is live and holds a word that is at
/// least as far from its own home as the path has come.
pub open spec fn robin_hood<K: HasInvalid>(t: Seq<u64>, inv: u64) -> bool {
    forall|i: int, j: int|
        0 <= i < t.len() && t[i] != inv && 0 <= j < slot_dist::<K>(t, i)
            ==> #[trigger] path_slot_ok::<K>(t, inv, i, j)
}

/// No word other than the sentinel is in two slots.
pub open spec fn distinct(t: Seq<u64>, inv: u64) -> bool {
    forall|i: int, j: int|
        0 <= i < t.len() && 0 <= j < t.len() && i != j && t[i] != inv ==> t[i] != t[j]
}

/// A probe for `w` passes the slot `j` steps from the home of `w`: the
/// slot is live, holds another word, and that word is at least `j`
/// steps from its own home.
pub open spec fn passes<K: HasInvalid>(t: Seq<u64>, inv: u64, w: u64, j: int) -> bool {
    let p = step(home::<K>(w, t.len() as int), j, t.len() as int);
    t[p] != inv && t[p] != w && slot_dist::<K>(t, p) >= j
}

/// A probe for `w` passes each of the first `d` slots of its path.
pub open spec fn path_clear<K: HasInvalid>(t: Seq<u64>, inv: u64, w: u64, d: int) -> bool {
    forall|j: int| 0 <= j < d ==> #[trigger] passes::<K>(t, inv, w, j)
}

/// The words in the live slots.
pub open spec fn live_set(t: Seq<u64>, inv: u64) -> Set<u64> {
    Set::new(|w: u64| w != inv && t.contains(w))
}

/// The map from the word in each live slot to the value beside it.
pub open spec fn table_map<V>(t: Seq<u64>, u: Seq<V>, inv: u64) -> Map<u64, V> {
    Map::new(|w: u64| w != inv && t.contains(w), |w: u64| u[t.index_of(w)])
}

/// A table of a size that a table can have: a power of two up to 2^31.
pub open spec fn sized(t: Seq<u64>) -> bool {
    &&& 1 <= t.len() <= 0x8000_0000
    &&& is_pow2(t.len() as int)
}

/// The home of a word is a slot of the table.
pub proof fn lemma_home_range<K: HasInvalid>(w: u64, len: int)
    requires
        1 <= len,
    ensures
        0 <= home::<K>(w, len) < len,
{
    vstd::arithmetic::div_mod::lemma_mod_pos_bound(K::spec_hash(w) as int, len);
}

/// Walking back `s` steps from a live slot, where `s` is at most its
/// probe distance, leads to a live slot on its probe path whose word
/// is at least as far from home as the path has come.
pub proof fn lemma_walk_back<K: HasInvalid>(t: Seq<u64>, inv: u64, i: int, s: int)
    requires
        sized(t),
        ordered::<K>(t, inv),
        0 <= i < t.len(),
        t[i] != inv,
        0 <= s <= slot_dist::<K>(t, i),
    ensures
        path_slot_ok::<K>(t, inv, i, slot_dist::<K>(t, i) - s),
        step(home::<K>(t[i], t.len() as int), slot_dist::<K>(t, i) - s, t.len() as int)
            == dist_from(s, i, t.len() as int),
    decreases s,
{
    let len = t.len() as int;
    lemma_home_range::<K>(t[i], len);
    if s > 0 {
        lemma_walk_back::<K>(t, inv, i, s - 1);
        let q = dist_from(s - 1, i, len);
        lemma_home_range::<K>(t[q], len);
        assert(settled::<K>(t, inv, q));
        let p = prev(q, len);
        lemma_home_range::<K>(t[p], len);
    }
}

/// A table whose slots are each in order with the slot before has the
/// Robin-Hood ordering.
pub proof fn lemma_ordered_robin_hood<K: HasInvalid>(t: Seq<u64>, inv: u64)
    requires
        sized(t),
        ordered::<K>(t, inv),
    ensures
        robin_hood::<K>(t, inv),
{
    assert forall|i: int, j: int|
        0 <= i < t.len() && t[i] != inv && 0 <= j < slot_dist::<K>(
            t,
            i,
        ) implies #[trigger] path_slot_ok::<K>(t, inv, i, j) by {
        lemma_walk_back::<K>(t, inv, i, slot_dist::<K>(t, i) - j);
    }
}

/// A probe for `w` that has passed `d` slots and then meets an empty
/// slot, or a word nearer to its home than `d`, or has gone round the
/// whole table, shows that `w` is in no slot.
pub proof fn lemma_probe_absent<K: HasInvalid>(t: Seq<u64>, inv: u64, w: u64, d: int)
    requires
        sized(t),
        ordered::<K>(t, inv),
        w != inv,
        0 <= d <= t.len(),
        path_clear::<K>(t, inv, w, d),
        d == t.len() || ({
            let p = step(home::<K>(w, t.len() as int), d, t.len() as int);
            t[p] == inv || (t[p] != w && slot_dist::<K>(t, p) < d)
        }),
    ensures
        !t.contains(w),
{
    let len = t.len() as int;
    lemma_home_range::<K>(w, len);
    if t.contains(w) {
        let i = choose|i: int| 0 <= i < t.len() && t[i] == w;
        let dd = slot_dist::<K>(t, i);
        if dd < d {
            assert(passes::<K>(t, inv, w, dd));
        } else if dd > d {
            lemma_walk_back::<K>(t, inv, i, dd - d);
        }
    }
}

/// The live words of a table are finitely many, no more than its slots.
pub proof fn lemma_live_set_finite(t: Seq<u64>, inv: u64)
    ensures
        live_set(t, inv).finite(),
        live_set(t, inv).len() <= t.len(),
{
    broadcast use vstd::seq_lib::seq_to_set_is_finite;

    assert(live_set(t, inv).subset_of(t.to_set()));
    vstd::set_lib::lemma_len_subset(live_set(t, inv), t.to_set());
    t.lemma_cardinality_of_set();
}

/// A table that holds fewer live words than it has slots has an empty slot.
pub proof fn lemma_has_empty(t: Seq<u64>, inv: u64)
    requires
        distinct(t, inv),
        live_set(t, inv).len() < t.len(),
    ensures
        exists|e: int| 0 <= e < t.len() && t[e] == inv,
{
    if !(exists|e: int| 0 <= e < t.len() && t[e] == inv) {
        assert(t.no_duplicates());
        t.unique_seq_to_set();
        assert(live_set(t, inv) =~= t.to_set());
    }
}

/// The domain of the map of a table is the set of its live words.
pub proof fn lemma_table_map_dom<V>(t: Seq<u64>, u: Seq<V>, inv: u64)
    ensures
        table_map(t, u, inv).dom() == live_set(t, inv),
{
    assert(table_map(t, u, inv).dom() =~= live_set(t, inv));
}

/// In a table without repeated live words, the map sends the word of a
/// live slot to the value beside that slot.
pub proof fn lemma_table_map_at<V>(t: Seq<u64>, u: Seq<V>, inv: u64, i: int)
    requires
        distinct(t, inv),
        0 <= i < t.len(),
        t[i] != inv,
    ensures
        table_map(t, u, inv).dom().contains(t[i]),
        table_map(t, u, inv)[t[i]] == u[i],
        live_set(t, inv).contains(t[i]),
{
    assert(t.contains(t[i]));
    let k = t.index_of(t[i]);
    assert(0 <= k < t.len() && t[k] == t[i]);
}

/// A table of empty slots is in order and holds nothing.
pub proof fn lemma_empty_table<K: HasInvalid, V>(t: Seq<u64>, u: Seq<V>, inv: u64)
    requires
        forall|i: int| 0 <= i < t.len() ==> t[i] == inv,
    ensures
        ordered::<K>(t, inv),
        distinct(t, inv),
        live_set(t, inv) == Set::<u64>::empty(),
        table_map(t, u, inv) == Map::<u64, V>::empty(),
{
    assert(live_set(t, inv) =~= Set::<u64>::empty());
    assert(table_map(t, u, inv) =~= Map::<u64, V>::empty());
}

/// Putting an absent word into the empty slot where its probe ended
/// keeps the table in order and adds the word, with its value, to what
/// the table holds.
pub proof fn lemma_fill<K: HasInvalid, V>(
    t: Seq<u64>,
    u: Seq<V>,
    inv: u64,
    w: u64,
    v: V,
    p: int,
)
    requires
        sized(t),
        u.len() == t.len(),
        ordered::<K>(t, inv),
        distinct(t, inv),
        0 <= p < t.len(),
        t[p] == inv,
        w != inv,
        !t.contains(w),
        path_clear::<K>(t, inv, w, dist_from(home::<K>(w, t.len() as int), p, t.len() as int)),
    ensures
        ordered::<K>(t.update(p, w), inv),
        distinct(t.update(p, w), inv),
        live_set(t.update(p, w), inv) == live_set(t, inv).insert(w),
        table_map(t.update(p, w), u.update(p, v), inv) == table_map(t, u, inv).insert(w, v),
{
    let len = t.len() as int;
    let t2 = t.update(p, w);
    let u2 = u.update(p, v);
    let d = dist_from(home::<K>(w, len), p, len);
    lemma_home_range::<K>(w, len);
    assert forall|i: int| 0 <= i < len implies #[trigger] settled::<K>(t2, inv, i) by {
        assert(settled::<K>(t, inv, i));
        lemma_home_range::<K>(t[i], len);
        if i == p {
            if d > 0 {
                assert(passes::<K>(t, inv, w, d - 1));
            }
        }
    }
    assert forall|i: int, j: int|
        0 <= i < len && 0 <= j < len && i != j && t2[i] != inv implies t2[i] != t2[j] by {
        if i != p && j != p {
            assert(t[i] != t[j]);
        } else if i == p {
            assert(t[j] != w);
        } else {
            assert(t[i] != w);
        }
    }
    lemma_updated_contents(t, u, inv, w, v, p);
}

/// What a table holds after a word that it did not hold is written,
/// with its value, into one of its slots.
proof fn lemma_updated_contents<V>(t: Seq<u64>, u: Seq<V>, inv: u64, w: u64, v: V, p: int)
    requires
        u.len() == t.len(),
        distinct(t, inv),
        distinct(t.update(p, w), inv),
        0 <= p < t.len(),
        w != inv,
        !t.contains(w),
    ensures
        live_set(t.update(p, w), inv) == live_set(t, inv).remove(t[p]).insert(w),
        table_map(t.update(p, w), u.update(p, v), inv) == table_map(t, u, inv).remove(t[p]).insert(
            w,
            v,
        ),
{
    let t2 = t.update(p, w);
    let u2 = u.update(p, v);
    let y = t[p];
    assert forall|x: u64| x != inv implies (t2.contains(x) <==> (x == w || (t.contains(x) && x
        != y))) by {
        if t2.contains(x) {
            let i = choose|i: int| 0 <= i < t2.len() && t2[i] == x;
            if i != p {
                assert(t[i] == x);
                assert(t[i] != t[p]);
            }
        }
        if x == w {
            assert(t2[p] == w);
        }
        if t.contains(x) && x != y {
            let i = choose|i: int| 0 <= i < t.len() && t[i] == x;
            assert(t2[i] == x);
        }
    }
    assert(live_set(t2, inv) =~= live_set(t, inv).remove(y).insert(w));
    let m2 = table_map(t2, u2, inv);
    let m1 = table_map(t, u, inv).remove(y).insert(w, v);
    assert forall|x: u64| m2.dom().contains(x) implies m1.dom().contains(x) && m2[x] == m1[x] by {
        let i = t2.index_of(x);
        assert(t2.contains(x));
        assert(0 <= i < t2.len() && t2[i] == x);
        if x != w {
            assert(i != p);
            assert(t.contains(x));
            let k = t.index_of(x);
            assert(0 <= k < t.len() && t[k] == x);
            assert(k == i);
        } else {
            assert(t2[p] == w);
            assert(i == p);
        }
    }
    assert(m2 =~= m1);
}

/// Putting an absent word into a slot whose word is nearer to its own
/// home, and taking that word out, keeps the table in order.  The word
/// taken out is then absent, and its probe passes every slot up to and
/// including the one it left.  Together with the word taken out the
/// table holds what it held before and the word put in.
pub proof fn lemma_displace<K: HasInvalid, V>(
    t: Seq<u64>,
    u: Seq<V>,
    inv: u64,
    w: u64,
    v: V,
    p: int,
)
    requires
        sized(t),
        u.len() == t.len(),
        ordered::<K>(t, inv),
        distinct(t, inv),
        0 <= p < t.len(),
        t[p] != inv,
        w != inv,
        !t.contains(w),
        slot_dist::<K>(t, p) < dist_from(home::<K>(w, t.len() as int), p, t.len() as int),
        path_clear::<K>(t, inv, w, dist_from(home::<K>(w, t.len() as int), p, t.len() as int)),
    ensures
        ordered::<K>(t.update(p, w), inv),
        distinct(t.update(p, w), inv),
        !t.update(p, w).contains(t[p]),
        path_clear::<K>(t.update(p, w), inv, t[p], slot_dist::<K>(t, p) + 1),
        live_set(t.update(p, w), inv).insert(t[p]) == live_set(t, inv).insert(w),
        !live_set(t.update(p, w), inv).contains(t[p]),
        table_map(t.update(p, w), u.update(p, v), inv).insert(t[p], u[p]) == table_map(
            t,
            u,
            inv,
        ).insert(w, v),
{
    let len = t.len() as int;
    let t2 = t.update(p, w);
    let u2 = u.update(p, v);
    let y = t[p];
    let e = slot_dist::<K>(t, p);
    let d = dist_from(home::<K>(w, len), p, len);
    lemma_home_range::<K>(w, len);
    lemma_home_range::<K>(y, len);
    assert forall|i: int| 0 <= i < len implies #[trigger] settled::<K>(t2, inv, i) by {
        assert(settled::<K>(t, inv, i));
        lemma_home_range::<K>(t[i], len);
        if i == p {
            assert(passes::<K>(t, inv, w, d - 1));
        }
    }
    assert forall|i: int, j: int|
        0 <= i < len && 0 <= j < len && i != j && t2[i] != inv implies t2[i] != t2[j] by {
        if i != p && j != p {
            assert(t[i] != t[j]);
        } else if i == p {
            assert(t[j] != w);
        } else {
            assert(t[i] != w);
        }
    }
    if t2.contains(y) {
        let i = choose|i: int| 0 <= i < t2.len() && t2[i] == y;
        assert(i != p);
        assert(t[p] != t[i]);
    }
    assert forall|j: int| 0 <= j < e + 1 implies #[trigger] passes::<K>(t2, inv, y, j) by {
        if j < e {
            lemma_walk_back::<K>(t, inv, p, e - j);
            let q = step(home::<K>(y, len), j, len);
            assert(q != p);
            assert(t[p] != t[q]);
        }
    }
    lemma_updated_contents(t, u, inv, w, v, p);
    lemma_table_map_at(t, u, inv, p);
    assert(live_set(t2, inv).insert(y) =~= live_set(t, inv).insert(w));
    assert(table_map(t2, u2, inv).insert(y, u[p]) =~= table_map(t, u, inv).insert(w, v));
}

/// The word in slot `q` is live and away from its home, so that taking
/// out the word before it lets it move one slot back.
pub open spec fn moves_back<K: HasInvalid>(t: Seq<u64>, inv: u64, q: int) -> bool {
    t[q] != inv && slot_dist::<K>(t, q) > 0
}

/// The sequence in which the `n` entries that follow slot `i0` have each
/// moved one slot back, so that the entry of slot `i0` is gone, and the
/// slot that the last of them left holds `hole`.
pub open spec fn shifted<A>(t: Seq<A>, i0: int, n: int, hole: A) -> Seq<A> {
    Seq::new(
        t.len(),
        |k: int|
            {
                let c = dist_from(i0, k, t.len() as int);
                if c < n {
                    t[step(k, 1, t.len() as int)]
                } else if c == n {
                    hole
                } else {
                    t[k]
                }
            },
    )
}

/// Taking the word out of a live slot by backward shift keeps the table
/// in order and removes that word, with its value, from what the table
/// holds.  The shift moves back the words that follow, as long as they
/// are live and away from home, and empties the slot that the last of
/// them left.
pub proof fn lemma_shift_back<K: HasInvalid, V>(
    t: Seq<u64>,
    u: Seq<V>,
    inv: u64,
    i0: int,
    n: int,
    z: V,
)
    requires
        sized(t),
        u.len() == t.len(),
        ordered::<K>(t, inv),
        distinct(t, inv),
        0 <= i0 < t.len(),
        t[i0] != inv,
        0 <= n,
        n + 1 < t.len(),
        forall|q: int|
            0 <= q < t.len() && 1 <= dist_from(i0, q, t.len() as int) <= n
                ==> #[trigger] moves_back::<K>(t, inv, q),
        !moves_back::<K>(t, inv, step(i0, n + 1, t.len() as int)),
    ensures
        ordered::<K>(shifted(t, i0, n, inv), inv),
        distinct(shifted(t, i0, n, inv), inv),
        live_set(shifted(t, i0, n, inv), inv) == live_set(t, inv).remove(t[i0]),
        table_map(shifted(t, i0, n, inv), shifted(u, i0, n, z), inv) == table_map(t, u, inv).remove(
            t[i0],
        ),
{
    let len = t.len() as int;
    let f = shifted(t, i0, n, inv);
    let g = shifted(u, i0, n, z);
    let x = t[i0];
    assert forall|k: int| 0 <= k < len implies #[trigger] settled::<K>(f, inv, k) by {
        let c = dist_from(i0, k, len);
        let nk = step(k, 1, len);
        let pk = prev(k, len);
        lemma_home_range::<K>(t[k], len);
        lemma_home_range::<K>(t[nk], len);
        lemma_home_range::<K>(t[pk], len);
        assert(settled::<K>(t, inv, k));
        assert(settled::<K>(t, inv, nk));
        if c < n {
            assert(moves_back::<K>(t, inv, nk));
            if c > 0 {
                assert(moves_back::<K>(t, inv, k));
            }
        }
    }
    // where the word of each slot of the shifted table came from
    let src = |k: int| if dist_from(i0, k, len) < n { step(k, 1, len) } else { k };
    assert forall|k: int| 0 <= k < len && f[k] != inv implies 0 <= #[trigger] src(k) < len && src(k)
        != i0 && t[src(k)] == f[k] && g[k] == u[src(k)] by {}
    assert forall|i: int, j: int|
        0 <= i < len && 0 <= j < len && i != j && f[i] != inv implies f[i] != f[j] by {
        if f[j] != inv {
            assert(src(i) != src(j));
            assert(t[src(i)] != t[src(j)]);
        }
    }
    assert forall|w: u64| w != inv implies (f.contains(w) <==> (t.contains(w) && w != x)) by {
        if f.contains(w) {
            let k = choose|k: int| 0 <= k < f.len() && f[k] == w;
            assert(t[src(k)] == w);
            assert(t[src(k)] != t[i0]);
        }
        if t.contains(w) && w != x {
            let k = choose|k: int| 0 <= k < t.len() && t[k] == w;
            let c = dist_from(i0, k, len);
            if c <= n {
                assert(f[prev(k, len)] == w);
            } else {
                assert(f[k] == w);
            }
        }
    }
    assert(live_set(f, inv) =~= live_set(t, inv).remove(x));
    let m2 = table_map(f, g, inv);
    let m1 = table_map(t, u, inv).remove(x);
    assert forall|w: u64| m2.dom().contains(w) implies m1.dom().contains(w) && m2[w] == m1[w] by {
        assert(f.contains(w));
        let k = f.index_of(w);
        assert(0 <= k < len && f[k] == w);
        assert(t[src(k)] == w);
        let k1 = t.index_of(w);
        assert(t.contains(w));
        assert(0 <= k1 < len && t[k1] == w);
        assert(k1 == src(k));
    }
    assert(m2 =~= m1);
}

/// The table in which every empty slot holds the sentinel `inv2` in
/// place of `inv`.
pub open spec fn resentineled(t: Seq<u64>, inv: u64, inv2: u64) -> Seq<u64> {
    Seq::new(
        t.len(),
        |i: int|
            if t[i] == inv {
                inv2
            } else {
                t[i]
            },
    )
}

/// Marking the empty slots with another sentinel, one that is not a live
/// word, keeps the table in order and leaves what it holds unchanged.
pub proof fn lemma_resentinel<K: HasInvalid, V>(t: Seq<u64>, u: Seq<V>, inv: u64, inv2: u64)
    requires
        sized(t),
        ordered::<K>(t, inv),
        distinct(t, inv),
        !live_set(t, inv).contains(inv2),
    ensures
        ordered::<K>(resentineled(t, inv, inv2), inv2),
        distinct(resentineled(t, inv, inv2), inv2),
        live_set(resentineled(t, inv, inv2), inv2) == live_set(t, inv),
        table_map(resentineled(t, inv, inv2), u, inv2) == table_map(t, u, inv),
{
    let len = t.len() as int;
    let t2 = resentineled(t, inv, inv2);
    assert forall|i: int| 0 <= i < len implies (#[trigger] t2[i] == inv2 <==> t[i] == inv) by {
        if t[i] != inv && t[i] == inv2 {
            assert(t.contains(inv2));
        }
    }
    assert forall|i: int| 0 <= i < len implies #[trigger] settled::<K>(t2, inv2, i) by {
        assert(settled::<K>(t, inv, i));
        let p = prev(i, len);
        assert(t2[p] == inv2 <==> t[p] == inv);
    }
    assert forall|i: int, j: int|
        0 <= i < len && 0 <= j < len && i != j && t2[i] != inv2 implies t2[i] != t2[j] by {
        assert(t[i] != t[j]);
        assert(t2[j] == inv2 <==> t[j] == inv);
    }
    assert forall|w: u64| (w != inv2 && t2.contains(w)) <==> (w != inv && t.contains(w)) by {
        if w != inv2 && t2.contains(w) {
            let i = choose|i: int| 0 <= i < t2.len() && t2[i] == w;
            assert(t[i] == w);
        }
        if w != inv && t.contains(w) {
            let i = choose|i: int| 0 <= i < t.len() && t[i] == w;
            assert(t2[i] == inv2 <==> t[i] == inv);
            assert(t2[i] == w);
        }
    }
    assert(live_set(t2, inv2) =~= live_set(t, inv));
    let m2 = table_map(t2, u, inv2);
    let m1 = table_map(t, u, inv);
    assert forall|w: u64| m2.dom().contains(w) implies m1.dom().contains(w) && m2[w] == m1[w] by {
        assert(t2.contains(w));
        let k = t2.index_of(w);
        assert(0 <= k < len && t2[k] == w);
        assert(t[k] == w);
        assert(t.contains(w));
        let k1 = t.index_of(w);
        assert(0 <= k1 < len && t[k1] == w);
        assert(k1 == k);
    }
    assert(m2 =~= m1);
}

/// Writing a new value beside a live slot maps the word of that slot to
/// the new value and leaves the rest of the map unchanged.
pub proof fn lemma_overwrite<V>(t: Seq<u64>, u: Seq<V>, inv: u64, i: int, v: V)
    requires
        u.len() == t.len(),
        distinct(t, inv),
        0 <= i < t.len(),
        t[i] != inv,
    ensures
        table_map(t, u.update(i, v), inv) == table_map(t, u, inv).insert(t[i], v),
{
    let m2 = table_map(t, u.update(i, v), inv);
    let m1 = table_map(t, u, inv).insert(t[i], v);
    assert(t.contains(t[i]));
    assert forall|w: u64| m2.dom().contains(w) implies m1.dom().contains(w) && m2[w] == m1[w] by {
        let k = t.index_of(w);
        assert(t.contains(w));
        assert(0 <= k < t.len() && t[k] == w);
        if w == t[i] {
            assert(k == i);
        }
    }
    assert(m2 =~= m1);
}

/// The words of the live slots from slot `from` on, in the order of the
/// slots.
pub open spec fn live_from(t: Seq<u64>, inv: u64, from: int) -> Seq<u64>
    decreases t.len() - from,
{
    if from < 0 || from >= t.len() {
        Seq::empty()
    } else if t[from] == inv {
        live_from(t, inv, from + 1)
    } else {
        seq![t[from]] + live_from(t, inv, from + 1)
    }
}

/// The words of the live slots from slot `from` on are the words other
/// than the sentinel that those slots hold, each once where the table
/// has no repeated words.
pub proof fn lemma_live_from(t: Seq<u64>, inv: u64, from: int)
    requires
        distinct(t, inv),
        0 <= from <= t.len(),
    ensures
        forall|w: u64| #[trigger]
            live_from(t, inv, from).contains(w) <==> w != inv && exists|j: int|
                from <= j < t.len() && t[j] == w,
        live_from(t, inv, from).no_duplicates(),
    decreases t.len() - from,
{
    let here = live_from(t, inv, from);
    if from < t.len() {
        lemma_live_from(t, inv, from + 1);
        let rest = live_from(t, inv, from + 1);
        assert forall|w: u64| #[trigger] here.contains(w) <==> w != inv && exists|j: int|
            from <= j < t.len() && t[j] == w by {
            if here.contains(w) {
                let k = choose|k: int| 0 <= k < here.len() && here[k] == w;
                if t[from] != inv && k == 0 {
                    assert(t[from] == w);
                } else {
                    let kk = if t[from] == inv {
                        k
                    } else {
                        k - 1
                    };
                    assert(rest[kk] == w);
                    assert(rest.contains(w));
                    let j = choose|j: int| from + 1 <= j < t.len() && t[j] == w;
                    assert(from <= j < t.len() && t[j] == w);
                }
            }
            if w != inv && exists|j: int| from <= j < t.len() && t[j] == w {
                let j = choose|j: int| from <= j < t.len() && t[j] == w;
                if j == from {
                    assert(here[0] == w);
                } else {
                    assert(from + 1 <= j < t.len() && t[j] == w);
                    assert(rest.contains(w));
                    let k = choose|k: int| 0 <= k < rest.len() && rest[k] == w;
                    if t[from] == inv {
                        assert(here[k] == w);
                    } else {
                        assert(here[k + 1] == w);
                    }
                }
            }
        }
        if t[from] != inv {
            assert forall|a: int, b: int| 0 <= a < here.len() && 0 <= b < here.len() && a
                != b implies here[a] != here[b] by {
                if a > 0 && b > 0 {
                    assert(rest[a - 1] != rest[b - 1]);
                } else {
                    let k = if a == 0 {
                        b - 1
                    } else {
                        a - 1
                    };
                    assert(rest[k] == here[k + 1]);
                    assert(rest.contains(rest[k]));
                    let j = choose|j: int| from + 1 <= j < t.len() && t[j] == rest[k];
                    assert(t[from] != t[j]);
                }
            }
        }
    }
}

/// The words of all live slots, in the order of the slots, are what the
/// table holds: each word once.
pub proof fn lemma_live_all(t: Seq<u64>, inv: u64)
    requires
        distinct(t, inv),
    ensures
        live_from(t, inv, 0).no_duplicates(),
        live_from(t, inv, 0).to_set() == live_set(t, inv),
        live_from(t, inv, 0).len() == live_set(t, inv).len(),
        !live_from(t, inv, 0).contains(inv),
{
    lemma_live_from(t, inv, 0);
    let all = live_from(t, inv, 0);
    assert forall|w: u64| all.to_set().contains(w) <==> live_set(t, inv).contains(w) by {
        if all.contains(w) {
            let j = choose|j: int| 0 <= j < t.len() && t[j] == w;
            assert(t.contains(w));
        }
        if live_set(t, inv).contains(w) {
            let j = choose|j: int| 0 <= j < t.len() && t[j] == w;
            assert(0 <= j < t.len() && t[j] == w);
        }
    }
    assert(all.to_set() =~= live_set(t, inv));
    all.unique_seq_to_set();
}

/// The word that lies `j` below `w`, wrapping below zero.
pub open spec fn below(w: u64, j: int) -> u64 {
    if w >= j {
        (w - j) as u64
    } else {
        (w - j + 0x1_0000_0000_0000_0000) as u64
    }
}

/// `fresh` is the sentinel that takes the place of `stale` in a table
/// that holds the words `live`: the nearest word below `stale`, wrapping
/// below zero, that the table does not hold.
pub open spec fn next_sentinel(live: Set<u64>, stale: u64, fresh: u64) -> bool {
    &&& fresh != stale
    &&& !live.contains(fresh)
    &&& exists|j: int|
        1 <= j && fresh == #[trigger] below(stale, j) && forall|m: int|
            1 <= m < j ==> live.contains(#[trigger] below(stale, m))
}

/// How the sentinel of a table that holds the words `live` moves when
/// `value` is put in: where `value` is the sentinel, the nearest word
/// below it that the table does not hold takes its place; else the
/// sentinel stays.
pub open spec fn moved_for(live: Set<u64>, value: u64, stale: u64, fresh: u64) -> bool {
    if value == stale {
        next_sentinel(live, stale, fresh)
    } else {
        fresh == stale
    }
}

/// The table that the first `n` slots of `s` make.
pub open spec fn slots<K: HasInvalid>(s: Seq<K>, n: int) -> Seq<u64> {
    Seq::new(n as nat, |i: int| s[i].spec_word())
}

/// The sequence `p` without its entry at `i`, the last entry standing in
/// its place.
pub open spec fn swap_removed(p: Seq<u64>, i: int) -> Seq<u64> {
    p.update(i, p.last()).drop_last()
}

/// The first `i + 1` entries of a sequence are, as a set, the first `i`
/// with the entry at `i`.
pub proof fn lemma_take_one_more<A>(s: Seq<A>, i: int)
    requires
        0 <= i < s.len(),
    ensures
        s.take(i + 1).to_set() == s.take(i).to_set().insert(s[i]),
{
    let a = s.take(i + 1);
    let b = s.take(i);
    assert forall|x: A| a.to_set().contains(x) <==> b.to_set().insert(s[i]).contains(x) by {
        if a.contains(x) {
            let j = choose|j: int| 0 <= j < a.len() && a[j] == x;
            if j < i {
                assert(b[j] == x);
            }
        }
        if b.contains(x) {
            let j = choose|j: int| 0 <= j < b.len() && b[j] == x;
            assert(a[j] == x);
        }
        if x == s[i] {
            assert(a[i] == x);
        }
    }
    assert(a.to_set() =~= b.to_set().insert(s[i]));
}

/// The first `i` entries of a sequence, or all of them where it has
/// fewer.
pub open spec fn first<A>(s: Seq<A>, i: int) -> Seq<A> {
    s.take(
        if i <= s.len() {
            i
        } else {
            s.len() as int
        },
    )
}

/// The live words among the first `i + 1` slots are those among the
/// first `i`, and behind them the word of slot `i` where it is live.
pub proof fn lemma_live_one_more(t: Seq<u64>, inv: u64, a: int, i: int)
    requires
        0 <= a <= i < t.len(),
    ensures
        live_from(t.take(i + 1), inv, a) == if t[i] != inv {
            live_from(t.take(i), inv, a).push(t[i])
        } else {
            live_from(t.take(i), inv, a)
        },
    decreases i - a,
{
    let more = t.take(i + 1);
    let less = t.take(i);
    if a == i {
        assert(live_from(more, inv, i + 1) =~= Seq::<u64>::empty());
        assert(live_from(less, inv, i) =~= Seq::<u64>::empty());
        if t[i] != inv {
            assert(live_from(more, inv, i) =~= seq![t[i]]);
            assert(Seq::<u64>::empty().push(t[i]) =~= seq![t[i]]);
        }
    } else {
        lemma_live_one_more(t, inv, a + 1, i);
        assert(more[a] == t[a] && less[a] == t[a]);
        let rest_less = live_from(less, inv, a + 1);
        if t[a] != inv && t[i] != inv {
            assert((seq![t[a]] + rest_less).push(t[i]) =~= seq![t[a]] + rest_less.push(t[i]));
        }
    }
}

/// The table after the word `w`, carried forward from slot `p`, has found
/// its slot.  At an empty slot the word stays.  At a slot whose word is
/// nearer to its own home than `w` is to its home, `w` takes the slot
/// and that word is carried on from the next slot.  At any other slot
/// `w` goes on to the next slot.  The walk takes at most `left` steps.
pub open spec fn carry<K: HasInvalid>(t: Seq<u64>, inv: u64, w: u64, p: int, left: nat) -> Seq<u64>
    decreases left,
{
    if left == 0 {
        t
    } else if t[p] == inv {
        t.update(p, w)
    } else if slot_dist::<K>(t, p) < dist_from(home::<K>(w, t.len() as int), p, t.len() as int) {
        carry::<K>(t.update(p, w), inv, t[p], step(p, 1, t.len() as int), (left - 1) as nat)
    } else {
        carry::<K>(t, inv, w, step(p, 1, t.len() as int), (left - 1) as nat)
    }
}

/// The table after the word `w`, which it does not hold, was put in: `w`
/// is carried forward from its home.
pub open spec fn inserted<K: HasInvalid>(t: Seq<u64>, inv: u64, w: u64) -> Seq<u64> {
    carry::<K>(t, inv, w, home::<K>(w, t.len() as int), t.len())
}

/// The table after the word of slot `i` was taken out by backward
/// shift.  While the next slot holds a word away from its home, that
/// word moves back into slot `i` and the walk goes on from the slot it
/// left; then slot `i` is emptied.  The walk takes at most `left` steps.
pub open spec fn pull<K: HasInvalid>(t: Seq<u64>, inv: u64, i: int, left: nat) -> Seq<u64>
    decreases left,
{
    let j = step(i, 1, t.len() as int);
    if left == 0 || t[j] == inv || slot_dist::<K>(t, j) == 0 {
        t.update(i, inv)
    } else {
        pull::<K>(t.update(i, t[j]), inv, j, (left - 1) as nat)
    }
}

/// The table after the word of slot `i` was taken out.
pub open spec fn removed<K: HasInvalid>(t: Seq<u64>, inv: u64, i: int) -> Seq<u64> {
    pull::<K>(t, inv, i, t.len())
}

/// A word that is carried forward along slots that its probe passes is
/// carried to the end of them.
pub proof fn lemma_carry_passes<K: HasInvalid>(
    t: Seq<u64>,
    inv: u64,
    w: u64,
    d0: int,
    d1: int,
    left: nat,
)
    requires
        1 <= t.len(),
        0 <= d0 <= d1 < t.len(),
        forall|j: int| d0 <= j < d1 ==> #[trigger] passes::<K>(t, inv, w, j),
        left >= d1 - d0,
    ensures
        carry::<K>(t, inv, w, step(home::<K>(w, t.len() as int), d0, t.len() as int), left)
            == carry::<K>(
            t,
            inv,
            w,
            step(home::<K>(w, t.len() as int), d1, t.len() as int),
            (left - (d1 - d0)) as nat,
        ),
    decreases d1 - d0,
{
    let len = t.len() as int;
    lemma_home_range::<K>(w, len);
    if d0 < d1 {
        let p = step(home::<K>(w, len), d0, len);
        assert(passes::<K>(t, inv, w, d0));
        assert(dist_from(home::<K>(w, len), p, len) == d0);
        assert(step(p, 1, len) == step(home::<K>(w, len), d0 + 1, len));
        lemma_carry_passes::<K>(t, inv, w, d0 + 1, d1, (left - 1) as nat);
    }
}

/// The table after the words of `ws` were put in, one after the other.
pub open spec fn refilled<K: HasInvalid>(t: Seq<u64>, inv: u64, ws: Seq<u64>) -> Seq<u64>
    decreases ws.len(),
{
    if ws.len() == 0 {
        t
    } else {
        inserted::<K>(refilled::<K>(t, inv, ws.drop_last()), inv, ws.last())
    }
}

/// Marking the empty slots with the sentinel they have changes nothing.
pub proof fn lemma_same_sentinel(t: Seq<u64>, inv: u64)
    ensures
        resentineled(t, inv, inv) == t,
{
    assert(resentineled(t, inv, inv) =~= t);
}

} // verus!
