//! The inline form: a short array whose first cells hold the elements,
//! with no order among them and no hashing.

use crate::model::{lemma_overwrite, lemma_table_map_at, live_set, slots, swap_removed, table_map};
use crate::slot::HasInvalid;
use vstd::prelude::*;

verus! {

/// The first `count` cells of `cells` hold distinct words, none of them
/// the sentinel of the width.
pub open spec fn small_ok<K: HasInvalid>(cells: Seq<K>, count: int) -> bool {
    &&& 0 <= count <= cells.len()
    &&& slots(cells, count).no_duplicates()
    &&& !slots(cells, count).contains(K::spec_invalid())
}

/// Taking one entry out of a sequence of distinct words, with the last
/// entry moving into its place, leaves distinct words: the same set
/// without the word taken out.
pub proof fn lemma_swap_removed(p: Seq<u64>, i: int)
    requires
        p.no_duplicates(),
        0 <= i < p.len(),
    ensures
        swap_removed(p, i).no_duplicates(),
        swap_removed(p, i).to_set() == p.to_set().remove(p[i]),
{
    let q = swap_removed(p, i);
    let last = p.len() - 1;
    assert forall|a: int, b: int| 0 <= a < q.len() && 0 <= b < q.len() && a != b implies q[a]
        != q[b] by {
        let sa = if a == i { last } else { a };
        let sb = if b == i { last } else { b };
        assert(p[sa] != p[sb]);
    }
    assert forall|w: u64| q.to_set().contains(w) <==> p.to_set().remove(p[i]).contains(w) by {
        if q.contains(w) {
            let a = choose|a: int| 0 <= a < q.len() && q[a] == w;
            let sa = if a == i { last } else { a };
            assert(p[sa] == w);
            assert(p[sa] != p[i]);
        }
        if p.contains(w) && w != p[i] {
            let a = choose|a: int| 0 <= a < p.len() && p[a] == w;
            if a == last {
                assert(q[i] == w);
            } else {
                assert(q[a] == w);
            }
        }
    }
    assert(q.to_set() =~= p.to_set().remove(p[i]));
}

/// Appending a word that a sequence of distinct words does not hold
/// leaves distinct words: the same set with the new word added.
pub proof fn lemma_pushed(p: Seq<u64>, w: u64)
    requires
        p.no_duplicates(),
        !p.contains(w),
    ensures
        p.push(w).no_duplicates(),
        p.push(w).to_set() == p.to_set().insert(w),
{
    let q = p.push(w);
    assert forall|a: int, b: int| 0 <= a < q.len() && 0 <= b < q.len() && a != b implies q[a]
        != q[b] by {
        if a < p.len() && b < p.len() {
            assert(p[a] != p[b]);
        } else if a < p.len() {
            assert(p[a] != w);
        } else {
            assert(p[b] != w);
        }
    }
    assert forall|x: u64| q.to_set().contains(x) <==> p.to_set().insert(w).contains(x) by {
        if q.contains(x) {
            let a = choose|a: int| 0 <= a < q.len() && q[a] == x;
            if a < p.len() {
                assert(p[a] == x);
            }
        }
        if p.contains(x) {
            let a = choose|a: int| 0 <= a < p.len() && p[a] == x;
            assert(q[a] == x);
        }
        if x == w {
            assert(q[p.len() as int] == w);
        }
    }
    assert(q.to_set() =~= p.to_set().insert(w));
}

/// Scans the first `count` cells for the word `w`.
pub fn small_find<K: HasInvalid>(v: &[K], count: usize, w: u64) -> (r: Option<usize>)
    requires
        count <= v@.len(),
    ensures
        r.is_some() == slots(v@, count as int).contains(w),
        r matches Some(i) ==> i < count && v@[i as int].spec_word() == w,
{
    let ghost p = slots(v@, count as int);
    let mut i: usize = 0;
    while i < count
        invariant
            i <= count <= v@.len(),
            p == slots(v@, count as int),
            forall|j: int| 0 <= j < i ==> p[j] != w,
        decreases count - i,
    {
        if v[i].to_word() == w {
            assert(p[i as int] == w);
            return Some(i);
        }
        i = i + 1;
    }
    None
}

/// Writes `elem` behind the first `count` cells.
pub fn small_push<K: HasInvalid>(v: &mut [K], count: usize, elem: K)
    requires
        count < old(v)@.len(),
    ensures
        final(v)@.len() == old(v)@.len(),
        slots(final(v)@, count + 1) == slots(old(v)@, count as int).push(elem.spec_word()),
{
    v[count] = elem;
    assert(slots(v@, count + 1) =~= slots(old(v)@, count as int).push(elem.spec_word()));
}

/// Takes cell `i` out of the first `count` cells: the last of them moves
/// into its place.
pub fn small_take<K: HasInvalid>(v: &mut [K], count: usize, i: usize)
    requires
        i < count <= old(v)@.len(),
    ensures
        final(v)@.len() == old(v)@.len(),
        slots(final(v)@, count - 1) == swap_removed(slots(old(v)@, count as int), i as int),
{
    let last = v[count - 1];
    v[i] = last;
    assert(slots(v@, count - 1) =~= swap_removed(slots(old(v)@, count as int), i as int));
}

/// The elements of an inline form are the words of its cells in use.
pub proof fn lemma_small_live<K: HasInvalid>(cells: Seq<K>, count: int)
    requires
        small_ok::<K>(cells, count),
    ensures
        live_set(slots(cells, count), K::spec_invalid()) == slots(cells, count).to_set(),
        live_set(slots(cells, count), K::spec_invalid()).len() == count,
{
    let p = slots(cells, count);
    assert(live_set(p, K::spec_invalid()) =~= p.to_set());
    p.unique_seq_to_set();
}

/// Puts `value` into an inline form unless it is there.  `Ok` gives the
/// cell that took the new value, `Err` the cell where the value already
/// was.
pub fn small_insert<K: HasInvalid>(v: &mut [K], count: usize, value: u64) -> (r: Result<
    usize,
    usize,
>)
    requires
        small_ok::<K>(old(v)@, count as int),
        value < K::spec_invalid(),
        count < old(v)@.len(),
    ensures
        final(v)@.len() == old(v)@.len(),
        r.is_ok() == !live_set(slots(old(v)@, count as int), K::spec_invalid()).contains(value),
        small_ok::<K>(
            final(v)@,
            if r.is_ok() {
                count + 1
            } else {
                count as int
            },
        ),
        live_set(
            slots(
                final(v)@,
                if r.is_ok() {
                    count + 1
                } else {
                    count as int
                },
            ),
            K::spec_invalid(),
        ) == live_set(slots(old(v)@, count as int), K::spec_invalid()).insert(value),
        match r {
            Ok(i) => i == count && slots(final(v)@, count + 1) == slots(old(v)@, count as int).push(
                value,
            ),
            Err(i) => i < count && old(v)@[i as int].spec_word() == value && final(v)@ == old(v)@,
        },
{
    let ghost p = slots(v@, count as int);
    proof {
        lemma_small_live::<K>(v@, count as int);
    }
    match small_find(v, count, value) {
        Some(i) => {
            assert(p.to_set().insert(value) =~= p.to_set());
            Err(i)
        },
        None => {
            small_push(v, count, K::from_word(value));
            proof {
                lemma_pushed(p, value);
                let q = slots(v@, count + 1);
                assert(!q.contains(K::spec_invalid())) by {
                    if q.contains(K::spec_invalid()) {
                        let i = choose|i: int| 0 <= i < q.len() && q[i] == K::spec_invalid();
                        if i < count {
                            assert(p[i] == K::spec_invalid());
                        }
                    }
                }
                lemma_small_live::<K>(v@, count + 1);
            }
            Ok(count)
        },
    }
}

/// Takes `value` out of an inline form, and says whether it was there.
pub fn small_remove<K: HasInvalid>(v: &mut [K], count: usize, value: u64) -> (r: bool)
    requires
        small_ok::<K>(old(v)@, count as int),
    ensures
        final(v)@.len() == old(v)@.len(),
        r == live_set(slots(old(v)@, count as int), K::spec_invalid()).contains(value),
        r ==> count >= 1,
        small_ok::<K>(
            final(v)@,
            if r {
                count - 1
            } else {
                count as int
            },
        ),
        live_set(
            slots(
                final(v)@,
                if r {
                    count - 1
                } else {
                    count as int
                },
            ),
            K::spec_invalid(),
        ) == live_set(slots(old(v)@, count as int), K::spec_invalid()).remove(value),
        r ==> slots(final(v)@, count - 1) == swap_removed(
            slots(old(v)@, count as int),
            slots(old(v)@, count as int).index_of(value),
        ),
        !r ==> final(v)@ == old(v)@,
{
    let ghost p = slots(v@, count as int);
    proof {
        lemma_small_live::<K>(v@, count as int);
    }
    match small_find(v, count, value) {
        Some(i) => {
            proof {
                assert(p[i as int] == value);
                let k = p.index_of(value);
                assert(0 <= k < p.len() && p[k] == value);
                assert(k == i);
            }
            small_take(v, count, i);
            proof {
                lemma_swap_removed(p, i as int);
                let q = slots(v@, count - 1);
                assert(!q.contains(K::spec_invalid())) by {
                    if q.contains(K::spec_invalid()) {
                        let j = choose|j: int| 0 <= j < q.len() && q[j] == K::spec_invalid();
                        if j == i {
                            assert(p[count - 1] == K::spec_invalid());
                        } else {
                            assert(p[j] == K::spec_invalid());
                        }
                    }
                }
                lemma_small_live::<K>(v@, count - 1);
            }
            true
        },
        None => {
            assert(p.to_set().remove(value) =~= p.to_set());
            false
        },
    }
}

/// The sequence `u` without its entry at `i`, the last entry standing in
/// its place.
pub open spec fn swap_removed_values<V>(u: Seq<V>, i: int) -> Seq<V> {
    u.update(i, u.last()).drop_last()
}

/// Appending an entry whose word a sequence of distinct words does not
/// hold adds the entry to the map of the sequence.
pub proof fn lemma_pushed_entry<V>(p: Seq<u64>, u: Seq<V>, inv: u64, w: u64, v: V)
    requires
        p.no_duplicates(),
        u.len() == p.len(),
        !p.contains(w),
        w != inv,
    ensures
        table_map(p.push(w), u.push(v), inv) == table_map(p, u, inv).insert(w, v),
{
    let q = p.push(w);
    let m2 = table_map(q, u.push(v), inv);
    let m1 = table_map(p, u, inv).insert(w, v);
    lemma_pushed(p, w);
    assert(q[p.len() as int] == w);
    assert forall|x: u64| m2.dom().contains(x) <==> m1.dom().contains(x) by {
        if q.contains(x) {
            let a = choose|a: int| 0 <= a < q.len() && q[a] == x;
            if a < p.len() {
                assert(p[a] == x);
            }
        }
        if p.contains(x) {
            let a = choose|a: int| 0 <= a < p.len() && p[a] == x;
            assert(q[a] == x);
        }
    }
    assert forall|x: u64| m2.dom().contains(x) implies m2[x] == m1[x] by {
        let k = q.index_of(x);
        assert(q.contains(x));
        assert(0 <= k < q.len() && q[k] == x);
        if x != w {
            assert(p[k] == x);
            assert(p.contains(x));
            let k1 = p.index_of(x);
            assert(0 <= k1 < p.len() && p[k1] == x);
            assert(k1 == k);
        } else {
            assert(k == p.len());
        }
    }
    assert(m2 =~= m1);
}

/// Taking one entry out of a sequence of distinct words, with the last
/// entry moving into its place, removes the entry from the map of the
/// sequence.
pub proof fn lemma_swap_removed_entry<V>(p: Seq<u64>, u: Seq<V>, inv: u64, i: int)
    requires
        p.no_duplicates(),
        u.len() == p.len(),
        0 <= i < p.len(),
    ensures
        table_map(swap_removed(p, i), swap_removed_values(u, i), inv) == table_map(p, u, inv).remove(
            p[i],
        ),
{
    let q = swap_removed(p, i);
    let g = swap_removed_values(u, i);
    let last = p.len() - 1;
    let m2 = table_map(q, g, inv);
    let m1 = table_map(p, u, inv).remove(p[i]);
    lemma_swap_removed(p, i);
    assert forall|x: u64| m2.dom().contains(x) <==> m1.dom().contains(x) by {
        if q.contains(x) {
            let a = choose|a: int| 0 <= a < q.len() && q[a] == x;
            let sa = if a == i {
                last
            } else {
                a
            };
            assert(p[sa] == x);
            assert(p[sa] != p[i]);
        }
        if p.contains(x) && x != p[i] {
            let a = choose|a: int| 0 <= a < p.len() && p[a] == x;
            if a == last {
                assert(q[i] == x);
            } else {
                assert(q[a] == x);
            }
        }
    }
    assert forall|x: u64| m2.dom().contains(x) implies m2[x] == m1[x] by {
        let k = q.index_of(x);
        assert(q.contains(x));
        assert(0 <= k < q.len() && q[k] == x);
        let sk = if k == i {
            last
        } else {
            k
        };
        assert(p[sk] == x);
        assert(p.contains(x));
        let k1 = p.index_of(x);
        assert(0 <= k1 < p.len() && p[k1] == x);
        assert(k1 == sk);
    }
    assert(m2 =~= m1);
}

/// The map of an inline form: from the words of its cells in use to the
/// values beside them.
pub open spec fn small_map<K: HasInvalid, V>(keys: Seq<K>, vals: Seq<V>, count: int) -> Map<
    u64,
    V,
> {
    table_map(slots(keys, count), vals.take(count), K::spec_invalid())
}

/// Looks `key` up in an inline form and returns the value beside it.
pub fn small_map_find<K: HasInvalid, V: Copy>(keys: &[K], vals: &[V], count: usize, key: u64) -> (r:
    Option<V>)
    requires
        small_ok::<K>(keys@, count as int),
        count <= vals@.len(),
    ensures
        r == small_map(keys@, vals@, count as int).get(key),
{
    let ghost p = slots(keys@, count as int);
    match small_find(keys, count, key) {
        Some(i) => {
            proof {
                lemma_table_map_at(p, vals@.take(count as int), K::spec_invalid(), i as int);
            }
            Some(vals[i])
        },
        None => None,
    }
}

/// Maps `key` to `val` in an inline form, and returns the value that
/// `key` was mapped to before, if any.
pub fn small_map_insert<K: HasInvalid, V: Copy>(
    keys: &mut [K],
    vals: &mut [V],
    count: usize,
    key: u64,
    val: V,
) -> (r: Option<V>)
    requires
        small_ok::<K>(old(keys)@, count as int),
        key < K::spec_invalid(),
        count < old(keys)@.len(),
        count < old(vals)@.len(),
    ensures
        final(keys)@.len() == old(keys)@.len(),
        final(vals)@.len() == old(vals)@.len(),
        r == small_map(old(keys)@, old(vals)@, count as int).get(key),
        small_ok::<K>(
            final(keys)@,
            if r.is_none() {
                count + 1
            } else {
                count as int
            },
        ),
        small_map(
            final(keys)@,
            final(vals)@,
            if r.is_none() {
                count + 1
            } else {
                count as int
            },
        ) == small_map(old(keys)@, old(vals)@, count as int).insert(key, val),
        r.is_none() ==> slots(final(keys)@, count + 1) == slots(old(keys)@, count as int).push(key),
        r.is_some() ==> final(keys)@ == old(keys)@,
{
    let ghost p = slots(keys@, count as int);
    let ghost u = vals@.take(count as int);
    match small_find(keys, count, key) {
        Some(i) => {
            let before = vals[i];
            vals[i] = val;
            proof {
                lemma_table_map_at(p, u, K::spec_invalid(), i as int);
                lemma_overwrite(p, u, K::spec_invalid(), i as int, val);
                assert(vals@.take(count as int) =~= u.update(i as int, val));
            }
            Some(before)
        },
        None => {
            small_push(keys, count, K::from_word(key));
            vals[count] = val;
            proof {
                lemma_pushed(p, key);
                lemma_pushed_entry(p, u, K::spec_invalid(), key, val);
                assert(vals@.take(count + 1) =~= u.push(val));
                let q = slots(keys@, count + 1);
                assert(!q.contains(K::spec_invalid())) by {
                    if q.contains(K::spec_invalid()) {
                        let i = choose|i: int| 0 <= i < q.len() && q[i] == K::spec_invalid();
                        if i < count {
                            assert(p[i] == K::spec_invalid());
                        }
                    }
                }
            }
            None
        },
    }
}

/// Takes the entry of `key` out of an inline form if there is one, and
/// returns its value.
pub fn small_map_remove<K: HasInvalid, V: Copy>(
    keys: &mut [K],
    vals: &mut [V],
    count: usize,
    key: u64,
) -> (r: Option<V>)
    requires
        small_ok::<K>(old(keys)@, count as int),
        count <= old(vals)@.len(),
    ensures
        final(keys)@.len() == old(keys)@.len(),
        final(vals)@.len() == old(vals)@.len(),
        r == small_map(old(keys)@, old(vals)@, count as int).get(key),
        r.is_some() ==> count >= 1,
        small_ok::<K>(
            final(keys)@,
            if r.is_some() {
                count - 1
            } else {
                count as int
            },
        ),
        small_map(
            final(keys)@,
            final(vals)@,
            if r.is_some() {
                count - 1
            } else {
                count as int
            },
        ) == small_map(old(keys)@, old(vals)@, count as int).remove(key),
        r.is_some() ==> slots(final(keys)@, count - 1) == swap_removed(
            slots(old(keys)@, count as int),
            slots(old(keys)@, count as int).index_of(key),
        ),
        r.is_none() ==> final(keys)@ == old(keys)@,
{
    let ghost p = slots(keys@, count as int);
    let ghost u = vals@.take(count as int);
    match small_find(keys, count, key) {
        Some(i) => {
            proof {
                assert(p[i as int] == key);
                let k = p.index_of(key);
                assert(0 <= k < p.len() && p[k] == key);
                assert(k == i);
            }
            let before = vals[i];
            small_take(keys, count, i);
            let last = vals[count - 1];
            vals[i] = last;
            proof {
                lemma_table_map_at(p, u, K::spec_invalid(), i as int);
                lemma_swap_removed(p, i as int);
                lemma_swap_removed_entry(p, u, K::spec_invalid(), i as int);
                assert(vals@.take(count - 1) =~= swap_removed_values(u, i as int));
                let q = slots(keys@, count - 1);
                assert(!q.contains(K::spec_invalid())) by {
                    if q.contains(K::spec_invalid()) {
                        let j = choose|j: int| 0 <= j < q.len() && q[j] == K::spec_invalid();
                        if j == i {
                            assert(p[count - 1] == K::spec_invalid());
                        } else {
                            assert(p[j] == K::spec_invalid());
                        }
                    }
                }
            }
            Some(before)
        },
        None => {
            assert(small_map(keys@, vals@, count as int).remove(key) =~= small_map(
                keys@,
                vals@,
                count as int,
            ));
            None
        },
    }
}

} // verus!
