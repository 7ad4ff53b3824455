//! The heap forms of a set: a slot table with its element count, under
//! a fixed sentinel or, for 64-bit slots, under a sentinel that moves.

use crate::capacity::{is_pow2, load_ok};
use crate::model::{
    inserted, lemma_empty_table, lemma_has_empty, lemma_live_set_finite, lemma_resentinel,
    lemma_table_map_dom, live_set, moved_for, removed, resentineled, slots, table_map,
};
use crate::slot::HasInvalid;
use crate::storage::filled;
use crate::table::{
    map_find, map_insert, map_remove, relocate_sentinel, table_find, table_insert, table_ok,
    table_remove,
};
use vstd::prelude::*;

verus! {

/// The first `n` cells make a table of `count` words under the sentinel
/// `inv`, within the load factor.
pub open spec fn heap_ok<K: HasInvalid>(cells: Seq<K>, n: int, inv: u64, count: int) -> bool {
    &&& 1 <= n <= cells.len()
    &&& n <= 0x8000_0000
    &&& is_pow2(n)
    &&& table_ok::<K>(slots(cells, n), inv)
    &&& count == live_set(slots(cells, n), inv).len()
    &&& load_ok(count, n)
}

/// A heap form whose sentinel is the fixed one of its width.
pub open spec fn fixed_ok<K: HasInvalid>(cells: Seq<K>, count: int) -> bool {
    heap_ok::<K>(cells, cells.len() as int, K::spec_invalid(), count)
}

/// A heap form of 64-bit slots whose sentinel is kept in the last cell.
pub open spec fn movable_ok(cells: Seq<u64>, count: int) -> bool {
    &&& cells.len() >= 2
    &&& heap_ok::<u64>(cells, cells.len() - 1, cells[cells.len() - 1], count)
}

/// A finite set of words below `bound` has at most `bound` elements.
pub proof fn lemma_bounded_len(s: Set<u64>, bound: u64)
    requires
        s.finite(),
        forall|w: u64| s.contains(w) ==> w < bound,
    ensures
        s.len() <= bound,
    decreases bound,
{
    if bound == 0 {
        assert(s =~= Set::<u64>::empty());
    } else {
        let top = (bound - 1) as u64;
        lemma_bounded_len(s.remove(top), top);
    }
}

/// A table under the fixed sentinel of its width holds at most as many
/// words as there are words below the sentinel.
pub proof fn lemma_fixed_count<K: HasInvalid>(cells: Seq<K>, n: int)
    requires
        0 <= n <= cells.len(),
    ensures
        live_set(slots(cells, n), K::spec_invalid()).len() <= K::spec_invalid(),
{
    let t = slots(cells, n);
    let s = live_set(t, K::spec_invalid());
    lemma_live_set_finite(t, K::spec_invalid());
    assert forall|w: u64| s.contains(w) implies w < K::spec_invalid() by {
        let i = choose|i: int| 0 <= i < t.len() && t[i] == w;
        cells[i].lemma_word_range();
    }
    lemma_bounded_len(s, K::spec_invalid());
}

/// A table within the load factor has an empty slot.
pub proof fn lemma_heap_has_empty<K: HasInvalid>(cells: Seq<K>, n: int, inv: u64, count: int)
    requires
        heap_ok::<K>(cells, n, inv, count),
    ensures
        slots(cells, n).contains(inv),
        count < n,
{
    lemma_has_empty(slots(cells, n), inv);
}

/// Looks `value` up in a heap form under the fixed sentinel.
pub fn fixed_find<K: HasInvalid>(v: &[K], value: u64) -> (r: Option<usize>)
    requires
        heap_ok::<K>(v@, v@.len() as int, K::spec_invalid(), live_set(
            slots(v@, v@.len() as int),
            K::spec_invalid(),
        ).len() as int),
    ensures
        r.is_some() == live_set(slots(v@, v@.len() as int), K::spec_invalid()).contains(value),
        r matches Some(i) ==> i < v@.len() && v@[i as int].spec_word() == value,
{
    let invalid = K::invalid();
    let ghost t = slots(v@, v@.len() as int);
    proof {
        lemma_has_empty(t, K::spec_invalid());
    }
    if value >= invalid.to_word() {
        proof {
            if t.contains(value) && value != K::spec_invalid() {
                let i = choose|i: int| 0 <= i < t.len() && t[i] == value;
                v@[i].lemma_word_range();
            }
        }
        return None;
    }
    table_find(v, v.len(), K::from_word(value), invalid)
}

/// Puts `value` into a heap form under the fixed sentinel, unless it is
/// there.  `Ok` gives the slot that took the new value, `Err` the slot
/// where the value already was.
pub fn fixed_insert<K: HasInvalid>(v: &mut [K], count: usize, value: u64) -> (r: Result<
    usize,
    usize,
>)
    requires
        fixed_ok::<K>(old(v)@, count as int),
        load_ok(count + 1, old(v)@.len() as int),
        value < K::spec_invalid(),
    ensures
        final(v)@.len() == old(v)@.len(),
        r.is_ok() == !live_set(slots(old(v)@, old(v)@.len() as int), K::spec_invalid()).contains(
            value,
        ),
        fixed_ok::<K>(
            final(v)@,
            if r.is_ok() {
                count + 1
            } else {
                count as int
            },
        ),
        r.is_ok() ==> count + 1 <= K::spec_invalid(),
        live_set(slots(final(v)@, final(v)@.len() as int), K::spec_invalid()) == live_set(
            slots(old(v)@, old(v)@.len() as int),
            K::spec_invalid(),
        ).insert(value),
        match r {
            Ok(i) => i < old(v)@.len() && final(v)@[i as int].spec_word() == value,
            Err(i) => i < old(v)@.len() && old(v)@[i as int].spec_word() == value && final(v)@
                == old(v)@,
        },
        r.is_ok() ==> slots(final(v)@, final(v)@.len() as int) == inserted::<K>(
            slots(old(v)@, old(v)@.len() as int),
            K::spec_invalid(),
            value,
        ),
{
    let n = v.len();
    proof {
        lemma_heap_has_empty::<K>(v@, n as int, K::spec_invalid(), count as int);
        lemma_live_set_finite(slots(v@, n as int), K::spec_invalid());
    }
    let r = table_insert(v, n, K::from_word(value), K::invalid());
    proof {
        lemma_fixed_count::<K>(v@, n as int);
    }
    r
}

/// Takes `value` out of a heap form under the fixed sentinel, and says
/// whether it was there.
pub fn fixed_remove<K: HasInvalid>(v: &mut [K], count: usize, value: u64) -> (r: bool)
    requires
        fixed_ok::<K>(old(v)@, count as int),
    ensures
        final(v)@.len() == old(v)@.len(),
        r == live_set(slots(old(v)@, old(v)@.len() as int), K::spec_invalid()).contains(value),
        !r ==> final(v)@ == old(v)@,
        r ==> count >= 1,
        fixed_ok::<K>(
            final(v)@,
            if r {
                count - 1
            } else {
                count as int
            },
        ),
        live_set(slots(final(v)@, final(v)@.len() as int), K::spec_invalid()) == live_set(
            slots(old(v)@, old(v)@.len() as int),
            K::spec_invalid(),
        ).remove(value),
        r ==> slots(final(v)@, final(v)@.len() as int) == removed::<K>(
            slots(old(v)@, old(v)@.len() as int),
            K::spec_invalid(),
            slots(old(v)@, old(v)@.len() as int).index_of(value),
        ),
{
    let n = v.len();
    let invalid = K::invalid();
    let ghost t = slots(v@, n as int);
    let ghost s = live_set(t, K::spec_invalid());
    proof {
        lemma_heap_has_empty::<K>(v@, n as int, K::spec_invalid(), count as int);
        lemma_live_set_finite(t, K::spec_invalid());
    }
    if value >= invalid.to_word() {
        proof {
            if t.contains(value) && value != K::spec_invalid() {
                let i = choose|i: int| 0 <= i < t.len() && t[i] == value;
                v@[i].lemma_word_range();
            }
            assert(s.remove(value) =~= s);
        }
        return false;
    }
    let r = table_remove(v, n, K::from_word(value), invalid);
    proof {
        if !r {
            assert(s.remove(value) =~= s);
        }
    }
    r
}

/// Looks `value` up in a heap form whose sentinel moves.
pub fn movable_find(v: &[u64], value: u64) -> (r: Option<usize>)
    requires
        movable_ok(v@, live_set(slots(v@, v@.len() - 1), v@[v@.len() - 1]).len() as int),
    ensures
        r.is_some() == live_set(slots(v@, v@.len() - 1), v@[v@.len() - 1]).contains(value),
        r matches Some(i) ==> i < v@.len() - 1 && v@[i as int] == value,
{
    let n = v.len() - 1;
    let invalid = v[n];
    proof {
        lemma_has_empty(slots(v@, n as int), invalid);
    }
    if value == invalid {
        return None;
    }
    table_find(v, n, value, invalid)
}

/// Puts `value` into a heap form whose sentinel moves, unless it is
/// there.  Where `value` is the sentinel of the moment, the table first
/// gets another sentinel.
pub fn movable_insert(v: &mut [u64], count: usize, value: u64) -> (r: Result<usize, usize>)
    requires
        movable_ok(old(v)@, count as int),
        load_ok(count + 1, old(v)@.len() - 1),
    ensures
        final(v)@.len() == old(v)@.len(),
        r.is_ok() == !live_set(slots(old(v)@, old(v)@.len() - 1), old(v)@[old(v)@.len() - 1]).contains(
            value,
        ),
        movable_ok(
            final(v)@,
            if r.is_ok() {
                count + 1
            } else {
                count as int
            },
        ),
        live_set(slots(final(v)@, final(v)@.len() - 1), final(v)@[final(v)@.len() - 1])
            == live_set(slots(old(v)@, old(v)@.len() - 1), old(v)@[old(v)@.len() - 1]).insert(
            value,
        ),
        moved_for(
            live_set(slots(old(v)@, old(v)@.len() - 1), old(v)@[old(v)@.len() - 1]),
            value,
            old(v)@[old(v)@.len() - 1],
            final(v)@[final(v)@.len() - 1],
        ),
        match r {
            Ok(i) => i < old(v)@.len() - 1 && final(v)@[i as int] == value,
            Err(i) => i < old(v)@.len() - 1 && old(v)@[i as int] == value && final(v)@ == old(v)@,
        },
        r.is_ok() ==> slots(final(v)@, final(v)@.len() - 1) == inserted::<u64>(
            resentineled(
                slots(old(v)@, old(v)@.len() - 1),
                old(v)@[old(v)@.len() - 1],
                final(v)@[final(v)@.len() - 1],
            ),
            final(v)@[final(v)@.len() - 1],
            value,
        ),
{
    let n = v.len() - 1;
    let mut invalid = v[n];
    proof {
        lemma_heap_has_empty::<u64>(v@, n as int, invalid, count as int);
        lemma_live_set_finite(slots(v@, n as int), invalid);
        assert(resentineled(slots(v@, n as int), invalid, invalid) =~= slots(v@, n as int));
    }
    if value == invalid {
        invalid = relocate_sentinel(v, n);
        proof {
            lemma_heap_has_empty::<u64>(v@, n as int, invalid, count as int);
            lemma_live_set_finite(slots(v@, n as int), invalid);
        }
    }
    let ghost mid = v@;
    let r = table_insert(v, n, value, invalid);
    proof {
        assert(v@[n as int] == mid[n as int]);
    }
    r
}

/// Takes `value` out of a heap form whose sentinel moves, and says
/// whether it was there.
pub fn movable_remove(v: &mut [u64], count: usize, value: u64) -> (r: bool)
    requires
        movable_ok(old(v)@, count as int),
    ensures
        final(v)@.len() == old(v)@.len(),
        final(v)@[final(v)@.len() - 1] == old(v)@[old(v)@.len() - 1],
        r == live_set(slots(old(v)@, old(v)@.len() - 1), old(v)@[old(v)@.len() - 1]).contains(value),
        !r ==> final(v)@ == old(v)@,
        r ==> count >= 1,
        movable_ok(
            final(v)@,
            if r {
                count - 1
            } else {
                count as int
            },
        ),
        live_set(slots(final(v)@, final(v)@.len() - 1), final(v)@[final(v)@.len() - 1])
            == live_set(slots(old(v)@, old(v)@.len() - 1), old(v)@[old(v)@.len() - 1]).remove(
            value,
        ),
        r ==> slots(final(v)@, final(v)@.len() - 1) == removed::<u64>(
            slots(old(v)@, old(v)@.len() - 1),
            old(v)@[old(v)@.len() - 1],
            slots(old(v)@, old(v)@.len() - 1).index_of(value),
        ),
{
    let n = v.len() - 1;
    let invalid = v[n];
    let ghost t = slots(v@, n as int);
    let ghost s = live_set(t, invalid);
    proof {
        lemma_heap_has_empty::<u64>(v@, n as int, invalid, count as int);
        lemma_live_set_finite(t, invalid);
    }
    if value == invalid {
        assert(s.remove(value) =~= s);
        return false;
    }
    let r = table_remove(v, n, value, invalid);
    proof {
        if !r {
            assert(s.remove(value) =~= s);
        }
    }
    r
}

/// The map of a heap form: from the word of each live slot to the
/// value beside it.
pub open spec fn heap_map<K: HasInvalid, V>(keys: Seq<K>, vals: Seq<V>, n: int, inv: u64) -> Map<
    u64,
    V,
> {
    table_map(slots(keys, n), vals.take(n), inv)
}

/// The map of a heap form under the fixed sentinel.
pub open spec fn fixed_map<K: HasInvalid, V>(keys: Seq<K>, vals: Seq<V>) -> Map<u64, V> {
    heap_map(keys, vals, keys.len() as int, K::spec_invalid())
}

/// The map of a heap form whose sentinel moves.
pub open spec fn movable_map<V>(keys: Seq<u64>, vals: Seq<V>) -> Map<u64, V> {
    heap_map(keys, vals, keys.len() - 1, keys[keys.len() - 1])
}

/// Looks `key` up in a heap form under the fixed sentinel and returns
/// the value beside it.
pub fn fixed_map_find<K: HasInvalid, V: Copy>(keys: &[K], vals: &[V], key: u64) -> (r: Option<V>)
    requires
        table_ok::<K>(slots(keys@, keys@.len() as int), K::spec_invalid()),
        slots(keys@, keys@.len() as int).contains(K::spec_invalid()),
        keys@.len() <= vals@.len(),
    ensures
        r == fixed_map(keys@, vals@).get(key),
{
    let invalid = K::invalid();
    let ghost t = slots(keys@, keys@.len() as int);
    if key >= invalid.to_word() {
        proof {
            if t.contains(key) && key != K::spec_invalid() {
                let i = choose|i: int| 0 <= i < t.len() && t[i] == key;
                keys@[i].lemma_word_range();
            }
        }
        return None;
    }
    map_find(keys, vals, keys.len(), K::from_word(key), invalid)
}

/// Maps `key` to `val` in a heap form under the fixed sentinel, and
/// returns the value that `key` was mapped to before, if any.
pub fn fixed_map_insert<K: HasInvalid, V: Copy>(
    keys: &mut [K],
    vals: &mut [V],
    count: usize,
    key: u64,
    val: V,
) -> (r: Option<V>)
    requires
        fixed_ok::<K>(old(keys)@, count as int),
        old(keys)@.len() <= old(vals)@.len(),
        load_ok(count + 1, old(keys)@.len() as int),
        key < K::spec_invalid(),
    ensures
        final(keys)@.len() == old(keys)@.len(),
        final(vals)@.len() == old(vals)@.len(),
        r == fixed_map(old(keys)@, old(vals)@).get(key),
        fixed_ok::<K>(
            final(keys)@,
            if r.is_none() {
                count + 1
            } else {
                count as int
            },
        ),
        r.is_none() ==> count + 1 <= K::spec_invalid(),
        fixed_map(final(keys)@, final(vals)@) == fixed_map(old(keys)@, old(vals)@).insert(key, val),
        slots(final(keys)@, final(keys)@.len() as int) == if r.is_none() {
            inserted::<K>(slots(old(keys)@, old(keys)@.len() as int), K::spec_invalid(), key)
        } else {
            slots(old(keys)@, old(keys)@.len() as int)
        },
{
    let n = keys.len();
    let ghost t = slots(keys@, n as int);
    let ghost u = vals@.take(n as int);
    proof {
        lemma_heap_has_empty::<K>(keys@, n as int, K::spec_invalid(), count as int);
        lemma_live_set_finite(t, K::spec_invalid());
        lemma_table_map_dom(t, u, K::spec_invalid());
    }
    let r = map_insert(keys, vals, n, K::from_word(key), val, K::invalid());
    proof {
        lemma_fixed_count::<K>(keys@, n as int);
        if r.is_some() {
            assert(live_set(t, K::spec_invalid()).insert(key) =~= live_set(t, K::spec_invalid()));
        }
    }
    r
}

/// Takes the entry of `key` out of a heap form under the fixed sentinel
/// if there is one, and returns its value.
pub fn fixed_map_remove<K: HasInvalid, V: Copy>(
    keys: &mut [K],
    vals: &mut [V],
    count: usize,
    key: u64,
) -> (r: Option<V>)
    requires
        fixed_ok::<K>(old(keys)@, count as int),
        old(keys)@.len() <= old(vals)@.len(),
    ensures
        final(keys)@.len() == old(keys)@.len(),
        final(vals)@.len() == old(vals)@.len(),
        r == fixed_map(old(keys)@, old(vals)@).get(key),
        r.is_some() ==> count >= 1,
        fixed_ok::<K>(
            final(keys)@,
            if r.is_some() {
                count - 1
            } else {
                count as int
            },
        ),
        fixed_map(final(keys)@, final(vals)@) == fixed_map(old(keys)@, old(vals)@).remove(key),
        slots(final(keys)@, final(keys)@.len() as int) == if r.is_some() {
            removed::<K>(
                slots(old(keys)@, old(keys)@.len() as int),
                K::spec_invalid(),
                slots(old(keys)@, old(keys)@.len() as int).index_of(key),
            )
        } else {
            slots(old(keys)@, old(keys)@.len() as int)
        },
{
    let n = keys.len();
    let invalid = K::invalid();
    let ghost t = slots(keys@, n as int);
    let ghost u = vals@.take(n as int);
    let ghost s = live_set(t, K::spec_invalid());
    proof {
        lemma_heap_has_empty::<K>(keys@, n as int, K::spec_invalid(), count as int);
        lemma_live_set_finite(t, K::spec_invalid());
        lemma_table_map_dom(t, u, K::spec_invalid());
    }
    if key >= invalid.to_word() {
        proof {
            if t.contains(key) && key != K::spec_invalid() {
                let i = choose|i: int| 0 <= i < t.len() && t[i] == key;
                keys@[i].lemma_word_range();
            }
            assert(fixed_map(keys@, vals@).remove(key) =~= fixed_map(keys@, vals@));
        }
        return None;
    }
    let r = map_remove(keys, vals, n, K::from_word(key), invalid);
    proof {
        if r.is_none() {
            assert(s.remove(key) =~= s);
        }
    }
    r
}

/// Looks `key` up in a heap form whose sentinel moves and returns the
/// value beside it.
pub fn movable_map_find<V: Copy>(keys: &[u64], vals: &[V], key: u64) -> (r: Option<V>)
    requires
        keys@.len() >= 2,
        table_ok::<u64>(slots(keys@, keys@.len() - 1), keys@[keys@.len() - 1]),
        slots(keys@, keys@.len() - 1).contains(keys@[keys@.len() - 1]),
        keys@.len() - 1 <= vals@.len(),
    ensures
        r == movable_map(keys@, vals@).get(key),
{
    let n = keys.len() - 1;
    let invalid = keys[n];
    if key == invalid {
        return None;
    }
    map_find(keys, vals, n, key, invalid)
}

/// Maps `key` to `val` in a heap form whose sentinel moves, and returns
/// the value that `key` was mapped to before, if any.  Where `key` is
/// the sentinel of the moment, the table first gets another sentinel.
pub fn movable_map_insert<V: Copy>(
    keys: &mut [u64],
    vals: &mut [V],
    count: usize,
    key: u64,
    val: V,
) -> (r: Option<V>)
    requires
        movable_ok(old(keys)@, count as int),
        old(keys)@.len() - 1 <= old(vals)@.len(),
        load_ok(count + 1, old(keys)@.len() - 1),
    ensures
        final(keys)@.len() == old(keys)@.len(),
        final(vals)@.len() == old(vals)@.len(),
        r == movable_map(old(keys)@, old(vals)@).get(key),
        movable_ok(
            final(keys)@,
            if r.is_none() {
                count + 1
            } else {
                count as int
            },
        ),
        movable_map(final(keys)@, final(vals)@) == movable_map(old(keys)@, old(vals)@).insert(
            key,
            val,
        ),
        moved_for(
            live_set(slots(old(keys)@, old(keys)@.len() - 1), old(keys)@[old(keys)@.len() - 1]),
            key,
            old(keys)@[old(keys)@.len() - 1],
            final(keys)@[final(keys)@.len() - 1],
        ),
        slots(final(keys)@, final(keys)@.len() - 1) == if r.is_none() {
            inserted::<u64>(
                resentineled(
                    slots(old(keys)@, old(keys)@.len() - 1),
                    old(keys)@[old(keys)@.len() - 1],
                    final(keys)@[final(keys)@.len() - 1],
                ),
                final(keys)@[final(keys)@.len() - 1],
                key,
            )
        } else {
            slots(old(keys)@, old(keys)@.len() - 1)
        },
{
    let n = keys.len() - 1;
    let mut invalid = keys[n];
    let ghost t = slots(keys@, n as int);
    let ghost u = vals@.take(n as int);
    proof {
        assert(resentineled(t, invalid, invalid) =~= t);
        lemma_heap_has_empty::<u64>(keys@, n as int, invalid, count as int);
        lemma_live_set_finite(t, invalid);
        lemma_table_map_dom(t, u, invalid);
    }
    if key == invalid {
        let ghost stale = invalid;
        invalid = relocate_sentinel(keys, n);
        proof {
            lemma_resentinel::<u64, V>(t, u, stale, invalid);
            lemma_heap_has_empty::<u64>(keys@, n as int, invalid, count as int);
            lemma_live_set_finite(slots(keys@, n as int), invalid);
        }
    }
    let ghost mid = keys@;
    proof {
        lemma_table_map_dom(slots(mid, n as int), u, invalid);
    }
    let r = map_insert(keys, vals, n, key, val, invalid);
    proof {
        assert(keys@[n as int] == mid[n as int]);
        if r.is_some() {
            assert(live_set(slots(mid, n as int), invalid).insert(key) =~= live_set(
                slots(mid, n as int),
                invalid,
            ));
        }
    }
    r
}

/// Takes the entry of `key` out of a heap form whose sentinel moves if
/// there is one, and returns its value.
pub fn movable_map_remove<V: Copy>(keys: &mut [u64], vals: &mut [V], count: usize, key: u64) -> (r:
    Option<V>)
    requires
        movable_ok(old(keys)@, count as int),
        old(keys)@.len() - 1 <= old(vals)@.len(),
    ensures
        final(keys)@.len() == old(keys)@.len(),
        final(vals)@.len() == old(vals)@.len(),
        final(keys)@[final(keys)@.len() - 1] == old(keys)@[old(keys)@.len() - 1],
        r == movable_map(old(keys)@, old(vals)@).get(key),
        r.is_some() ==> count >= 1,
        movable_ok(
            final(keys)@,
            if r.is_some() {
                count - 1
            } else {
                count as int
            },
        ),
        movable_map(final(keys)@, final(vals)@) == movable_map(old(keys)@, old(vals)@).remove(key),
        slots(final(keys)@, final(keys)@.len() - 1) == if r.is_some() {
            removed::<u64>(
                slots(old(keys)@, old(keys)@.len() - 1),
                old(keys)@[old(keys)@.len() - 1],
                slots(old(keys)@, old(keys)@.len() - 1).index_of(key),
            )
        } else {
            slots(old(keys)@, old(keys)@.len() - 1)
        },
{
    let n = keys.len() - 1;
    let invalid = keys[n];
    let ghost t = slots(keys@, n as int);
    let ghost u = vals@.take(n as int);
    let ghost s = live_set(t, invalid);
    proof {
        lemma_heap_has_empty::<u64>(keys@, n as int, invalid, count as int);
        lemma_live_set_finite(t, invalid);
        lemma_table_map_dom(t, u, invalid);
    }
    if key == invalid {
        assert(movable_map(keys@, vals@).remove(key) =~= movable_map(keys@, vals@));
        return None;
    }
    let r = map_remove(keys, vals, n, key, invalid);
    proof {
        if r.is_none() {
            assert(s.remove(key) =~= s);
        }
    }
    r
}

/// An empty table of `n` slots under the fixed sentinel of its width.
pub fn empty_fixed<K: HasInvalid>(n: usize) -> (b: Box<[K]>)
    requires
        1 <= n <= 0x8000_0000,
        is_pow2(n as int),
    ensures
        b@.len() == n,
        fixed_ok::<K>(b@, 0),
        live_set(slots(b@, n as int), K::spec_invalid()) == Set::<u64>::empty(),
{
    let b = filled(K::invalid(), n);
    proof {
        let t = slots(b@, n as int);
        lemma_empty_table::<K, u64>(t, t, K::spec_invalid());
    }
    b
}

/// An empty table of `n` slots of 64 bits under the sentinel `invalid`,
/// with the cell behind them that keeps the sentinel.
pub fn empty_movable(n: usize, invalid: u64) -> (b: Box<[u64]>)
    requires
        1 <= n <= 0x8000_0000,
        is_pow2(n as int),
    ensures
        b@.len() == n + 1,
        movable_ok(b@, 0),
        b@[n as int] == invalid,
        live_set(slots(b@, n as int), invalid) == Set::<u64>::empty(),
{
    let b = filled(invalid, n + 1);
    proof {
        let t = slots(b@, n as int);
        lemma_empty_table::<u64, u64>(t, t, invalid);
    }
    b
}

} // verus!
