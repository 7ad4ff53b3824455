//! The forms of a map: the forms of a set, each with an array of values
//! beside its array of keys.  A value stands beside its key, in the
//! cell of the same index.

use crate::capacity::load_ok;
use crate::heap::{
    fixed_map, fixed_map_find, fixed_map_insert, fixed_map_remove, fixed_ok, lemma_heap_has_empty,
    movable_map, movable_map_find, movable_map_insert, movable_map_remove, movable_ok,
};
use crate::model::{
    inserted, live_set, moved_for, removed, resentineled, slots, swap_removed, table_map,
};
use crate::slot::HasInvalid;
use crate::small::{small_map, small_map_find, small_map_insert, small_map_remove, small_ok};
use vstd::prelude::*;

verus! {

/// The map from the word of each live key among the first `n` to the
/// word of the value beside it.
pub open spec fn entries<K: HasInvalid, V: HasInvalid>(
    keys: Seq<K>,
    vals: Seq<V>,
    n: int,
    inv: u64,
) -> Map<u64, u64> {
    table_map(slots(keys, n), slots(vals, n), inv)
}

/// The map to the words of the values is the map to the values, with
/// each value taken as its word.
pub proof fn lemma_entries<K: HasInvalid, V: HasInvalid>(
    keys: Seq<K>,
    vals: Seq<V>,
    n: int,
    inv: u64,
)
    requires
        0 <= n <= vals.len(),
    ensures
        entries(keys, vals, n, inv) == table_map(slots(keys, n), vals.take(n), inv).map_values(
            |v: V| v.spec_word(),
        ),
{
    assert(entries(keys, vals, n, inv) =~= table_map(
        slots(keys, n),
        vals.take(n),
        inv,
    ).map_values(|v: V| v.spec_word())) by {
        let t = slots(keys, n);
        assert forall|w: u64| w != inv && t.contains(w) implies 0 <= t.index_of(w) < n by {
            let i = choose|i: int| 0 <= i < t.len() && t[i] == w;
        }
    }
}

/// Taking each value of a map as its word goes along with mapping a key
/// to a value, with removing a key, and with looking a key up.
pub proof fn lemma_as_words<V: HasInvalid>(m: Map<u64, V>, key: u64, val: V)
    ensures
        m.insert(key, val).map_values(|v: V| v.spec_word()) == m.map_values(
            |v: V| v.spec_word(),
        ).insert(key, val.spec_word()),
        m.remove(key).map_values(|v: V| v.spec_word()) == m.map_values(
            |v: V| v.spec_word(),
        ).remove(key),
        m.map_values(|v: V| v.spec_word()).get(key) == match m.get(key) {
            Some(v) => Some(v.spec_word()),
            None => None,
        },
{
    let f = |v: V| v.spec_word();
    assert(m.insert(key, val).map_values(f) =~= m.map_values(f).insert(key, val.spec_word()));
    assert(m.remove(key).map_values(f) =~= m.map_values(f).remove(key));
}

/// The word of the value that a lookup gave.
fn as_word<V: HasInvalid>(found: Option<V>) -> (r: Option<u64>)
    ensures
        r == match found {
            Some(v) => Some(v.spec_word()),
            None => None,
        },
{
    match found {
        Some(v) => Some(v.to_word()),
        None => None,
    }
}

/// Looks `key` up in an inline form.
pub fn inline_get<K: HasInvalid, V: HasInvalid>(keys: &[K], vals: &[V], count: usize, key: u64) -> (r:
    Option<u64>)
    requires
        small_ok::<K>(keys@, count as int),
        count <= vals@.len(),
    ensures
        r == entries(keys@, vals@, count as int, K::spec_invalid()).get(key),
{
    proof {
        lemma_entries(keys@, vals@, count as int, K::spec_invalid());
        lemma_as_words(small_map(keys@, vals@, count as int), key, vals@[0]);
    }
    as_word(small_map_find(keys, vals, count, key))
}

/// Maps `key` to `val` in an inline form, and returns the value that
/// `key` was mapped to before, if any.
pub fn inline_put<K: HasInvalid, V: HasInvalid>(
    keys: &mut [K],
    vals: &mut [V],
    count: usize,
    key: u64,
    val: u64,
) -> (r: Option<u64>)
    requires
        small_ok::<K>(old(keys)@, count as int),
        key < K::spec_invalid(),
        val <= V::spec_invalid(),
        count < old(keys)@.len(),
        count < old(vals)@.len(),
    ensures
        final(keys)@.len() == old(keys)@.len(),
        final(vals)@.len() == old(vals)@.len(),
        r == entries(old(keys)@, old(vals)@, count as int, K::spec_invalid()).get(key),
        small_ok::<K>(
            final(keys)@,
            if r.is_none() {
                count + 1
            } else {
                count as int
            },
        ),
        entries(
            final(keys)@,
            final(vals)@,
            if r.is_none() {
                count + 1
            } else {
                count as int
            },
            K::spec_invalid(),
        ) == entries(old(keys)@, old(vals)@, count as int, K::spec_invalid()).insert(key, val),
        r.is_none() ==> slots(final(keys)@, count + 1) == slots(old(keys)@, count as int).push(key),
        r.is_some() ==> final(keys)@ == old(keys)@,
{
    let v = V::from_word(val);
    proof {
        lemma_entries(keys@, vals@, count as int, K::spec_invalid());
        lemma_as_words(small_map(keys@, vals@, count as int), key, v);
    }
    let r = small_map_insert(keys, vals, count, key, v);
    proof {
        lemma_entries(keys@, vals@, count as int, K::spec_invalid());
        lemma_entries(keys@, vals@, count + 1, K::spec_invalid());
    }
    as_word(r)
}

/// Takes the entry of `key` out of an inline form if there is one, and
/// returns its value.
pub fn inline_take<K: HasInvalid, V: HasInvalid>(
    keys: &mut [K],
    vals: &mut [V],
    count: usize,
    key: u64,
) -> (r: Option<u64>)
    requires
        small_ok::<K>(old(keys)@, count as int),
        count <= old(vals)@.len(),
    ensures
        final(keys)@.len() == old(keys)@.len(),
        final(vals)@.len() == old(vals)@.len(),
        r == entries(old(keys)@, old(vals)@, count as int, K::spec_invalid()).get(key),
        r.is_some() ==> count >= 1,
        small_ok::<K>(
            final(keys)@,
            if r.is_some() {
                count - 1
            } else {
                count as int
            },
        ),
        entries(
            final(keys)@,
            final(vals)@,
            if r.is_some() {
                count - 1
            } else {
                count as int
            },
            K::spec_invalid(),
        ) == entries(old(keys)@, old(vals)@, count as int, K::spec_invalid()).remove(key),
        r.is_some() ==> slots(final(keys)@, count - 1) == swap_removed(
            slots(old(keys)@, count as int),
            slots(old(keys)@, count as int).index_of(key),
        ),
        r.is_none() ==> final(keys)@ == old(keys)@,
{
    proof {
        lemma_entries(keys@, vals@, count as int, K::spec_invalid());
        lemma_as_words(small_map(keys@, vals@, count as int), key, vals@[0]);
    }
    let r = small_map_remove(keys, vals, count, key);
    proof {
        lemma_entries(keys@, vals@, count as int, K::spec_invalid());
        if count >= 1 {
            lemma_entries(keys@, vals@, count - 1, K::spec_invalid());
        }
    }
    as_word(r)
}

/// Looks `key` up in a heap form under the fixed sentinel.
pub fn fixed_get<K: HasInvalid, V: HasInvalid>(keys: &[K], vals: &[V], count: usize, key: u64) -> (r:
    Option<u64>)
    requires
        fixed_ok::<K>(keys@, count as int),
        keys@.len() == vals@.len(),
    ensures
        r == entries(keys@, vals@, keys@.len() as int, K::spec_invalid()).get(key),
{
    proof {
        lemma_entries(keys@, vals@, keys@.len() as int, K::spec_invalid());
        lemma_as_words(fixed_map(keys@, vals@), key, vals@[0]);
        lemma_heap_has_empty::<K>(keys@, keys@.len() as int, K::spec_invalid(), count as int);
    }
    as_word(fixed_map_find(keys, vals, key))
}

/// Maps `key` to `val` in a heap form under the fixed sentinel, and
/// returns the value that `key` was mapped to before, if any.
pub fn fixed_put<K: HasInvalid, V: HasInvalid>(
    keys: &mut [K],
    vals: &mut [V],
    count: usize,
    key: u64,
    val: u64,
) -> (r: Option<u64>)
    requires
        fixed_ok::<K>(old(keys)@, count as int),
        old(keys)@.len() == old(vals)@.len(),
        load_ok(count + 1, old(keys)@.len() as int),
        key < K::spec_invalid(),
        val <= V::spec_invalid(),
    ensures
        final(keys)@.len() == old(keys)@.len(),
        final(vals)@.len() == old(vals)@.len(),
        r == entries(old(keys)@, old(vals)@, old(keys)@.len() as int, K::spec_invalid()).get(key),
        fixed_ok::<K>(
            final(keys)@,
            if r.is_none() {
                count + 1
            } else {
                count as int
            },
        ),
        r.is_none() ==> count + 1 <= K::spec_invalid(),
        entries(final(keys)@, final(vals)@, final(keys)@.len() as int, K::spec_invalid())
            == entries(old(keys)@, old(vals)@, old(keys)@.len() as int, K::spec_invalid()).insert(
            key,
            val,
        ),
        slots(final(keys)@, final(keys)@.len() as int) == if r.is_none() {
            inserted::<K>(slots(old(keys)@, old(keys)@.len() as int), K::spec_invalid(), key)
        } else {
            slots(old(keys)@, old(keys)@.len() as int)
        },
{
    let v = V::from_word(val);
    proof {
        lemma_entries(keys@, vals@, keys@.len() as int, K::spec_invalid());
        lemma_as_words(fixed_map(keys@, vals@), key, v);
    }
    let r = fixed_map_insert(keys, vals, count, key, v);
    proof {
        lemma_entries(keys@, vals@, keys@.len() as int, K::spec_invalid());
    }
    as_word(r)
}

/// Takes the entry of `key` out of a heap form under the fixed sentinel
/// if there is one, and returns its value.
pub fn fixed_take<K: HasInvalid, V: HasInvalid>(
    keys: &mut [K],
    vals: &mut [V],
    count: usize,
    key: u64,
) -> (r: Option<u64>)
    requires
        fixed_ok::<K>(old(keys)@, count as int),
        old(keys)@.len() == old(vals)@.len(),
    ensures
        final(keys)@.len() == old(keys)@.len(),
        final(vals)@.len() == old(vals)@.len(),
        r == entries(old(keys)@, old(vals)@, old(keys)@.len() as int, K::spec_invalid()).get(key),
        r.is_some() ==> count >= 1,
        fixed_ok::<K>(
            final(keys)@,
            if r.is_some() {
                count - 1
            } else {
                count as int
            },
        ),
        entries(final(keys)@, final(vals)@, final(keys)@.len() as int, K::spec_invalid())
            == entries(old(keys)@, old(vals)@, old(keys)@.len() as int, K::spec_invalid()).remove(
            key,
        ),
        slots(final(keys)@, final(keys)@.len() as int) == if r.is_some() {
            removed::<K>(
                slots(old(keys)@, old(keys)@.len() as int),
                K::spec_invalid(),
                slots(old(keys)@, old(keys)@.len() as int).index_of(key),
            )
        } else {
            slots(old(keys)@, old(keys)@.len() as int)
        },
{
    proof {
        lemma_entries(keys@, vals@, keys@.len() as int, K::spec_invalid());
        lemma_as_words(fixed_map(keys@, vals@), key, vals@[0]);
    }
    let r = fixed_map_remove(keys, vals, count, key);
    proof {
        lemma_entries(keys@, vals@, keys@.len() as int, K::spec_invalid());
    }
    as_word(r)
}

/// Looks `key` up in a heap form whose sentinel moves.
pub fn movable_get(keys: &[u64], vals: &[u64], count: usize, key: u64) -> (r: Option<u64>)
    requires
        movable_ok(keys@, count as int),
        keys@.len() - 1 == vals@.len(),
    ensures
        r == entries(keys@, vals@, keys@.len() - 1, keys@[keys@.len() - 1]).get(key),
{
    proof {
        lemma_entries(keys@, vals@, keys@.len() - 1, keys@[keys@.len() - 1]);
        lemma_as_words(movable_map(keys@, vals@), key, vals@[0]);
        lemma_heap_has_empty::<u64>(keys@, keys@.len() - 1, keys@[keys@.len() - 1], count as int);
    }
    as_word(movable_map_find(keys, vals, key))
}

/// Maps `key` to `val` in a heap form whose sentinel moves, and returns
/// the value that `key` was mapped to before, if any.
pub fn movable_put(keys: &mut [u64], vals: &mut [u64], count: usize, key: u64, val: u64) -> (r:
    Option<u64>)
    requires
        movable_ok(old(keys)@, count as int),
        old(keys)@.len() - 1 == old(vals)@.len(),
        load_ok(count + 1, old(keys)@.len() - 1),
    ensures
        final(keys)@.len() == old(keys)@.len(),
        final(vals)@.len() == old(vals)@.len(),
        r == entries(old(keys)@, old(vals)@, old(keys)@.len() - 1, old(keys)@[old(keys)@.len() - 1]).get(
            key,
        ),
        movable_ok(
            final(keys)@,
            if r.is_none() {
                count + 1
            } else {
                count as int
            },
        ),
        entries(
            final(keys)@,
            final(vals)@,
            final(keys)@.len() - 1,
            final(keys)@[final(keys)@.len() - 1],
        ) == entries(
            old(keys)@,
            old(vals)@,
            old(keys)@.len() - 1,
            old(keys)@[old(keys)@.len() - 1],
        ).insert(key, val),
        moved_for(
            live_set(slots(old(keys)@, old(keys)@.len() - 1), old(keys)@[old(keys)@.len() - 1]),
            key,
            old(keys)@[old(keys)@.len() - 1],
            final(keys)@[final(keys)@.len() - 1],
        ),
        slots(final(keys)@, final(keys)@.len() - 1) == if r.is_none() {
            inserted::<u64>(
                resentineled(
                    slots(old(keys)@, old(keys)@.len() - 1),
                    old(keys)@[old(keys)@.len() - 1],
                    final(keys)@[final(keys)@.len() - 1],
                ),
                final(keys)@[final(keys)@.len() - 1],
                key,
            )
        } else {
            slots(old(keys)@, old(keys)@.len() - 1)
        },
{
    proof {
        lemma_entries(keys@, vals@, keys@.len() - 1, keys@[keys@.len() - 1]);
        lemma_as_words(movable_map(keys@, vals@), key, val);
    }
    let r = movable_map_insert(keys, vals, count, key, val);
    proof {
        lemma_entries(keys@, vals@, keys@.len() - 1, keys@[keys@.len() - 1]);
    }
    as_word(r)
}

/// Takes the entry of `key` out of a heap form whose sentinel moves if
/// there is one, and returns its value.
pub fn movable_take(keys: &mut [u64], vals: &mut [u64], count: usize, key: u64) -> (r: Option<u64>)
    requires
        movable_ok(old(keys)@, count as int),
        old(keys)@.len() - 1 == old(vals)@.len(),
    ensures
        final(keys)@.len() == old(keys)@.len(),
        final(vals)@.len() == old(vals)@.len(),
        final(keys)@[final(keys)@.len() - 1] == old(keys)@[old(keys)@.len() - 1],
        r == entries(old(keys)@, old(vals)@, old(keys)@.len() - 1, old(keys)@[old(keys)@.len() - 1]).get(
            key,
        ),
        r.is_some() ==> count >= 1,
        movable_ok(
            final(keys)@,
            if r.is_some() {
                count - 1
            } else {
                count as int
            },
        ),
        entries(
            final(keys)@,
            final(vals)@,
            final(keys)@.len() - 1,
            final(keys)@[final(keys)@.len() - 1],
        ) == entries(
            old(keys)@,
            old(vals)@,
            old(keys)@.len() - 1,
            old(keys)@[old(keys)@.len() - 1],
        ).remove(key),
        slots(final(keys)@, final(keys)@.len() - 1) == if r.is_some() {
            removed::<u64>(
                slots(old(keys)@, old(keys)@.len() - 1),
                old(keys)@[old(keys)@.len() - 1],
                slots(old(keys)@, old(keys)@.len() - 1).index_of(key),
            )
        } else {
            slots(old(keys)@, old(keys)@.len() - 1)
        },
{
    proof {
        lemma_entries(keys@, vals@, keys@.len() - 1, keys@[keys@.len() - 1]);
        lemma_as_words(movable_map(keys@, vals@), key, vals@[0]);
    }
    let r = movable_map_remove(keys, vals, count, key);
    proof {
        lemma_entries(keys@, vals@, keys@.len() - 1, keys@[keys@.len() - 1]);
    }
    as_word(r)
}

} // verus!
