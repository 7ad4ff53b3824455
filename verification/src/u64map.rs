//! A map from 64-bit words to 64-bit words that is compact in size.

use crate::capacity::{is_pow2, MAX_LEN};
use crate::mapdata::MapData;
use crate::model::{
    distinct, lemma_live_all, lemma_table_map_at, live_from, live_set, moved_for, table_map,
};
use crate::shape::{
    cells_with, cells_with_room, cells_without, empty_cells, has_room, kept_sentinel, map_admits,
    map_made_for, map_made_for_capacity, map_reserved, robin_hood_at, sentinel_of, Shape,
};
use vstd::prelude::*;

verus! {

/// A map of u64 elements to small integers.
///
/// The map takes one of eight forms, by the largest key and value and
/// the number of entries that it was made or has grown for.  The keys
/// are kept as the elements of a set are; the value of a key stands
/// beside it, in an array of its own.
#[derive(Debug)]
pub struct U64Map {
    m: MapData,
}

impl View for U64Map {
    type V = Map<u64, u64>;

    /// The entries: each key in a cell, but for the sentinel, with the
    /// value beside it.
    open spec fn view(&self) -> Map<u64, u64> {
        table_map(self.cells(), self.values(), self.sentinel())
    }
}

impl U64Map {
    /// The form that the map has.
    pub closed spec fn shape(&self) -> Shape {
        self.m.shape()
    }

    /// The keys in the cells: for an inline form those of the cells in
    /// use, for a heap form those of the slots of the table.
    pub closed spec fn cells(&self) -> Seq<u64> {
        self.m.cells()
    }

    /// The values beside the keys.
    pub closed spec fn values(&self) -> Seq<u64> {
        self.m.values()
    }

    /// The word that marks an empty slot.
    pub closed spec fn sentinel(&self) -> u64 {
        self.m.sentinel()
    }

    /// The invariant of the map: its keys are kept as the elements of a
    /// set are, there is a value beside each key, and the form admits
    /// every entry.
    #[verifier::type_invariant]
    pub closed spec fn wf(&self) -> bool {
        self.m.wf()
    }

    /// What the invariant says of the model: the keys are the live
    /// cells, finitely many and each in one cell, there is a value
    /// beside each cell, the form admits every entry, and the entries
    /// are within the room of the form.
    pub proof fn lemma_wf(&self)
        requires
            self.wf(),
        ensures
            self@.dom() == live_set(self.cells(), self.sentinel()),
            self@.dom().finite(),
            self.cells().len() == self.values().len(),
            forall|k: u64|
                self@.dom().contains(k) ==> map_admits(self.shape(), k, #[trigger] self@[k]),
            has_room(self.shape(), self@.len() as int, 0),
            !(self.shape().kind is Inline) ==> self.cells().len() == self.shape().slots && is_pow2(
                self.shape().slots as int,
            ),
            distinct(self.cells(), self.sentinel()),
    {
        self.m.lemma_wf();
    }

    /// In every heap form the table of the keys has the Robin-Hood
    /// ordering: on the probe path from the home of a live slot to that
    /// slot, every slot is live and holds a key at least as far from its
    /// own home as the path has come.
    pub proof fn lemma_robin_hood(&self)
        requires
            self.wf(),
            !(self.shape().kind is Inline),
        ensures
            robin_hood_at(self.shape().width, self.cells(), self.sentinel()),
    {
        self.m.lemma_robin_hood();
    }

    /// Takes the storage out of the map, so that it can be changed step
    /// by step, and leaves an empty form in its place until the changed
    /// storage is put back.
    fn take(&mut self) -> (data: MapData)
        ensures
            data == old(self).m,
    {
        let mut data = MapData::with_capacity(0);
        core::mem::swap(&mut self.m, &mut data);
        data
    }

    /// Creates an empty map with the specified capacity.
    pub fn with_capacity(cap: usize) -> (m: U64Map)
        requires
            cap <= MAX_LEN,
        ensures
            m@ == Map::<u64, u64>::empty(),
            map_made_for_capacity(cap as int, m.shape()),
            m.sentinel() == sentinel_of(m.shape().width),
            m.cells() == empty_cells(m.shape(), m.sentinel()),
    {
        let m = MapData::with_capacity(cap);
        proof {
            m.lemma_empty_cells();
        }
        U64Map { m }
    }

    /// Creates an empty map with the specified capacity, for keys up to
    /// `max_k` and values up to `max_v`.
    pub fn with_maxes_cap(max_k: u64, max_v: u64, cap: usize) -> (m: U64Map)
        requires
            cap <= MAX_LEN,
        ensures
            m@ == Map::<u64, u64>::empty(),
            map_made_for(max_k, max_v, cap as int, m.shape()),
            m.sentinel() == sentinel_of(m.shape().width),
            m.cells() == empty_cells(m.shape(), m.sentinel()),
    {
        let m = MapData::with_maxes_cap(max_k, max_v, cap);
        proof {
            m.lemma_empty_cells();
        }
        U64Map { m }
    }

    /// Maps `k` to `v` in a map that admits them and has room for them,
    /// and returns the value that `k` was mapped to before, if any.
    pub fn insert_unchecked(&mut self, k: u64, v: u64) -> (r: Option<u64>)
        requires
            map_admits(old(self).shape(), k, v),
            has_room(old(self).shape(), old(self)@.len() as int, 1),
        ensures
            final(self).shape() == old(self).shape(),
            final(self)@ == old(self)@.insert(k, v),
            r == old(self)@.get(k),
            moved_for(old(self)@.dom(), k, old(self).sentinel(), final(self).sentinel()),
            final(self).cells() == if r.is_none() {
                cells_with(
                    old(self).shape(),
                    old(self).cells(),
                    old(self).sentinel(),
                    final(self).sentinel(),
                    k,
                )
            } else {
                old(self).cells()
            },
    {
        proof {
            use_type_invariant(&*self);
            self.m.lemma_wf();
        }
        let mut data = self.take();
        let r = data.insert_unchecked(k, v);
        self.m = data;
        r
    }

    /// Reserves capacity for at least `additional` more entries to be
    /// inserted in the map, with keys up to `max_k` and values up to
    /// `max_v`.  The map takes a wider or larger form where the one it
    /// has does not admit them or lacks the room, and keeps its entries.
    pub fn reserve_with_maxes(&mut self, max_k: u64, max_v: u64, additional: usize)
        requires
            old(self)@.len() + additional <= MAX_LEN,
        ensures
            final(self)@ == old(self)@,
            map_reserved(
                old(self).shape(),
                old(self)@.len() as int,
                max_k,
                max_v,
                additional as int,
                final(self).shape(),
            ),
            map_admits(final(self).shape(), max_k, max_v),
            has_room(final(self).shape(), final(self)@.len() as int, additional as int),
            final(self).sentinel() == kept_sentinel(
                old(self).shape(),
                old(self).sentinel(),
                final(self).shape(),
            ),
            final(self).cells() == cells_with_room(
                old(self).shape(),
                old(self).cells(),
                old(self).sentinel(),
                final(self).shape(),
                final(self).sentinel(),
            ),
    {
        proof {
            use_type_invariant(&*self);
            self.m.lemma_wf();
        }
        let mut data = self.take();
        data.reserve_with_maxes(max_k, max_v, additional);
        proof {
            data.lemma_wf();
        }
        self.m = data;
    }

    /// Maps `k` to `v`, and returns the value that `k` was mapped to
    /// before, if any.
    pub fn insert(&mut self, k: u64, v: u64) -> (r: Option<u64>)
        requires
            old(self)@.len() < MAX_LEN,
        ensures
            final(self)@ == old(self)@.insert(k, v),
            r == old(self)@.get(k),
            map_reserved(old(self).shape(), old(self)@.len() as int, k, v, 1, final(self).shape()),
            moved_for(
                old(self)@.dom(),
                k,
                kept_sentinel(old(self).shape(), old(self).sentinel(), final(self).shape()),
                final(self).sentinel(),
            ),
            final(self).cells() == {
                let stale = kept_sentinel(
                    old(self).shape(),
                    old(self).sentinel(),
                    final(self).shape(),
                );
                let room = cells_with_room(
                    old(self).shape(),
                    old(self).cells(),
                    old(self).sentinel(),
                    final(self).shape(),
                    stale,
                );
                if r.is_none() {
                    cells_with(final(self).shape(), room, stale, final(self).sentinel(), k)
                } else {
                    room
                }
            },
    {
        proof {
            use_type_invariant(&*self);
            self.m.lemma_wf();
        }
        let mut data = self.take();
        let r = data.insert(k, v);
        self.m = data;
        r
    }

    /// Returns the word that marks an empty slot.
    pub fn invalid(&self) -> (inv: u64)
        ensures
            inv == self.sentinel(),
    {
        proof {
            use_type_invariant(self);
        }
        self.m.invalid()
    }

    /// Returns the value that `k` is mapped to, if any.
    pub fn get(&self, k: u64) -> (r: Option<u64>)
        ensures
            r == self@.get(k),
    {
        proof {
            use_type_invariant(self);
        }
        self.m.get(k)
    }

    /// Takes the entry of `k` out of the map if there is one, and
    /// returns its value.
    pub fn remove(&mut self, k: u64) -> (r: Option<u64>)
        ensures
            final(self).shape() == old(self).shape(),
            final(self).sentinel() == old(self).sentinel(),
            final(self)@ == old(self)@.remove(k),
            r == old(self)@.get(k),
            final(self).cells() == if r.is_some() {
                cells_without(old(self).shape(), old(self).cells(), old(self).sentinel(), k)
            } else {
                old(self).cells()
            },
    {
        proof {
            use_type_invariant(&*self);
        }
        let mut data = self.take();
        let r = data.remove(k);
        self.m = data;
        r
    }

    /// Returns the number of entries in the map.
    pub fn len(&self) -> (n: usize)
        ensures
            n == self@.len(),
    {
        proof {
            use_type_invariant(self);
        }
        self.m.len()
    }

    /// Iterate over tuples: the iterator gives every key once, with its
    /// value.
    pub fn iter(&self) -> (it: U64MapIter<'_>)
        ensures
            it.map() == self@,
            it.remaining().no_duplicates(),
            it.remaining().to_set() == self@.dom(),
            it.remaining().len() == self@.len(),
    {
        proof {
            use_type_invariant(self);
            self.m.lemma_wf();
            lemma_live_all(self.cells(), self.sentinel());
        }
        U64MapIter { m: self, which: 0, nleft: self.len() }
    }
}

impl Clone for U64Map {
    /// A map of the same form with the same cells.
    fn clone(&self) -> (m: Self)
        ensures
            m.shape() == self.shape(),
            m@ == self@,
    {
        proof {
            use_type_invariant(self);
        }
        U64Map { m: self.m.duplicate() }
    }
}

/// Iterator for u64map
pub struct U64MapIter<'a> {
    m: &'a U64Map,
    which: usize,
    nleft: usize,
}

impl<'a> U64MapIter<'a> {
    /// The map that the iterator walks over.
    pub closed spec fn map(&self) -> Map<u64, u64> {
        self.m@
    }

    /// The keys still to come, in the order in which they come.
    pub closed spec fn remaining(&self) -> Seq<u64> {
        live_from(self.m.cells(), self.m.sentinel(), self.which as int)
    }

    /// The invariant of the iterator: it stands at a cell or behind the
    /// last one, and counts the entries still to come.
    #[verifier::type_invariant]
    pub closed spec fn wf(&self) -> bool {
        &&& self.m.wf()
        &&& self.which <= self.m.cells().len()
        &&& self.nleft == self.remaining().len()
    }

    /// Returns the next key with its value, if one is left.
    pub fn next(&mut self) -> (r: Option<(u64, u64)>)
        ensures
            final(self).map() == old(self).map(),
            match r {
                None => {
                    &&& old(self).remaining().len() == 0
                    &&& final(self).remaining() == old(self).remaining()
                },
                Some((k, v)) => {
                    &&& old(self).remaining().len() > 0
                    &&& k == old(self).remaining()[0]
                    &&& old(self).map().dom().contains(k)
                    &&& old(self).map()[k] == v
                    &&& final(self).remaining() == old(self).remaining().skip(1)
                },
            },
    {
        proof {
            use_type_invariant(&*self);
        }
        if self.nleft == 0 {
            return None;
        }
        let map = self.m;
        let left = self.nleft - 1;
        let ghost cells = map.cells();
        let ghost inv = map.sentinel();
        let ghost start = self.which as int;
        let mut at = self.which;
        proof {
            map.m.lemma_wf();
        }
        loop
            invariant
                map.wf(),
                map == old(self).m,
                cells == map.cells(),
                inv == map.sentinel(),
                start <= at <= cells.len(),
                start == old(self).which,
                left + 1 == old(self).nleft,
                old(self).nleft == live_from(cells, inv, start).len(),
                live_from(cells, inv, at as int) == live_from(cells, inv, start),
                live_from(cells, inv, start).len() > 0,
            decreases cells.len() - at,
        {
            proof {
                map.m.lemma_wf();
            }
            let found = map.m.entry(at);
            at = at + 1;
            match found {
                Some(pair) => {
                    proof {
                        let rest = live_from(cells, inv, at as int);
                        assert(live_from(cells, inv, at - 1) == seq![pair.0] + rest);
                        assert((seq![pair.0] + rest).skip(1) =~= rest);
                        lemma_table_map_at(cells, map.values(), inv, at - 1);
                    }
                    *self = U64MapIter { m: map, which: at, nleft: left };
                    return Some(pair);
                },
                None => {},
            }
        }
    }

    /// Returns the number of entries still to come, as the lower and the
    /// upper bound.
    pub fn size_hint(&self) -> (r: (usize, Option<usize>))
        ensures
            r.0 == self.remaining().len(),
            r.1 == Some(r.0),
    {
        proof {
            use_type_invariant(self);
        }
        (self.nleft, Some(self.nleft))
    }
}

} // verus!
