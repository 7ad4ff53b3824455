//! A set of 64-bit words that is compact in size.

use crate::capacity::{is_pow2, MAX_LEN};
use crate::data::Data;
use crate::iter::{Drain, Iter};
use crate::model::{distinct, live_set, moved_for, table_map};
use crate::shape::{
    cells_with, cells_with_room, cells_without, empty_cells, has_room, inline_cells, kept_sentinel,
    made_for, made_for_capacity, max_of, reserved, robin_hood_at, sentinel_of, Shape,
};
use vstd::prelude::*;

verus! {

/// A set of `u64` elements.
///
/// The set takes one of nine forms, by the largest element and the
/// number of elements that it was made or has grown for; see `Shape`.
#[derive(Debug)]
pub struct U64Set {
    v: Data,
}

impl View for U64Set {
    type V = Set<u64>;

    /// The elements: the words in the cells, but for the sentinel.
    open spec fn view(&self) -> Set<u64> {
        live_set(self.cells(), self.sentinel())
    }
}

impl U64Set {
    /// The form that the set has.
    pub closed spec fn shape(&self) -> Shape {
        self.v.shape()
    }

    /// The words in the cells: for an inline form those of the cells
    /// in use, for a heap form those of the slots of the table.
    pub closed spec fn cells(&self) -> Seq<u64> {
        self.v.cells()
    }

    /// The word that marks an empty slot.
    pub closed spec fn sentinel(&self) -> u64 {
        self.v.sentinel()
    }

    /// The invariant of the set.  An inline form holds distinct words
    /// below the sentinel of its width in its first cells.  A heap form
    /// is a table in Robin-Hood order without repeated words, with a
    /// power of two as its slot count, whose element count is the
    /// number of live slots and lies within the load factor.
    #[verifier::type_invariant]
    pub closed spec fn wf(&self) -> bool {
        self.v.wf()
    }

    /// What the invariant says of the model: the elements are finitely
    /// many and admitted by the form, an inline form has no more of them
    /// than cells, a heap form has a power of two as its slot count and
    /// is within the load factor, and no element is in two cells.
    pub proof fn lemma_wf(&self)
        requires
            self.wf(),
        ensures
            self@.finite(),
            forall|w: u64| self@.contains(w) ==> w <= max_of(self.shape()),
            has_room(self.shape(), self@.len() as int, 0),
            self.shape().kind is Inline ==> self.cells().len() == self@.len()
                && !self.cells().contains(self.sentinel()) && self.shape().slots == inline_cells(
                self.shape().width,
            ),
            !(self.shape().kind is Inline) ==> self.cells().len() == self.shape().slots && is_pow2(
                self.shape().slots as int,
            ),
            !(self.shape().kind is Movable) ==> self.sentinel() == sentinel_of(self.shape().width),
            distinct(self.cells(), self.sentinel()),
    {
        self.v.lemma_wf();
    }

    /// In every heap form the table has the Robin-Hood ordering: on the
    /// probe path from the home of a live slot to that slot, every slot
    /// is live and holds a word at least as far from its own home as the
    /// path has come.
    pub proof fn lemma_robin_hood(&self)
        requires
            self.wf(),
            !(self.shape().kind is Inline),
        ensures
            robin_hood_at(self.shape().width, self.cells(), self.sentinel()),
    {
        self.v.lemma_robin_hood();
    }

    /// Takes the storage out of the set, so that it can be changed step
    /// by step, and leaves an empty form in its place until the changed
    /// storage is put back.
    fn take(&mut self) -> (data: Data)
        ensures
            data == old(self).v,
    {
        let mut data = Data::new();
        core::mem::swap(&mut self.v, &mut data);
        data
    }

    /// Creates an empty set with the specified capacity.
    pub fn with_capacity(cap: usize) -> (s: U64Set)
        requires
            cap <= MAX_LEN,
        ensures
            s.wf(),
            s@ == Set::<u64>::empty(),
            made_for_capacity(cap as int, s.shape()),
            s.sentinel() == sentinel_of(s.shape().width),
            s.cells() == empty_cells(s.shape(), s.sentinel()),
    {
        let v = Data::with_capacity(cap);
        proof {
            v.lemma_empty_cells();
        }
        U64Set { v }
    }

    /// Creates an empty set with the specified capacity, for elements up
    /// to `max`.
    pub fn with_max_and_capacity(max: u64, cap: usize) -> (s: U64Set)
        requires
            cap <= MAX_LEN,
        ensures
            s.wf(),
            s@ == Set::<u64>::empty(),
            made_for(max, cap as int, s.shape()),
            s.sentinel() == sentinel_of(s.shape().width),
            s.cells() == empty_cells(s.shape(), s.sentinel()),
    {
        let v = Data::with_max_cap(max, cap);
        proof {
            v.lemma_empty_cells();
        }
        U64Set { v }
    }

    /// Returns the number of elements in the set.
    pub fn len(&self) -> (n: usize)
        ensures
            n == self@.len(),
    {
        proof {
            use_type_invariant(self);
        }
        self.v.len()
    }

    /// Returns the number of slots: the cells of the inline array, or
    /// the slots of the table.
    pub fn rawcapacity(&self) -> (n: usize)
        ensures
            n == self.shape().slots,
    {
        proof {
            use_type_invariant(self);
        }
        self.v.rawcapacity()
    }

    /// Returns the number of elements that the set can hold in the form
    /// it has.
    pub fn capacity(&self) -> (n: usize)
        ensures
            has_room(self.shape(), n as int, 0),
            !has_room(self.shape(), n + 1, 0),
    {
        proof {
            use_type_invariant(self);
        }
        self.v.capacity()
    }

    /// Returns the largest element that the set admits in the form it
    /// has.
    pub fn current_max(&self) -> (max: u64)
        ensures
            max == max_of(self.shape()),
    {
        self.v.current_max()
    }

    /// Returns the word that marks an empty slot.
    pub fn invalid(&self) -> (inv: u64)
        ensures
            inv == self.sentinel(),
    {
        proof {
            use_type_invariant(self);
        }
        self.v.invalid()
    }

    /// Returns the element in cell `i`, if the cell holds one.
    pub fn index(&self, i: usize) -> (r: Option<u64>)
        requires
            self.shape().kind is Inline || i < self.shape().slots,
        ensures
            r == if i < self.cells().len() && self.cells()[i as int] != self.sentinel() {
                Some(self.cells()[i as int])
            } else {
                None
            },
    {
        proof {
            use_type_invariant(self);
        }
        self.v.index(i)
    }

    /// Returns the cell that holds `value`, if the set contains it.
    pub fn contains(&self, value: &u64) -> (r: Option<usize>)
        ensures
            r.is_some() == self@.contains(*value),
            r matches Some(i) ==> i < self.cells().len() && self.cells()[i as int] == *value,
    {
        proof {
            use_type_invariant(self);
        }
        self.v.contains(value)
    }

    /// Adds a value to a set that admits it and has room for it.
    ///
    /// `Ok` gives the cell that took the new value, `Err` the cell where
    /// the value already was.
    pub fn insert_unchecked(&mut self, value: u64) -> (r: Result<usize, usize>)
        requires
            value <= max_of(old(self).shape()),
            has_room(old(self).shape(), old(self)@.len() as int, 1),
        ensures
            final(self).shape() == old(self).shape(),
            final(self)@ == old(self)@.insert(value),
            r.is_ok() == !old(self)@.contains(value),
            final(self).sentinel() != value,
            moved_for(old(self)@, value, old(self).sentinel(), final(self).sentinel()),
            match r {
                Ok(i) => i < final(self).cells().len() && final(self).cells()[i as int] == value,
                Err(i) => i < old(self).cells().len() && old(self).cells()[i as int] == value
                    && final(self).cells() == old(self).cells(),
            },
            r.is_ok() ==> final(self).cells() == cells_with(
                old(self).shape(),
                old(self).cells(),
                old(self).sentinel(),
                final(self).sentinel(),
                value,
            ),
    {
        proof {
            use_type_invariant(&*self);
        }
        let mut data = self.take();
        let r = data.insert_unchecked(value);
        self.v = data;
        r
    }

    /// The map from the elements of the set to the values that stand
    /// beside them in `vals`: the value of an element is the one whose
    /// index is that of the cell of the element.
    pub open spec fn co_map<V>(&self, vals: Seq<V>) -> Map<u64, V> {
        table_map(self.cells(), vals.take(self.cells().len() as int), self.sentinel())
    }

    /// Adds the key `k` to a set that admits it and has room for it, and
    /// puts `v` beside it in `vals`.  Returns the value that stood
    /// beside `k` before, if the set held `k`.
    pub fn co_insert_unchecked<V: Copy>(&mut self, vals: &mut [V], k: u64, v: V) -> (r: Option<V>)
        requires
            k <= max_of(old(self).shape()),
            has_room(old(self).shape(), old(self)@.len() as int, 1),
            old(vals)@.len() >= old(self).shape().slots,
        ensures
            final(self).shape() == old(self).shape(),
            final(vals)@.len() == old(vals)@.len(),
            final(self)@ == old(self)@.insert(k),
            r == old(self).co_map(old(vals)@).get(k),
            final(self).co_map(final(vals)@) == old(self).co_map(old(vals)@).insert(k, v),
            moved_for(old(self)@, k, old(self).sentinel(), final(self).sentinel()),
            final(self).cells() == if r.is_none() {
                cells_with(
                    old(self).shape(),
                    old(self).cells(),
                    old(self).sentinel(),
                    final(self).sentinel(),
                    k,
                )
            } else {
                old(self).cells()
            },
    {
        proof {
            use_type_invariant(&*self);
        }
        let mut data = self.take();
        let r = data.co_insert_unchecked(vals, k, v);
        self.v = data;
        r
    }

    /// Takes the key `k` out of the set if it is there.  The values in
    /// `vals` move as the keys beside them do.  Returns the value that
    /// stood beside `k`.
    pub fn co_remove<V: Copy>(&mut self, vals: &mut [V], k: u64) -> (r: Option<V>)
        requires
            old(vals)@.len() >= old(self).shape().slots,
        ensures
            final(self).shape() == old(self).shape(),
            final(vals)@.len() == old(vals)@.len(),
            final(self)@ == old(self)@.remove(k),
            r == old(self).co_map(old(vals)@).get(k),
            final(self).co_map(final(vals)@) == old(self).co_map(old(vals)@).remove(k),
            final(self).sentinel() == old(self).sentinel(),
            final(self).cells() == if r.is_some() {
                cells_without(old(self).shape(), old(self).cells(), old(self).sentinel(), k)
            } else {
                old(self).cells()
            },
    {
        proof {
            use_type_invariant(&*self);
        }
        let mut data = self.take();
        let r = data.co_remove(vals, k);
        self.v = data;
        r
    }

    /// Creates a set with the elements of `items`.
    pub fn from_iter(items: &[u64]) -> (s: U64Set)
        requires
            items@.len() <= MAX_LEN,
        ensures
            s@ == items@.to_set(),
    {
        U64Set { v: Data::from_iter(items) }
    }

    /// Removes an element, and returns true if that element was present.
    pub fn remove(&mut self, value: &u64) -> (r: bool)
        ensures
            final(self).shape() == old(self).shape(),
            final(self).sentinel() == old(self).sentinel(),
            final(self)@ == old(self)@.remove(*value),
            r == old(self)@.contains(*value),
            final(self)@.len() == old(self)@.len() - if r {
                1int
            } else {
                0int
            },
            !r ==> final(self).cells() == old(self).cells(),
            r ==> final(self).cells() == cells_without(
                old(self).shape(),
                old(self).cells(),
                old(self).sentinel(),
                *value,
            ),
    {
        proof {
            use_type_invariant(&*self);
        }
        let mut data = self.take();
        let r = data.remove(value);
        self.v = data;
        r
    }

    /// Reserves capacity for at least `additional` more elements to
    /// be inserted in the set, with maximum value of `max`.  The set
    /// takes a wider or larger form where the one it has does not admit
    /// `max` or lacks the room, and keeps its elements.
    pub fn reserve_with_max(&mut self, max: u64, additional: usize)
        requires
            old(self)@.len() + additional <= MAX_LEN,
        ensures
            final(self)@ == old(self)@,
            reserved(
                old(self).shape(),
                old(self)@.len() as int,
                max,
                additional as int,
                final(self).shape(),
            ),
            max <= max_of(final(self).shape()),
            has_room(final(self).shape(), final(self)@.len() as int, additional as int),
            final(self).sentinel() == kept_sentinel(
                old(self).shape(),
                old(self).sentinel(),
                final(self).shape(),
            ),
            final(self).cells() == cells_with_room(
                old(self).shape(),
                old(self).cells(),
                old(self).sentinel(),
                final(self).shape(),
                final(self).sentinel(),
            ),
    {
        proof {
            use_type_invariant(&*self);
        }
        let mut data = self.take();
        let r = data.reserve_with_max(max, additional);
        self.v = data;
        r
    }

    /// Reserves capacity for at least `additional` more elements to be
    /// inserted in the set.
    pub fn reserve(&mut self, additional: usize)
        requires
            old(self)@.len() + additional <= MAX_LEN,
        ensures
            final(self)@ == old(self)@,
            reserved(
                old(self).shape(),
                old(self)@.len() as int,
                0,
                additional as int,
                final(self).shape(),
            ),
            has_room(final(self).shape(), final(self)@.len() as int, additional as int),
            final(self).sentinel() == kept_sentinel(
                old(self).shape(),
                old(self).sentinel(),
                final(self).shape(),
            ),
            final(self).cells() == cells_with_room(
                old(self).shape(),
                old(self).cells(),
                old(self).sentinel(),
                final(self).shape(),
                final(self).sentinel(),
            ),
    {
        proof {
            use_type_invariant(&*self);
        }
        let mut data = self.take();
        let r = data.reserve(additional);
        self.v = data;
        r
    }

    /// Adds a value to the set.
    ///
    /// If the set did not have this value present, `true` is returned.
    ///
    /// If the set did have this value present, `false` is returned.
    pub fn insert(&mut self, elem: u64) -> (r: bool)
        requires
            old(self)@.len() < MAX_LEN,
        ensures
            final(self)@ == old(self)@.insert(elem),
            r == !old(self)@.contains(elem),
            final(self)@.len() == old(self)@.len() + if r {
                1int
            } else {
                0int
            },
            reserved(old(self).shape(), old(self)@.len() as int, elem, 1, final(self).shape()),
            moved_for(
                old(self)@,
                elem,
                kept_sentinel(old(self).shape(), old(self).sentinel(), final(self).shape()),
                final(self).sentinel(),
            ),
            final(self).cells() == {
                let stale = kept_sentinel(
                    old(self).shape(),
                    old(self).sentinel(),
                    final(self).shape(),
                );
                let room = cells_with_room(
                    old(self).shape(),
                    old(self).cells(),
                    old(self).sentinel(),
                    final(self).shape(),
                    stale,
                );
                if r {
                    cells_with(final(self).shape(), room, stale, final(self).sentinel(), elem)
                } else {
                    room
                }
            },
    {
        proof {
            use_type_invariant(&*self);
        }
        let mut data = self.take();
        let r = data.insert(elem);
        self.v = data;
        r
    }

    /// Returns an iterator over the set: it gives every element once.
    pub fn iter(&self) -> (it: Iter<'_>)
        ensures
            it.wf(),
            it.remaining().no_duplicates(),
            it.remaining().to_set() == self@,
            it.remaining().len() == self@.len(),
            !it.remaining().contains(self.sentinel()),
    {
        proof {
            use_type_invariant(self);
        }
        self.v.iter()
    }

    /// Clears the set, returning all elements in an iterator.  The set
    /// keeps its form.
    pub fn drain(&mut self) -> (d: Drain)
        ensures
            final(self)@ == Set::<u64>::empty(),
            final(self).shape() == old(self).shape(),
            final(self).sentinel() == sentinel_of(old(self).shape().width),
            final(self).cells() == empty_cells(final(self).shape(), final(self).sentinel()),
            d.wf(),
            d.remaining().no_duplicates(),
            d.remaining().to_set() == old(self)@,
            d.remaining().len() == old(self)@.len(),
    {
        proof {
            use_type_invariant(&*self);
        }
        let mut data = self.take();
        let r = data.drain();
        proof {
            data.lemma_empty_cells();
        }
        self.v = data;
        r
    }
}

impl Default for U64Set {
    /// An empty set in the inline form of 8-bit slots.
    fn default() -> (s: Self)
        ensures
            s@ == Set::<u64>::empty(),
            made_for_capacity(0, s.shape()),
            s.cells() == Seq::<u64>::empty(),
    {
        Self::with_capacity(0)
    }
}

impl Clone for U64Set {
    /// A set of the same form with the same cells.
    fn clone(&self) -> (s: Self)
        ensures
            s.shape() == self.shape(),
            s.cells() == self.cells(),
            s.sentinel() == self.sentinel(),
            s@ == self@,
    {
        proof {
            use_type_invariant(self);
        }
        U64Set { v: self.v.duplicate() }
    }
}

} // verus!
