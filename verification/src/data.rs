//! The nine forms of a set of 64-bit words, and the operations on
//! each of them.
//!
//! A set takes one of nine forms.  For each slot width of 8, 16, 32
//! and 64 bits there is an inline form, a short array inside the handle,
//! and a heap form, a Robin-Hood table under the fixed sentinel of the
//! width.  The ninth form is a heap form of 64-bit slots whose sentinel
//! moves, so that it can hold every 64-bit word.

use crate::capacity::{
    capacity_to_rawcapacity, fits, is_pow2, is_raw_capacity, within_load, MAX_LEN,
};
use crate::heap::{
    empty_fixed, empty_movable, fixed_find, fixed_insert, fixed_map_insert, fixed_map_remove,
    fixed_ok, fixed_remove, movable_find, movable_insert, movable_map_insert, movable_map_remove,
    movable_ok, movable_remove,
};
use crate::iter::{Drain, Iter};
use crate::model::{
    distinct, first, lemma_live_all, lemma_live_one_more, lemma_live_set_finite,
    lemma_ordered_robin_hood, lemma_same_sentinel, lemma_table_map_dom, lemma_take_one_more,
    live_from, live_set, moved_for, slots, table_map,
};
use crate::shape::{
    cells_with, cells_with_room, cells_without, empty_cells, has_room, inline_cells, kept_sentinel,
    made_for, made_for_capacity, max_of, refilled_at, reserved, robin_hood_at, sentinel_of, Kind,
    Shape, Width,
};
use crate::slot::HasInvalid;
use crate::small::{
    lemma_small_live, small_find, small_insert, small_map_insert, small_map_remove, small_ok,
    small_remove,
};
use crate::storage::{copied, prefix_vec};
use vstd::prelude::*;

verus! {

/// The number of cells of the inline form of 8-bit slots.
pub const NUM_U8: usize = 22;

/// The number of cells of the inline form of 16-bit slots.
pub const NUM_U16: usize = 11;

/// The number of cells of the inline form of 32-bit slots.
pub const NUM_U32: usize = 5;

/// The number of cells of the inline form of 64-bit slots.
pub const NUM_U64: usize = 2;

/// The storage of a set, in the form that the set has.  Each form holds
/// the number of elements and the cells.
#[derive(Debug)]
pub enum Data {
    /// Inline, 8-bit slots.
    Su8(u8, [u8; NUM_U8]),
    /// On the heap, 8-bit slots.
    Vu8(u8, Box<[u8]>),
    /// Inline, 16-bit slots.
    Su16(u8, [u16; NUM_U16]),
    /// On the heap, 16-bit slots.
    Vu16(u16, Box<[u16]>),
    /// Inline, 32-bit slots.
    Su32(u8, [u32; NUM_U32]),
    /// On the heap, 32-bit slots.
    Vu32(u32, Box<[u32]>),
    /// Inline, 64-bit slots.
    Su64(u32, [u64; NUM_U64]),
    /// On the heap, 64-bit slots under the fixed sentinel.
    Vu64(u32, Box<[u64]>),
    /// On the heap, 64-bit slots under a sentinel that moves: the last
    /// cell keeps the sentinel, the cells before it are the slots.
    Badu64(u32, Box<[u64]>),
}

impl View for Data {
    type V = Set<u64>;

    open spec fn view(&self) -> Set<u64> {
        live_set(self.cells(), self.sentinel())
    }
}

impl Data {
    /// The form.
    pub closed spec fn shape(self) -> Shape {
        match self {
            Data::Su8(_, v) => Shape { width: Width::W8, kind: Kind::Inline, slots: NUM_U8 },
            Data::Vu8(_, v) => Shape {
                width: Width::W8,
                kind: Kind::Heap,
                slots: v@.len() as usize,
            },
            Data::Su16(_, v) => Shape { width: Width::W16, kind: Kind::Inline, slots: NUM_U16 },
            Data::Vu16(_, v) => Shape {
                width: Width::W16,
                kind: Kind::Heap,
                slots: v@.len() as usize,
            },
            Data::Su32(_, v) => Shape { width: Width::W32, kind: Kind::Inline, slots: NUM_U32 },
            Data::Vu32(_, v) => Shape {
                width: Width::W32,
                kind: Kind::Heap,
                slots: v@.len() as usize,
            },
            Data::Su64(_, v) => Shape { width: Width::W64, kind: Kind::Inline, slots: NUM_U64 },
            Data::Vu64(_, v) => Shape {
                width: Width::W64,
                kind: Kind::Heap,
                slots: v@.len() as usize,
            },
            Data::Badu64(_, v) => Shape {
                width: Width::W64,
                kind: Kind::Movable,
                slots: (v@.len() - 1) as usize,
            },
        }
    }

    /// The words in the cells: for an inline form those of the cells in
    /// use, for a heap form those of the slots of the table.
    pub closed spec fn cells(self) -> Seq<u64> {
        match self {
            Data::Su8(sz, v) => slots(v@, sz as int),
            Data::Vu8(_, v) => slots(v@, v@.len() as int),
            Data::Su16(sz, v) => slots(v@, sz as int),
            Data::Vu16(_, v) => slots(v@, v@.len() as int),
            Data::Su32(sz, v) => slots(v@, sz as int),
            Data::Vu32(_, v) => slots(v@, v@.len() as int),
            Data::Su64(sz, v) => slots(v@, sz as int),
            Data::Vu64(_, v) => slots(v@, v@.len() as int),
            Data::Badu64(_, v) => slots(v@, v@.len() - 1),
        }
    }

    /// The word that marks an empty slot.
    pub closed spec fn sentinel(self) -> u64 {
        match self {
            Data::Badu64(_, v) => v@[v@.len() - 1],
            _ => sentinel_of(self.shape().width),
        }
    }

    /// The number that the form keeps as the number of its elements.
    pub closed spec fn count(self) -> int {
        match self {
            Data::Su8(sz, _) => sz as int,
            Data::Vu8(sz, _) => sz as int,
            Data::Su16(sz, _) => sz as int,
            Data::Vu16(sz, _) => sz as int,
            Data::Su32(sz, _) => sz as int,
            Data::Vu32(sz, _) => sz as int,
            Data::Su64(sz, _) => sz as int,
            Data::Vu64(sz, _) => sz as int,
            Data::Badu64(sz, _) => sz as int,
        }
    }

    /// The invariant: that of the form, on its cells and its count.
    pub closed spec fn wf(self) -> bool {
        match self {
            Data::Su8(sz, v) => small_ok::<u8>(v@, sz as int),
            Data::Vu8(sz, v) => fixed_ok::<u8>(v@, sz as int),
            Data::Su16(sz, v) => small_ok::<u16>(v@, sz as int),
            Data::Vu16(sz, v) => fixed_ok::<u16>(v@, sz as int),
            Data::Su32(sz, v) => small_ok::<u32>(v@, sz as int),
            Data::Vu32(sz, v) => fixed_ok::<u32>(v@, sz as int),
            Data::Su64(sz, v) => small_ok::<u64>(v@, sz as int),
            Data::Vu64(sz, v) => fixed_ok::<u64>(v@, sz as int),
            Data::Badu64(sz, v) => movable_ok(v@, sz as int),
        }
    }
}

impl Data {
    /// What the invariant says of the model: the elements are finitely
    /// many and admitted by the form, an inline form has no more of them
    /// than cells, a heap form has as many cells as its form says and
    /// is within the load factor, and no element is in two cells.
    pub proof fn lemma_wf(&self)
        requires
            self.wf(),
        ensures
            self@.finite(),
            forall|w: u64| self@.contains(w) ==> w <= max_of(self.shape()),
            has_room(self.shape(), self@.len() as int, 0),
            self.shape().kind is Inline ==> self.cells().len() == self@.len()
                && !self.cells().contains(self.sentinel()) && self.shape().slots == inline_cells(
                self.shape().width,
            ),
            !(self.shape().kind is Inline) ==> self.cells().len() == self.shape().slots && is_pow2(
                self.shape().slots as int,
            ),
            !(self.shape().kind is Movable) ==> self.sentinel() == sentinel_of(self.shape().width),
            distinct(self.cells(), self.sentinel()),
    {
        lemma_live_set_finite(self.cells(), self.sentinel());
        match *self {
            Data::Su8(sz, v) => lemma_small_facts::<u8>(v@, sz as int),
            Data::Vu8(sz, v) => lemma_fixed_facts::<u8>(v@),
            Data::Su16(sz, v) => lemma_small_facts::<u16>(v@, sz as int),
            Data::Vu16(sz, v) => lemma_fixed_facts::<u16>(v@),
            Data::Su32(sz, v) => lemma_small_facts::<u32>(v@, sz as int),
            Data::Vu32(sz, v) => lemma_fixed_facts::<u32>(v@),
            Data::Su64(sz, v) => lemma_small_facts::<u64>(v@, sz as int),
            Data::Vu64(sz, v) => lemma_fixed_facts::<u64>(v@),
            Data::Badu64(sz, v) => {},
        }
    }

    /// In every heap form the table has the Robin-Hood ordering: on the
    /// probe path from the home of a live slot to that slot, every slot
    /// is live and holds a word at least as far from its own home as the
    /// path has come.
    pub proof fn lemma_robin_hood(&self)
        requires
            self.wf(),
            !(self.shape().kind is Inline),
        ensures
            robin_hood_at(self.shape().width, self.cells(), self.sentinel()),
    {
        match *self {
            Data::Vu8(_, v) => lemma_ordered_robin_hood::<u8>(self.cells(), self.sentinel()),
            Data::Vu16(_, v) => lemma_ordered_robin_hood::<u16>(self.cells(), self.sentinel()),
            Data::Vu32(_, v) => lemma_ordered_robin_hood::<u32>(self.cells(), self.sentinel()),
            Data::Vu64(_, v) => lemma_ordered_robin_hood::<u64>(self.cells(), self.sentinel()),
            Data::Badu64(_, v) => lemma_ordered_robin_hood::<u64>(self.cells(), self.sentinel()),
            _ => {},
        }
    }
}


/// The words of an inline form are its first cells, all live.
proof fn lemma_small_facts<K: HasInvalid>(cells: Seq<K>, count: int)
    requires
        small_ok::<K>(cells, count),
    ensures
        live_set(slots(cells, count), K::spec_invalid()) == slots(cells, count).to_set(),
        live_set(slots(cells, count), K::spec_invalid()).len() == count,
        forall|w: u64|
            live_set(slots(cells, count), K::spec_invalid()).contains(w) ==> w < K::spec_invalid(),
{
    let p = slots(cells, count);
    assert(live_set(p, K::spec_invalid()) =~= p.to_set());
    p.unique_seq_to_set();
    assert forall|w: u64| live_set(p, K::spec_invalid()).contains(w) implies w
        < K::spec_invalid() by {
        let i = choose|i: int| 0 <= i < p.len() && p[i] == w;
        cells[i].lemma_word_range();
    }
}

/// The words of a heap form under the fixed sentinel lie below it.
proof fn lemma_fixed_facts<K: HasInvalid>(cells: Seq<K>)
    ensures
        forall|w: u64|
            live_set(slots(cells, cells.len() as int), K::spec_invalid()).contains(w) ==> w
                < K::spec_invalid(),
{
    let p = slots(cells, cells.len() as int);
    assert forall|w: u64| live_set(p, K::spec_invalid()).contains(w) implies w
        < K::spec_invalid() by {
        let i = choose|i: int| 0 <= i < p.len() && p[i] == w;
        cells[i].lemma_word_range();
    }
}

impl Data {
    /// An empty inline form of 8-bit slots.
    pub fn new() -> (d: Data)
        ensures
            d.wf(),
            d.shape() == (Shape { width: Width::W8, kind: Kind::Inline, slots: 22 }),
            live_set(d.cells(), d.sentinel()) == Set::<u64>::empty(),
    {
        let d = Data::Su8(0, [0xffu8;NUM_U8]);
        proof {
            assert(live_set(d.cells(), d.sentinel()) =~= Set::<u64>::empty());
        }
        d
    }

    /// An empty form for `cap` elements of which none is above `max`.
    pub fn with_max_cap(max: u64, cap: usize) -> (d: Data)
        requires
            cap <= MAX_LEN,
        ensures
            d.wf(),
            made_for(max, cap as int, d.shape()),
            d.sentinel() == sentinel_of(d.shape().width),
            live_set(d.cells(), d.sentinel()) == Set::<u64>::empty(),
    {
        let d = if max < 0xff {
            if cap <= NUM_U8 {
                Data::Su8(0, [0xffu8;NUM_U8])
            } else {
                Data::Vu8(0, empty_fixed(capacity_to_rawcapacity(cap)))
            }
        } else if max < 0xffff {
            if cap <= NUM_U16 {
                Data::Su16(0, [0xffffu16;NUM_U16])
            } else {
                Data::Vu16(0, empty_fixed(capacity_to_rawcapacity(cap)))
            }
        } else if max < 0xffff_ffff {
            if cap <= NUM_U32 {
                Data::Su32(0, [0xffff_ffffu32;NUM_U32])
            } else {
                Data::Vu32(0, empty_fixed(capacity_to_rawcapacity(cap)))
            }
        } else if max < 0xffff_ffff_ffff_ffff {
            if cap <= NUM_U64 {
                Data::Su64(0, [0xffff_ffff_ffff_ffffu64;NUM_U64])
            } else {
                Data::Vu64(0, empty_fixed(capacity_to_rawcapacity(cap)))
            }
        } else {
            Data::Badu64(0, empty_movable(capacity_to_rawcapacity(cap), 0xffff_ffff_ffff_ffff))
        };
        proof {
            assert(live_set(d.cells(), d.sentinel()) =~= Set::<u64>::empty());
        }
        d
    }

    /// An empty heap form of the width and kind of `self`, with the raw
    /// capacity for `cap` elements, under the sentinel of `self`.
    pub fn heap_like(&self, cap: usize) -> (d: Data)
        requires
            self.wf(),
            cap <= MAX_LEN,
        ensures
            d.wf(),
            d.sentinel() == self.sentinel(),
            d.shape().width == self.shape().width,
            d.shape().kind == if self.shape().kind is Inline {
                Kind::Heap
            } else {
                self.shape().kind
            },
            is_raw_capacity(cap as int, d.shape().slots as int),
            live_set(d.cells(), d.sentinel()) == Set::<u64>::empty(),
    {
        let n = capacity_to_rawcapacity(cap);
        match self {
            Data::Su8(_, _) => Data::Vu8(0, empty_fixed(n)),
            Data::Vu8(_, _) => Data::Vu8(0, empty_fixed(n)),
            Data::Su16(_, _) => Data::Vu16(0, empty_fixed(n)),
            Data::Vu16(_, _) => Data::Vu16(0, empty_fixed(n)),
            Data::Su32(_, _) => Data::Vu32(0, empty_fixed(n)),
            Data::Vu32(_, _) => Data::Vu32(0, empty_fixed(n)),
            Data::Su64(_, _) => Data::Vu64(0, empty_fixed(n)),
            Data::Vu64(_, _) => Data::Vu64(0, empty_fixed(n)),
            Data::Badu64(_, v) => Data::Badu64(0, empty_movable(n, v[v.len() - 1])),
        }
    }

    /// An empty set has the cells of an empty form.
    pub proof fn lemma_empty_cells(self)
        requires
            self.wf(),
            self@ == Set::<u64>::empty(),
        ensures
            self.cells() == empty_cells(self.shape(), self.sentinel()),
    {
        self.lemma_wf();
        assert forall|k: int| 0 <= k < self.cells().len() implies self.cells()[k]
            == self.sentinel() by {
            if self.cells()[k] != self.sentinel() {
                assert(self.cells().contains(self.cells()[k]));
                assert(self@.contains(self.cells()[k]));
            }
        }
        assert(self.cells() =~= empty_cells(self.shape(), self.sentinel()));
    }

    /// The count of a form is the number of its elements.
    pub proof fn lemma_count(self)
        requires
            self.wf(),
        ensures
            self.count() == live_set(self.cells(), self.sentinel()).len(),
    {
        match self {
            Data::Su8(sz, v) => lemma_small_live::<u8>(v@, sz as int),
            Data::Su16(sz, v) => lemma_small_live::<u16>(v@, sz as int),
            Data::Su32(sz, v) => lemma_small_live::<u32>(v@, sz as int),
            Data::Su64(sz, v) => lemma_small_live::<u64>(v@, sz as int),
            _ => {},
        }
    }
}

impl Data {
    /// Creates an empty set with the specified capacity.
    pub fn with_capacity(cap: usize) -> (s: Data)
        requires
            cap <= MAX_LEN,
        ensures
            s.wf(),
            s@ == Set::<u64>::empty(),
            made_for_capacity(cap as int, s.shape()),
            s.sentinel() == sentinel_of(s.shape().width),
    {
        let nextcap = capacity_to_rawcapacity(cap);
        if cap <= NUM_U8 {
            Data::new()
        } else if cap < 0xff {
            Data::Vu8(0, empty_fixed(nextcap))
        } else if cap < 0xffff {
            Data::Vu16(0, empty_fixed(nextcap))
        } else if cap < 0xffff_ffff {
            Data::Vu32(0, empty_fixed(nextcap))
        } else {
            Data::Vu64(0, empty_fixed(nextcap))
        }
    }

    /// Creates an empty set with the specified capacity, for elements up
    /// to `max`.
    pub fn with_max_and_capacity(max: u64, cap: usize) -> (s: Data)
        requires
            cap <= MAX_LEN,
        ensures
            s.wf(),
            s@ == Set::<u64>::empty(),
            made_for(max, cap as int, s.shape()),
    {
        Data::with_max_cap(max, cap)
    }

    /// Returns the number of elements in the set.
    pub fn len(&self) -> (n: usize)
        requires
            self.wf(),
        ensures
            n == self@.len(),
    {
        proof {
            self.lemma_count();
        }
        match self {
            Data::Su8(sz, _) => *sz as usize,
            Data::Vu8(sz, _) => *sz as usize,
            Data::Su16(sz, _) => *sz as usize,
            Data::Vu16(sz, _) => *sz as usize,
            Data::Su32(sz, _) => *sz as usize,
            Data::Vu32(sz, _) => *sz as usize,
            Data::Su64(sz, _) => *sz as usize,
            Data::Vu64(sz, _) => *sz as usize,
            Data::Badu64(sz, _) => *sz as usize,
        }
    }

    /// Returns the number of slots: the cells of the inline array, or
    /// the slots of the table.
    pub fn rawcapacity(&self) -> (n: usize)
        requires
            self.wf(),
        ensures
            n == self.shape().slots,
    {
        match self {
            Data::Su8(_, _) => NUM_U8,
            Data::Vu8(_, v) => v.len(),
            Data::Su16(_, _) => NUM_U16,
            Data::Vu16(_, v) => v.len(),
            Data::Su32(_, _) => NUM_U32,
            Data::Vu32(_, v) => v.len(),
            Data::Su64(_, _) => NUM_U64,
            Data::Vu64(_, v) => v.len(),
            Data::Badu64(_, v) => v.len() - 1,
        }
    }

    /// Returns the number of elements that the set can hold in the form
    /// it has.
    pub fn capacity(&self) -> (n: usize)
        requires
            self.wf(),
        ensures
            has_room(self.shape(), n as int, 0),
            !has_room(self.shape(), n + 1, 0),
    {
        match self {
            Data::Su8(_, _) => NUM_U8,
            Data::Su16(_, _) => NUM_U16,
            Data::Su32(_, _) => NUM_U32,
            Data::Su64(_, _) => NUM_U64,
            Data::Vu8(_, v) => within_load(v.len()),
            Data::Vu16(_, v) => within_load(v.len()),
            Data::Vu32(_, v) => within_load(v.len()),
            Data::Vu64(_, v) => within_load(v.len()),
            Data::Badu64(_, v) => within_load(v.len() - 1),
        }
    }

    /// Returns the largest element that the set admits in the form it
    /// has.
    pub fn current_max(&self) -> (max: u64)
        ensures
            max == max_of(self.shape()),
    {
        match self {
            Data::Su8(_, _) => 0xfe,
            Data::Su16(_, _) => 0xfffe,
            Data::Su32(_, _) => 0xffff_fffe,
            Data::Su64(_, _) => 0xffff_ffff_ffff_fffe,
            Data::Vu8(_, _) => 0xfe,
            Data::Vu16(_, _) => 0xfffe,
            Data::Vu32(_, _) => 0xffff_fffe,
            Data::Vu64(_, _) => 0xffff_ffff_ffff_fffe,
            Data::Badu64(_, _) => 0xffff_ffff_ffff_ffff,
        }
    }

    /// Returns the word that marks an empty slot.
    pub fn invalid(&self) -> (inv: u64)
        requires
            self.wf(),
        ensures
            inv == self.sentinel(),
    {
        match self {
            Data::Su8(_, _) => 0xff,
            Data::Su16(_, _) => 0xffff,
            Data::Su32(_, _) => 0xffff_ffff,
            Data::Su64(_, _) => 0xffff_ffff_ffff_ffff,
            Data::Vu8(_, _) => 0xff,
            Data::Vu16(_, _) => 0xffff,
            Data::Vu32(_, _) => 0xffff_ffff,
            Data::Vu64(_, _) => 0xffff_ffff_ffff_ffff,
            Data::Badu64(_, v) => v[v.len() - 1],
        }
    }

    /// Returns the element in cell `i`, if the cell holds one.
    pub fn index(&self, i: usize) -> (r: Option<u64>)
        requires
            self.wf(),
            self.shape().kind is Inline || i < self.shape().slots,
        ensures
            r == if i < self.cells().len() && self.cells()[i as int] != self.sentinel() {
                Some(self.cells()[i as int])
            } else {
                None
            },
    {
        proof {
            self.lemma_wf();
        }
        match self {
            Data::Su8(sz, v) => if i < *sz as usize && v[i] != 0xff {
                Some(v[i] as u64)
            } else {
                proof {
                    if i < *sz as usize {
                        assert(self.cells()[i as int] == 0xff);
                    }
                }
                None
            },
            Data::Su16(sz, v) => if i < *sz as usize && v[i] != 0xffff {
                Some(v[i] as u64)
            } else {
                proof {
                    if i < *sz as usize {
                        assert(self.cells()[i as int] == 0xffff);
                    }
                }
                None
            },
            Data::Su32(sz, v) => if i < *sz as usize && v[i] != 0xffff_ffff {
                Some(v[i] as u64)
            } else {
                proof {
                    if i < *sz as usize {
                        assert(self.cells()[i as int] == 0xffff_ffff);
                    }
                }
                None
            },
            Data::Su64(sz, v) => if i < *sz as usize && v[i] != 0xffff_ffff_ffff_ffff {
                Some(v[i])
            } else {
                proof {
                    if i < *sz as usize {
                        assert(self.cells()[i as int] == 0xffff_ffff_ffff_ffff);
                    }
                }
                None
            },
            Data::Vu8(_, v) => if v[i] != 0xff {
                Some(v[i] as u64)
            } else {
                None
            },
            Data::Vu16(_, v) => if v[i] != 0xffff {
                Some(v[i] as u64)
            } else {
                None
            },
            Data::Vu32(_, v) => if v[i] != 0xffff_ffff {
                Some(v[i] as u64)
            } else {
                None
            },
            Data::Vu64(_, v) => if v[i] != 0xffff_ffff_ffff_ffff {
                Some(v[i])
            } else {
                None
            },
            Data::Badu64(_, v) => {
                let invalid = v[v.len() - 1];
                if v[i] != invalid {
                    Some(v[i])
                } else {
                    None
                }
            },
        }
    }

    /// Returns the cell that holds `value`, if the set contains it.
    pub fn contains(&self, value: &u64) -> (r: Option<usize>)
        requires
            self.wf(),
        ensures
            r.is_some() == self@.contains(*value),
            r matches Some(i) ==> i < self.cells().len() && self.cells()[i as int] == *value,
    {
        let value = *value;
        proof {
            self.lemma_count();
        }
        match self {
            Data::Su8(sz, v) => {
                proof {
                    lemma_small_live::<u8>(v@, *sz as int);
                }
                small_find(v, *sz as usize, value)
            },
            Data::Su16(sz, v) => {
                proof {
                    lemma_small_live::<u16>(v@, *sz as int);
                }
                small_find(v, *sz as usize, value)
            },
            Data::Su32(sz, v) => {
                proof {
                    lemma_small_live::<u32>(v@, *sz as int);
                }
                small_find(v, *sz as usize, value)
            },
            Data::Su64(sz, v) => {
                proof {
                    lemma_small_live::<u64>(v@, *sz as int);
                }
                small_find(v, *sz as usize, value)
            },
            Data::Vu8(_, v) => fixed_find(v, value),
            Data::Vu16(_, v) => fixed_find(v, value),
            Data::Vu32(_, v) => fixed_find(v, value),
            Data::Vu64(_, v) => fixed_find(v, value),
            Data::Badu64(_, v) => movable_find(v, value),
        }
    }
}

impl Data {
    /// Adds a value to a set that admits it and has room for it.
    ///
    /// `Ok` gives the cell that took the new value, `Err` the cell where
    /// the value already was.
    pub fn insert_unchecked(&mut self, value: u64) -> (r: Result<usize, usize>)
        requires
            old(self).wf(),
            value <= max_of(old(self).shape()),
            has_room(old(self).shape(), old(self)@.len() as int, 1),
        ensures
            final(self).wf(),
            final(self).shape() == old(self).shape(),
            final(self)@ == old(self)@.insert(value),
            r.is_ok() == !old(self)@.contains(value),
            final(self).sentinel() != value,
            moved_for(old(self)@, value, old(self).sentinel(), final(self).sentinel()),
            match r {
                Ok(i) => i < final(self).cells().len() && final(self).cells()[i as int] == value,
                Err(i) => i < old(self).cells().len() && old(self).cells()[i as int] == value
                    && final(self).cells() == old(self).cells(),
            },
            r.is_ok() ==> final(self).cells() == cells_with(
                old(self).shape(),
                old(self).cells(),
                old(self).sentinel(),
                final(self).sentinel(),
                value,
            ),
    {
        proof {
            self.lemma_count();
            lemma_same_sentinel(self.cells(), self.sentinel());
        }
        match self {
            Data::Su8(sz, v) => {
                let r = small_insert(v, *sz as usize, value);
                if r.is_ok() {
                    *sz = *sz + 1;
                }
                r
            },
            Data::Su16(sz, v) => {
                let r = small_insert(v, *sz as usize, value);
                if r.is_ok() {
                    *sz = *sz + 1;
                }
                r
            },
            Data::Su32(sz, v) => {
                let r = small_insert(v, *sz as usize, value);
                if r.is_ok() {
                    *sz = *sz + 1;
                }
                r
            },
            Data::Su64(sz, v) => {
                let r = small_insert(v, *sz as usize, value);
                if r.is_ok() {
                    *sz = *sz + 1;
                }
                r
            },
            Data::Vu8(sz, v) => {
                let r = fixed_insert(v, *sz as usize, value);
                if r.is_ok() {
                    *sz = *sz + 1;
                }
                r
            },
            Data::Vu16(sz, v) => {
                let r = fixed_insert(v, *sz as usize, value);
                if r.is_ok() {
                    *sz = *sz + 1;
                }
                r
            },
            Data::Vu32(sz, v) => {
                let r = fixed_insert(v, *sz as usize, value);
                if r.is_ok() {
                    *sz = *sz + 1;
                }
                r
            },
            Data::Vu64(sz, v) => {
                let r = fixed_insert(v, *sz as usize, value);
                if r.is_ok() {
                    *sz = *sz + 1;
                }
                r
            },
            Data::Badu64(sz, v) => {
                let r = movable_insert(v, *sz as usize, value);
                if r.is_ok() {
                    *sz = *sz + 1;
                }
                r
            },
        }
    }

    /// Removes an element, and returns true if that element was present.
    pub fn remove(&mut self, value: &u64) -> (r: bool)
        requires
            old(self).wf(),
        ensures
            final(self).wf(),
            final(self).shape() == old(self).shape(),
            final(self).sentinel() == old(self).sentinel(),
            final(self)@ == old(self)@.remove(*value),
            r == old(self)@.contains(*value),
            final(self)@.len() == old(self)@.len() - if r {
                1int
            } else {
                0int
            },
            !r ==> final(self).cells() == old(self).cells(),
            r ==> final(self).cells() == cells_without(
                old(self).shape(),
                old(self).cells(),
                old(self).sentinel(),
                *value,
            ),
    {
        let value = *value;
        proof {
            self.lemma_count();
            self.lemma_wf();
        }
        let r = match self {
            Data::Su8(sz, v) => {
                let r = small_remove(v, *sz as usize, value);
                if r {
                    *sz = *sz - 1;
                }
                r
            },
            Data::Su16(sz, v) => {
                let r = small_remove(v, *sz as usize, value);
                if r {
                    *sz = *sz - 1;
                }
                r
            },
            Data::Su32(sz, v) => {
                let r = small_remove(v, *sz as usize, value);
                if r {
                    *sz = *sz - 1;
                }
                r
            },
            Data::Su64(sz, v) => {
                let r = small_remove(v, *sz as usize, value);
                if r {
                    *sz = *sz - 1;
                }
                r
            },
            Data::Vu8(sz, v) => {
                let r = fixed_remove(v, *sz as usize, value);
                if r {
                    *sz = *sz - 1;
                }
                r
            },
            Data::Vu16(sz, v) => {
                let r = fixed_remove(v, *sz as usize, value);
                if r {
                    *sz = *sz - 1;
                }
                r
            },
            Data::Vu32(sz, v) => {
                let r = fixed_remove(v, *sz as usize, value);
                if r {
                    *sz = *sz - 1;
                }
                r
            },
            Data::Vu64(sz, v) => {
                let r = fixed_remove(v, *sz as usize, value);
                if r {
                    *sz = *sz - 1;
                }
                r
            },
            Data::Badu64(sz, v) => {
                let r = movable_remove(v, *sz as usize, value);
                if r {
                    *sz = *sz - 1;
                }
                r
            },
        };
        r
    }

    /// Whether the set, in the form it has, has room for `additional`
    /// more elements.
    pub fn room_for(&self, additional: usize) -> (ok: bool)
        requires
            self.wf(),
            self@.len() + additional <= MAX_LEN,
        ensures
            ok == has_room(self.shape(), self@.len() as int, additional as int),
    {
        let want = self.len() + additional;
        match self {
            Data::Su8(_, _) => want <= NUM_U8,
            Data::Su16(_, _) => want <= NUM_U16,
            Data::Su32(_, _) => want <= NUM_U32,
            Data::Su64(_, _) => want <= NUM_U64,
            Data::Vu8(_, v) => fits(want, v.len()),
            Data::Vu16(_, v) => fits(want, v.len()),
            Data::Vu32(_, v) => fits(want, v.len()),
            Data::Vu64(_, v) => fits(want, v.len()),
            Data::Badu64(_, v) => fits(want, v.len() - 1),
        }
    }

    /// Adds every element of the set to `dest`, an empty set that admits
    /// them all and has room for them.
    pub fn pour_into(&self, dest: &mut Data)
        requires
            self.wf(),
            old(dest).wf(),
            old(dest)@ == Set::<u64>::empty(),
            has_room(old(dest).shape(), self@.len() as int, 0),
            max_of(self.shape()) <= max_of(old(dest).shape()),
            !self@.contains(old(dest).sentinel()),
        ensures
            final(dest).wf(),
            final(dest).shape() == old(dest).shape(),
            final(dest).sentinel() == old(dest).sentinel(),
            final(dest)@ == self@,
            final(dest).cells() == if old(dest).shape().kind is Inline {
                live_from(self.cells(), self.sentinel(), 0)
            } else {
                refilled_at(
                    old(dest).shape().width,
                    old(dest).shape().slots as int,
                    old(dest).sentinel(),
                    live_from(self.cells(), self.sentinel(), 0),
                )
            },
    {
        let n = self.rawcapacity();
        let ghost cells = self.cells();
        let ghost inv = self.sentinel();
        let mut i: usize = 0;
        proof {
            self.lemma_wf();
            dest.lemma_wf();
            assert(dest@.len() == 0);
            assert(live_from(first(cells, 0), inv, 0) =~= Seq::<u64>::empty());
            if dest.shape().kind is Inline {
                assert(dest.cells() =~= live_from(first(cells, 0), inv, 0));
            } else {
                assert forall|k: int| 0 <= k < dest.cells().len() implies dest.cells()[k]
                    == dest.sentinel() by {
                    if dest.cells()[k] != dest.sentinel() {
                        assert(dest.cells().contains(dest.cells()[k]));
                        assert(dest@.contains(dest.cells()[k]));
                    }
                }
                assert(dest.cells() =~= Seq::new(
                    dest.shape().slots as nat,
                    |k: int| dest.sentinel(),
                ));
            }
        }
        while i < n
            invariant
                self.wf(),
                dest.wf(),
                dest.shape() == old(dest).shape(),
                dest.sentinel() == old(dest).sentinel(),
                dest.cells() == if dest.shape().kind is Inline {
                    live_from(first(cells, i as int), inv, 0)
                } else {
                    refilled_at(
                        dest.shape().width,
                        dest.shape().slots as int,
                        dest.sentinel(),
                        live_from(first(cells, i as int), inv, 0),
                    )
                },
                !self@.contains(dest.sentinel()),
                has_room(dest.shape(), self@.len() as int, 0),
                max_of(self.shape()) <= max_of(dest.shape()),
                n == self.shape().slots,
                cells == self.cells(),
                inv == self.sentinel(),
                i <= n,
                forall|w: u64|
                    dest@.contains(w) <==> w != inv && exists|j: int|
                        0 <= j < i && j < cells.len() && cells[j] == w,
            decreases n - i,
        {
            proof {
                self.lemma_wf();
                dest.lemma_wf();
            }
            match self.index(i) {
                Some(x) => {
                    proof {
                        assert(cells.contains(x));
                        assert(self@.contains(x));
                        if dest@.contains(x) {
                            let j = choose|j: int| 0 <= j < i && j < cells.len() && cells[j] == x;
                            assert(cells[j] != cells[i as int]);
                        }
                        assert(dest@.insert(x).subset_of(self@)) by {
                            assert forall|w: u64| dest@.insert(x).contains(w) implies self@.contains(
                                w,
                            ) by {
                                if w != x {
                                    let j = choose|j: int|
                                        0 <= j < i && j < cells.len() && cells[j] == w;
                                    assert(cells.contains(w));
                                }
                            }
                        }
                        vstd::set_lib::lemma_len_subset(dest@.insert(x), self@);
                    }
                    let ghost before = dest@;
                    let ghost cells_before = dest.cells();
                    let ghost seen = live_from(first(cells, i as int), inv, 0);
                    let _ = dest.insert_unchecked(x);
                    proof {
                        lemma_same_sentinel(cells_before, dest.sentinel());
                        assert(seen.push(x).drop_last() =~= seen);
                        assert(seen.push(x).last() == x);
                        lemma_live_one_more(cells, inv, 0, i as int);
                        assert(first(cells, i + 1) == cells.take(i + 1));
                        assert(first(cells, i as int) == cells.take(i as int));
                        assert forall|w: u64| dest@.contains(w) <==> w != inv && exists|j: int|
                            0 <= j < i + 1 && j < cells.len() && cells[j] == w by {
                            if dest@.contains(w) {
                                if w == x {
                                    assert(cells[i as int] == w);
                                } else {
                                    assert(before.contains(w));
                                    let j = choose|j: int|
                                        0 <= j < i && j < cells.len() && cells[j] == w;
                                    assert(0 <= j < i + 1 && cells[j] == w);
                                }
                            }
                            if w != inv && exists|j: int|
                                0 <= j < i + 1 && j < cells.len() && cells[j] == w {
                                let j = choose|j: int|
                                    0 <= j < i + 1 && j < cells.len() && cells[j] == w;
                                if j < i {
                                    assert(before.contains(w));
                                }
                            }
                        }
                    }
                },
                None => {
                    proof {
                        if i < cells.len() {
                            lemma_live_one_more(cells, inv, 0, i as int);
                        }
                        assert forall|w: u64| dest@.contains(w) <==> w != inv && exists|j: int|
                            0 <= j < i + 1 && j < cells.len() && cells[j] == w by {
                            if w != inv && exists|j: int|
                                0 <= j < i + 1 && j < cells.len() && cells[j] == w {
                                let j = choose|j: int|
                                    0 <= j < i + 1 && j < cells.len() && cells[j] == w;
                                assert(j < i);
                            }
                        }
                    }
                },
            }
            i = i + 1;
        }
        proof {
            assert forall|w: u64| dest@.contains(w) <==> self@.contains(w) by {
                if self@.contains(w) {
                    let j = choose|j: int| 0 <= j < cells.len() && cells[j] == w;
                    assert(0 <= j < i && j < cells.len() && cells[j] == w);
                }
                if dest@.contains(w) {
                    let j = choose|j: int| 0 <= j < i && j < cells.len() && cells[j] == w;
                    assert(cells.contains(w));
                }
            }
            assert(dest@ =~= self@);
            assert(first(cells, i as int) =~= cells);
        }
    }

    /// Reserves capacity for at least `additional` more elements to
    /// be inserted in the set, with maximum value of `max`.  The set
    /// takes a wider or larger form where the one it has does not admit
    /// `max` or lacks the room, and keeps its elements.
    pub fn reserve_with_max(&mut self, max: u64, additional: usize)
        requires
            old(self).wf(),
            old(self)@.len() + additional <= MAX_LEN,
        ensures
            final(self).wf(),
            final(self)@ == old(self)@,
            reserved(
                old(self).shape(),
                old(self)@.len() as int,
                max,
                additional as int,
                final(self).shape(),
            ),
            max <= max_of(final(self).shape()),
            has_room(final(self).shape(), final(self)@.len() as int, additional as int),
            final(self).sentinel() == kept_sentinel(
                old(self).shape(),
                old(self).sentinel(),
                final(self).shape(),
            ),
            final(self).cells() == cells_with_room(
                old(self).shape(),
                old(self).cells(),
                old(self).sentinel(),
                final(self).shape(),
                final(self).sentinel(),
            ),
    {
        let want = self.len() + additional;
        proof {
            self.lemma_wf();
        }
        let mut grown = if max > self.current_max() {
            Data::with_max_cap(max, want)
        } else if !self.room_for(additional) {
            self.heap_like(want)
        } else {
            return ;
        };
        self.pour_into(&mut grown);
        *self = grown;
    }

    /// Reserves capacity for at least `additional` more elements to be
    /// inserted in the set.
    pub fn reserve(&mut self, additional: usize)
        requires
            old(self).wf(),
            old(self)@.len() + additional <= MAX_LEN,
        ensures
            final(self).wf(),
            final(self)@ == old(self)@,
            reserved(
                old(self).shape(),
                old(self)@.len() as int,
                0,
                additional as int,
                final(self).shape(),
            ),
            has_room(final(self).shape(), final(self)@.len() as int, additional as int),
            final(self).sentinel() == kept_sentinel(
                old(self).shape(),
                old(self).sentinel(),
                final(self).shape(),
            ),
            final(self).cells() == cells_with_room(
                old(self).shape(),
                old(self).cells(),
                old(self).sentinel(),
                final(self).shape(),
                final(self).sentinel(),
            ),
    {
        self.reserve_with_max(0, additional);
    }

    /// Adds a value to the set.
    ///
    /// If the set did not have this value present, `true` is returned.
    ///
    /// If the set did have this value present, `false` is returned.
    pub fn insert(&mut self, elem: u64) -> (r: bool)
        requires
            old(self).wf(),
            old(self)@.len() < MAX_LEN,
        ensures
            final(self).wf(),
            final(self)@ == old(self)@.insert(elem),
            r == !old(self)@.contains(elem),
            final(self)@.len() == old(self)@.len() + if r {
                1int
            } else {
                0int
            },
            reserved(old(self).shape(), old(self)@.len() as int, elem, 1, final(self).shape()),
            moved_for(
                old(self)@,
                elem,
                kept_sentinel(old(self).shape(), old(self).sentinel(), final(self).shape()),
                final(self).sentinel(),
            ),
            final(self).cells() == {
                let stale = kept_sentinel(
                    old(self).shape(),
                    old(self).sentinel(),
                    final(self).shape(),
                );
                let room = cells_with_room(
                    old(self).shape(),
                    old(self).cells(),
                    old(self).sentinel(),
                    final(self).shape(),
                    stale,
                );
                if r {
                    cells_with(final(self).shape(), room, stale, final(self).sentinel(), elem)
                } else {
                    room
                }
            },
    {
        proof {
            self.lemma_wf();
        }
        self.reserve_with_max(elem, 1);
        self.insert_unchecked(elem).is_ok()
    }
}

impl Data {
    /// Returns an iterator over the set: it gives every element once.
    pub fn iter(&self) -> (it: Iter<'_>)
        requires
            self.wf(),
        ensures
            it.wf(),
            it.remaining().no_duplicates(),
            it.remaining().to_set() == self@,
            it.remaining().len() == self@.len(),
            !it.remaining().contains(self.sentinel()),
    {
        proof {
            self.lemma_wf();
            self.lemma_count();
            lemma_live_all(self.cells(), self.sentinel());
        }
        match self {
            Data::Su8(sz, v) => {
                let slice = &v[0..*sz as usize];
                assert(slots(slice@, slice@.len() as int) =~= self.cells());
                Iter::U8 { slice, at: 0, nleft: *sz as usize }
            },
            Data::Vu8(sz, v) => { Iter::U8 { slice: v, at: 0, nleft: *sz as usize } },
            Data::Su16(sz, v) => {
                let slice = &v[0..*sz as usize];
                assert(slots(slice@, slice@.len() as int) =~= self.cells());
                Iter::U16 { slice, at: 0, nleft: *sz as usize }
            },
            Data::Vu16(sz, v) => { Iter::U16 { slice: v, at: 0, nleft: *sz as usize } },
            Data::Su32(sz, v) => {
                let slice = &v[0..*sz as usize];
                assert(slots(slice@, slice@.len() as int) =~= self.cells());
                Iter::U32 { slice, at: 0, nleft: *sz as usize }
            },
            Data::Vu32(sz, v) => { Iter::U32 { slice: v, at: 0, nleft: *sz as usize } },
            Data::Su64(sz, v) => {
                let slice = &v[0..*sz as usize];
                assert(slots(slice@, slice@.len() as int) =~= self.cells());
                Iter::U64 { invalid: 0xffff_ffff_ffff_ffff, slice, at: 0, nleft: *sz as usize }
            },
            Data::Vu64(sz, v) => {
                Iter::U64 { invalid: 0xffff_ffff_ffff_ffff, slice: v, at: 0, nleft: *sz as usize }
            },
            Data::Badu64(sz, v) => {
                let n = v.len() - 1;
                let slice = &v[0..n];
                assert(slots(slice@, slice@.len() as int) =~= self.cells());
                Iter::U64 { invalid: v[n], slice, at: 0, nleft: *sz as usize }
            },
        }
    }

    /// Clears the set, returning all elements in an iterator.  The set
    /// keeps its form.
    pub fn drain(&mut self) -> (d: Drain)
        requires
            old(self).wf(),
        ensures
            final(self).wf(),
            final(self)@ == Set::<u64>::empty(),
            final(self).shape() == old(self).shape(),
            final(self).sentinel() == sentinel_of(old(self).shape().width),
            d.wf(),
            d.remaining().no_duplicates(),
            d.remaining().to_set() == old(self)@,
            d.remaining().len() == old(self)@.len(),
    {
        let ghost cells = self.cells();
        proof {
            self.lemma_wf();
            self.lemma_count();
            lemma_live_all(self.cells(), self.sentinel());
        }
        let d = match self {
            Data::Su8(sz, v) => {
                let slice = prefix_vec(v.as_slice(), *sz as usize);
                let nleft = *sz as usize;
                *v = [0xffu8;NUM_U8];
                *sz = 0;
                assert(slots(slice@, slice@.len() as int) =~= cells);
                Drain::U8 { slice, at: 0, nleft }
            },
            Data::Vu8(sz, v) => {
                let mut taken = empty_fixed::<u8>(v.len());
                core::mem::swap(v, &mut taken);
                let nleft = *sz as usize;
                *sz = 0;
                Drain::U8 { slice: taken.into_vec(), at: 0, nleft }
            },
            Data::Su16(sz, v) => {
                let slice = prefix_vec(v.as_slice(), *sz as usize);
                let nleft = *sz as usize;
                *v = [0xffffu16;NUM_U16];
                *sz = 0;
                assert(slots(slice@, slice@.len() as int) =~= cells);
                Drain::U16 { slice, at: 0, nleft }
            },
            Data::Vu16(sz, v) => {
                let mut taken = empty_fixed::<u16>(v.len());
                core::mem::swap(v, &mut taken);
                let nleft = *sz as usize;
                *sz = 0;
                Drain::U16 { slice: taken.into_vec(), at: 0, nleft }
            },
            Data::Su32(sz, v) => {
                let slice = prefix_vec(v.as_slice(), *sz as usize);
                let nleft = *sz as usize;
                *v = [0xffff_ffffu32;NUM_U32];
                *sz = 0;
                assert(slots(slice@, slice@.len() as int) =~= cells);
                Drain::U32 { slice, at: 0, nleft }
            },
            Data::Vu32(sz, v) => {
                let mut taken = empty_fixed::<u32>(v.len());
                core::mem::swap(v, &mut taken);
                let nleft = *sz as usize;
                *sz = 0;
                Drain::U32 { slice: taken.into_vec(), at: 0, nleft }
            },
            Data::Su64(sz, v) => {
                let slice = prefix_vec(v.as_slice(), *sz as usize);
                let nleft = *sz as usize;
                *v = [0xffff_ffff_ffff_ffffu64;NUM_U64];
                *sz = 0;
                assert(slots(slice@, slice@.len() as int) =~= cells);
                Drain::U64 { invalid: 0xffff_ffff_ffff_ffff, slice, at: 0, nleft }
            },
            Data::Vu64(sz, v) => {
                let mut taken = empty_fixed::<u64>(v.len());
                core::mem::swap(v, &mut taken);
                let nleft = *sz as usize;
                *sz = 0;
                Drain::U64 { invalid: 0xffff_ffff_ffff_ffff, slice: taken.into_vec(), at: 0, nleft }
            },
            Data::Badu64(sz, v) => {
                let n = v.len() - 1;
                let mut taken = empty_movable(n, 0xffff_ffff_ffff_ffff);
                core::mem::swap(v, &mut taken);
                let nleft = *sz as usize;
                *sz = 0;
                let invalid = taken[n];
                let mut slice = taken.into_vec();
                slice.truncate(n);
                assert(slots(slice@, slice@.len() as int) =~= cells);
                Drain::U64 { invalid, slice, at: 0, nleft }
            },
        };
        proof {
            assert(self@ =~= Set::<u64>::empty());
        }
        d
    }
}

impl Data {
    /// The same form with the same cells.
    pub fn duplicate(&self) -> (s: Self)
        ensures
            s.wf() == self.wf(),
            s.shape() == self.shape(),
            s.cells() == self.cells(),
            s.sentinel() == self.sentinel(),
            s@ == self@,
    {
        match self {
            Data::Su8(sz, v) => Data::Su8(*sz, *v),
            Data::Vu8(sz, v) => Data::Vu8(*sz, copied(v)),
            Data::Su16(sz, v) => Data::Su16(*sz, *v),
            Data::Vu16(sz, v) => Data::Vu16(*sz, copied(v)),
            Data::Su32(sz, v) => Data::Su32(*sz, *v),
            Data::Vu32(sz, v) => Data::Vu32(*sz, copied(v)),
            Data::Su64(sz, v) => Data::Su64(*sz, *v),
            Data::Vu64(sz, v) => Data::Vu64(*sz, copied(v)),
            Data::Badu64(sz, v) => Data::Badu64(*sz, copied(v)),
        }
    }
}

impl Data {
    /// The map from the elements of the set to the values that stand
    /// beside them in `vals`: the value of an element is the one whose
    /// index is that of the cell of the element.
    pub open spec fn co_map<V>(self, vals: Seq<V>) -> Map<u64, V> {
        table_map(self.cells(), vals.take(self.cells().len() as int), self.sentinel())
    }

    /// Adds the key `k` to a set that admits it and has room for it, and
    /// puts `v` beside it in `vals`.  Returns the value that stood
    /// beside `k` before, if the set held `k`.
    pub fn co_insert_unchecked<V: Copy>(&mut self, vals: &mut [V], k: u64, v: V) -> (r: Option<V>)
        requires
            old(self).wf(),
            k <= max_of(old(self).shape()),
            has_room(old(self).shape(), old(self)@.len() as int, 1),
            old(vals)@.len() >= old(self).shape().slots,
        ensures
            final(self).wf(),
            final(self).shape() == old(self).shape(),
            final(vals)@.len() == old(vals)@.len(),
            final(self)@ == old(self)@.insert(k),
            r == old(self).co_map(old(vals)@).get(k),
            final(self).co_map(final(vals)@) == old(self).co_map(old(vals)@).insert(k, v),
            moved_for(old(self)@, k, old(self).sentinel(), final(self).sentinel()),
            final(self).cells() == if r.is_none() {
                cells_with(
                    old(self).shape(),
                    old(self).cells(),
                    old(self).sentinel(),
                    final(self).sentinel(),
                    k,
                )
            } else {
                old(self).cells()
            },
    {
        proof {
            self.lemma_count();
            self.lemma_wf();
            lemma_same_sentinel(self.cells(), self.sentinel());
            lemma_table_map_dom(
                self.cells(),
                vals@.take(self.cells().len() as int),
                self.sentinel(),
            );
        }
        let r = match self {
            Data::Su8(sz, keys) => {
                let r = small_map_insert(keys, vals, *sz as usize, k, v);
                if r.is_none() {
                    *sz = *sz + 1;
                }
                r
            },
            Data::Vu8(sz, keys) => {
                let r = fixed_map_insert(keys, vals, *sz as usize, k, v);
                if r.is_none() {
                    *sz = *sz + 1;
                }
                r
            },
            Data::Su16(sz, keys) => {
                let r = small_map_insert(keys, vals, *sz as usize, k, v);
                if r.is_none() {
                    *sz = *sz + 1;
                }
                r
            },
            Data::Vu16(sz, keys) => {
                let r = fixed_map_insert(keys, vals, *sz as usize, k, v);
                if r.is_none() {
                    *sz = *sz + 1;
                }
                r
            },
            Data::Su32(sz, keys) => {
                let r = small_map_insert(keys, vals, *sz as usize, k, v);
                if r.is_none() {
                    *sz = *sz + 1;
                }
                r
            },
            Data::Vu32(sz, keys) => {
                let r = fixed_map_insert(keys, vals, *sz as usize, k, v);
                if r.is_none() {
                    *sz = *sz + 1;
                }
                r
            },
            Data::Su64(sz, keys) => {
                let r = small_map_insert(keys, vals, *sz as usize, k, v);
                if r.is_none() {
                    *sz = *sz + 1;
                }
                r
            },
            Data::Vu64(sz, keys) => {
                let r = fixed_map_insert(keys, vals, *sz as usize, k, v);
                if r.is_none() {
                    *sz = *sz + 1;
                }
                r
            },
            Data::Badu64(sz, keys) => {
                let r = movable_map_insert(keys, vals, *sz as usize, k, v);
                if r.is_none() {
                    *sz = *sz + 1;
                }
                r
            },
        };
        proof {
            lemma_table_map_dom(
                self.cells(),
                vals@.take(self.cells().len() as int),
                self.sentinel(),
            );
            assert(self@ =~= old(self)@.insert(k));
        }
        r
    }

    /// Takes the key `k` out of the set if it is there.  The values in
    /// `vals` move as the keys beside them do.  Returns the value that
    /// stood beside `k`.
    pub fn co_remove<V: Copy>(&mut self, vals: &mut [V], k: u64) -> (r: Option<V>)
        requires
            old(self).wf(),
            old(vals)@.len() >= old(self).shape().slots,
        ensures
            final(self).wf(),
            final(self).shape() == old(self).shape(),
            final(vals)@.len() == old(vals)@.len(),
            final(self)@ == old(self)@.remove(k),
            r == old(self).co_map(old(vals)@).get(k),
            final(self).co_map(final(vals)@) == old(self).co_map(old(vals)@).remove(k),
            final(self).sentinel() == old(self).sentinel(),
            final(self).cells() == if r.is_some() {
                cells_without(old(self).shape(), old(self).cells(), old(self).sentinel(), k)
            } else {
                old(self).cells()
            },
    {
        proof {
            self.lemma_count();
            self.lemma_wf();
            lemma_table_map_dom(
                self.cells(),
                vals@.take(self.cells().len() as int),
                self.sentinel(),
            );
        }
        let r = match self {
            Data::Su8(sz, keys) => {
                let r = small_map_remove(keys, vals, *sz as usize, k);
                if r.is_some() {
                    *sz = *sz - 1;
                }
                r
            },
            Data::Vu8(sz, keys) => {
                let r = fixed_map_remove(keys, vals, *sz as usize, k);
                if r.is_some() {
                    *sz = *sz - 1;
                }
                r
            },
            Data::Su16(sz, keys) => {
                let r = small_map_remove(keys, vals, *sz as usize, k);
                if r.is_some() {
                    *sz = *sz - 1;
                }
                r
            },
            Data::Vu16(sz, keys) => {
                let r = fixed_map_remove(keys, vals, *sz as usize, k);
                if r.is_some() {
                    *sz = *sz - 1;
                }
                r
            },
            Data::Su32(sz, keys) => {
                let r = small_map_remove(keys, vals, *sz as usize, k);
                if r.is_some() {
                    *sz = *sz - 1;
                }
                r
            },
            Data::Vu32(sz, keys) => {
                let r = fixed_map_remove(keys, vals, *sz as usize, k);
                if r.is_some() {
                    *sz = *sz - 1;
                }
                r
            },
            Data::Su64(sz, keys) => {
                let r = small_map_remove(keys, vals, *sz as usize, k);
                if r.is_some() {
                    *sz = *sz - 1;
                }
                r
            },
            Data::Vu64(sz, keys) => {
                let r = fixed_map_remove(keys, vals, *sz as usize, k);
                if r.is_some() {
                    *sz = *sz - 1;
                }
                r
            },
            Data::Badu64(sz, keys) => {
                let r = movable_map_remove(keys, vals, *sz as usize, k);
                if r.is_some() {
                    *sz = *sz - 1;
                }
                r
            },
        };
        proof {
            lemma_table_map_dom(
                self.cells(),
                vals@.take(self.cells().len() as int),
                self.sentinel(),
            );
            assert(self@ =~= old(self)@.remove(k));
        }
        r
    }

    /// Creates a set with the elements of `items`.
    pub fn from_iter(items: &[u64]) -> (s: Data)
        requires
            items@.len() <= MAX_LEN,
        ensures
            s.wf(),
            s@ == items@.to_set(),
    {
        let mut c = Data::with_capacity(items.len());
        let mut i: usize = 0;
        assert(c@ =~= items@.take(0).to_set());
        while i < items.len()
            invariant
                i <= items@.len() <= MAX_LEN,
                c.wf(),
                c@ == items@.take(i as int).to_set(),
                c@.len() <= i,
            decreases items@.len() - i,
        {
            c.insert(items[i]);
            proof {
                lemma_take_one_more(items@, i as int);
            }
            i = i + 1;
        }
        assert(items@.take(i as int) =~= items@);
        c
    }
}

} // verus!
