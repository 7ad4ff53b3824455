//! The eight forms of a map from 64-bit words to 64-bit words, and the
//! operations on each of them.
//!
//! For each key width of 8, 16 and 32 bits there is an inline form,
//! whose values are bytes, and a heap form, whose values have the width
//! of the keys.  For keys of 64 bits there is an inline form and a heap
//! form whose sentinel moves.

use crate::capacity::{capacity_to_rawcapacity, fits, is_pow2, MAX_LEN};
use crate::heap::{empty_fixed, empty_movable, fixed_ok, movable_ok};
use crate::mapforms::{
    entries, fixed_get, fixed_put, fixed_take, inline_get, inline_put, inline_take, movable_get,
    movable_put, movable_take,
};
use crate::model::{
    distinct, first, lemma_live_one_more, lemma_live_set_finite, lemma_ordered_robin_hood,
    lemma_same_sentinel, lemma_table_map_at, lemma_table_map_dom, live_from, live_set, moved_for,
    slots, table_map,
};
use crate::shape::{
    cells_with, cells_with_room, cells_without, empty_cells, has_room, kept_sentinel, larger,
    lemma_made_for_admits, map_admits, map_inline_cells, map_made_for, map_made_for_capacity,
    map_reserved, max_of, max_value_of, refilled_at, robin_hood_at, sentinel_of, Kind, Shape, Width,
};
use crate::slot::HasInvalid;
use crate::small::{lemma_small_live, small_ok};
use crate::storage::{copied, filled};
use vstd::prelude::*;

verus! {

/// The number of cells of the inline form of 8-bit keys.
pub const MAP_NUM_U8: usize = 23;

/// The number of cells of the inline form of 16-bit keys.
pub const MAP_NUM_U16: usize = 15;

/// The number of cells of the inline form of 32-bit keys.
pub const MAP_NUM_U32: usize = 9;

/// The number of cells of the inline form of 64-bit keys.
pub const MAP_NUM_U64: usize = 4;

/// The storage of a map, in the form that the map has.  Each form holds
/// the number of entries, the keys, and the values beside them.
#[derive(Debug)]
#[allow(inconsistent_fields)]
pub enum MapData {
    /// Inline, 8-bit keys, values of a byte.
    Su8 { sz: u8, keys: [u8; MAP_NUM_U8], vals: [u8; MAP_NUM_U8] },
    /// On the heap, 8-bit keys and values.
    Vu8 { sz: u8, keys: Box<[u8]>, vals: Box<[u8]> },
    /// Inline, 16-bit keys, values of a byte.
    Su16 { sz: u8, keys: [u16; MAP_NUM_U16], vals: [u8; MAP_NUM_U16] },
    /// On the heap, 16-bit keys and values.
    Vu16 { sz: u16, keys: Box<[u16]>, vals: Box<[u16]> },
    /// Inline, 32-bit keys, values of a byte.
    Su32 { sz: u8, keys: [u32; MAP_NUM_U32], vals: [u8; MAP_NUM_U32] },
    /// On the heap, 32-bit keys and values.
    Vu32 { sz: u32, keys: Box<[u32]>, vals: Box<[u32]> },
    /// Inline, 64-bit keys, values of a byte.
    Su64 { sz: u64, keys: [u64; MAP_NUM_U64], vals: [u8; MAP_NUM_U64] },
    /// On the heap, 64-bit keys and values, under a sentinel that moves: the
    /// last cell of the keys keeps the sentinel.
    Vu64 { sz: u64, keys: Box<[u64]>, vals: Box<[u64]> },
}

impl View for MapData {
    type V = Map<u64, u64>;

    open spec fn view(&self) -> Map<u64, u64> {
        table_map(self.cells(), self.values(), self.sentinel())
    }
}

impl MapData {
    /// The form.
    pub closed spec fn shape(self) -> Shape {
        match self {
            MapData::Su8 { sz, keys, vals } => Shape {
                width: Width::W8,
                kind: Kind::Inline,
                slots: MAP_NUM_U8,
            },
            MapData::Vu8 { sz, keys, vals } => Shape {
                width: Width::W8,
                kind: Kind::Heap,
                slots: keys@.len() as usize,
            },
            MapData::Su16 { sz, keys, vals } => Shape {
                width: Width::W16,
                kind: Kind::Inline,
                slots: MAP_NUM_U16,
            },
            MapData::Vu16 { sz, keys, vals } => Shape {
                width: Width::W16,
                kind: Kind::Heap,
                slots: keys@.len() as usize,
            },
            MapData::Su32 { sz, keys, vals } => Shape {
                width: Width::W32,
                kind: Kind::Inline,
                slots: MAP_NUM_U32,
            },
            MapData::Vu32 { sz, keys, vals } => Shape {
                width: Width::W32,
                kind: Kind::Heap,
                slots: keys@.len() as usize,
            },
            MapData::Su64 { sz, keys, vals } => Shape {
                width: Width::W64,
                kind: Kind::Inline,
                slots: MAP_NUM_U64,
            },
            MapData::Vu64 { sz, keys, vals } => Shape {
                width: Width::W64,
                kind: Kind::Movable,
                slots: (keys@.len() - 1) as usize,
            },
        }
    }

    /// The keys in the cells: for an inline form those of the cells in
    /// use, for a heap form those of the slots of the table.
    pub closed spec fn cells(self) -> Seq<u64> {
        match self {
            MapData::Su8 { sz, keys, vals } => slots(keys@, sz as int),
            MapData::Vu8 { sz, keys, vals } => slots(keys@, keys@.len() as int),
            MapData::Su16 { sz, keys, vals } => slots(keys@, sz as int),
            MapData::Vu16 { sz, keys, vals } => slots(keys@, keys@.len() as int),
            MapData::Su32 { sz, keys, vals } => slots(keys@, sz as int),
            MapData::Vu32 { sz, keys, vals } => slots(keys@, keys@.len() as int),
            MapData::Su64 { sz, keys, vals } => slots(keys@, sz as int),
            MapData::Vu64 { sz, keys, vals } => slots(keys@, keys@.len() - 1),
        }
    }

    /// The values beside the cells of the keys.
    pub closed spec fn values(self) -> Seq<u64> {
        match self {
            MapData::Su8 { sz, keys, vals } => slots(vals@, sz as int),
            MapData::Vu8 { sz, keys, vals } => slots(vals@, keys@.len() as int),
            MapData::Su16 { sz, keys, vals } => slots(vals@, sz as int),
            MapData::Vu16 { sz, keys, vals } => slots(vals@, keys@.len() as int),
            MapData::Su32 { sz, keys, vals } => slots(vals@, sz as int),
            MapData::Vu32 { sz, keys, vals } => slots(vals@, keys@.len() as int),
            MapData::Su64 { sz, keys, vals } => slots(vals@, sz as int),
            MapData::Vu64 { sz, keys, vals } => slots(vals@, keys@.len() - 1),
        }
    }

    /// The word that marks an empty slot.
    pub closed spec fn sentinel(self) -> u64 {
        match self {
            MapData::Vu64 { sz, keys, vals } => keys@[keys@.len() - 1],
            _ => sentinel_of(self.shape().width),
        }
    }

    /// The number that the form keeps as the number of its entries.
    pub closed spec fn count(self) -> int {
        match self {
            MapData::Su8 { sz, keys, vals } => sz as int,
            MapData::Vu8 { sz, keys, vals } => sz as int,
            MapData::Su16 { sz, keys, vals } => sz as int,
            MapData::Vu16 { sz, keys, vals } => sz as int,
            MapData::Su32 { sz, keys, vals } => sz as int,
            MapData::Vu32 { sz, keys, vals } => sz as int,
            MapData::Su64 { sz, keys, vals } => sz as int,
            MapData::Vu64 { sz, keys, vals } => sz as int,
        }
    }

    /// The invariant: that of the form, and the form admits every entry.
    pub closed spec fn wf(self) -> bool {
        &&& self.forms_ok()
        &&& forall|k: u64|
            self@.dom().contains(k) ==> map_admits(self.shape(), k, #[trigger] self@[k])
    }

    /// The invariant of the form, on its keys, its values and its count.
    pub closed spec fn forms_ok(self) -> bool {
        match self {
            MapData::Su8 { sz, keys, vals } => small_ok::<u8>(keys@, sz as int),
            MapData::Vu8 { sz, keys, vals } => fixed_ok::<u8>(keys@, sz as int)
                && vals@.len() == keys@.len(),
            MapData::Su16 { sz, keys, vals } => small_ok::<u16>(keys@, sz as int),
            MapData::Vu16 { sz, keys, vals } => fixed_ok::<u16>(keys@, sz as int)
                && vals@.len() == keys@.len(),
            MapData::Su32 { sz, keys, vals } => small_ok::<u32>(keys@, sz as int),
            MapData::Vu32 { sz, keys, vals } => fixed_ok::<u32>(keys@, sz as int)
                && vals@.len() == keys@.len(),
            MapData::Su64 { sz, keys, vals } => small_ok::<u64>(keys@, sz as int),
            MapData::Vu64 { sz, keys, vals } => movable_ok(keys@, sz as int)
                && vals@.len() == keys@.len() - 1,
        }
    }

    /// What the invariant says of the model.
    pub proof fn lemma_wf(self)
        requires
            self.wf(),
        ensures
            self@.dom() == live_set(self.cells(), self.sentinel()),
            self@.dom().finite(),
            self@.dom().len() == self.count(),
            self.cells().len() == self.values().len(),
            forall|k: u64|
                self@.dom().contains(k) ==> map_admits(self.shape(), k, #[trigger] self@[k]),
            has_room(self.shape(), self.count(), 0),
            self.shape().kind is Inline ==> self.cells().len() == self.count()
                && !self.cells().contains(self.sentinel()) && self.shape().slots
                == map_inline_cells(self.shape().width),
            !(self.shape().kind is Inline) ==> self.cells().len() == self.shape().slots && is_pow2(
                self.shape().slots as int,
            ),
            distinct(self.cells(), self.sentinel()),
    {
        lemma_live_set_finite(self.cells(), self.sentinel());
        lemma_table_map_dom(self.cells(), self.values(), self.sentinel());
        match self {
            MapData::Su8 { sz, keys, vals } => {
                lemma_small_live::<u8>(keys@, sz as int);
                lemma_below::<u8>(keys@, sz as int);
            },
            MapData::Vu8 { sz, keys, vals } => lemma_below::<u8>(keys@, keys@.len() as int),
            MapData::Su16 { sz, keys, vals } => {
                lemma_small_live::<u16>(keys@, sz as int);
                lemma_below::<u16>(keys@, sz as int);
            },
            MapData::Vu16 { sz, keys, vals } => lemma_below::<u16>(keys@, keys@.len() as int),
            MapData::Su32 { sz, keys, vals } => {
                lemma_small_live::<u32>(keys@, sz as int);
                lemma_below::<u32>(keys@, sz as int);
            },
            MapData::Vu32 { sz, keys, vals } => lemma_below::<u32>(keys@, keys@.len() as int),
            MapData::Su64 { sz, keys, vals } => {
                lemma_small_live::<u64>(keys@, sz as int);
                lemma_below::<u64>(keys@, sz as int);
            },
            MapData::Vu64 { sz, keys, vals } => {},
        }
    }
}

impl MapData {
    /// An empty map has the cells of an empty form.
    pub proof fn lemma_empty_cells(self)
        requires
            self.wf(),
            self@ == Map::<u64, u64>::empty(),
        ensures
            self.cells() == empty_cells(self.shape(), self.sentinel()),
    {
        self.lemma_wf();
        assert forall|k: int| 0 <= k < self.cells().len() implies self.cells()[k]
            == self.sentinel() by {
            if self.cells()[k] != self.sentinel() {
                assert(self.cells().contains(self.cells()[k]));
                assert(self@.dom().contains(self.cells()[k]));
            }
        }
        assert(self.cells() =~= empty_cells(self.shape(), self.sentinel()));
    }

    /// In every heap form the table of the keys has the Robin-Hood
    /// ordering.
    pub proof fn lemma_robin_hood(self)
        requires
            self.wf(),
            !(self.shape().kind is Inline),
        ensures
            robin_hood_at(self.shape().width, self.cells(), self.sentinel()),
    {
        match self {
            MapData::Vu8 { .. } => lemma_ordered_robin_hood::<u8>(self.cells(), self.sentinel()),
            MapData::Vu16 { .. } => lemma_ordered_robin_hood::<u16>(self.cells(), self.sentinel()),
            MapData::Vu32 { .. } => lemma_ordered_robin_hood::<u32>(self.cells(), self.sentinel()),
            MapData::Vu64 { .. } => lemma_ordered_robin_hood::<u64>(self.cells(), self.sentinel()),
            _ => {},
        }
    }
}

/// The live words of cells that hold the fixed sentinel of their width
/// where they are empty lie below that sentinel.
proof fn lemma_below<K: HasInvalid>(cells: Seq<K>, n: int)
    requires
        0 <= n <= cells.len(),
    ensures
        forall|w: u64| live_set(slots(cells, n), K::spec_invalid()).contains(w) ==> w
            < K::spec_invalid(),
{
    let p = slots(cells, n);
    assert forall|w: u64| live_set(p, K::spec_invalid()).contains(w) implies w
        < K::spec_invalid() by {
        let i = choose|i: int| 0 <= i < p.len() && p[i] == w;
        cells[i].lemma_word_range();
    }
}

/// A map over keys of which none is live holds nothing.
proof fn lemma_no_entries(t: Seq<u64>, u: Seq<u64>, inv: u64)
    requires
        live_set(t, inv) == Set::<u64>::empty(),
    ensures
        table_map(t, u, inv) == Map::<u64, u64>::empty(),
{
    lemma_table_map_dom(t, u, inv);
    assert(table_map(t, u, inv) =~= Map::<u64, u64>::empty());
}

impl MapData {
    /// An empty heap form with keys of the given width and the given
    /// number of slots.  Where the keys have 64 bits, `invalid` is the
    /// sentinel.
    fn heap_of(width: Width, n: usize, invalid: u64) -> (d: MapData)
        requires
            1 <= n <= 0x8000_0000,
            is_pow2(n as int),
        ensures
            d.wf(),
            d@ == Map::<u64, u64>::empty(),
            d.sentinel() == if width is W64 {
                invalid
            } else {
                sentinel_of(width)
            },
            d.shape().width == width,
            d.shape().kind == if width is W64 {
                Kind::Movable
            } else {
                Kind::Heap
            },
            d.shape().slots == n,
    {
        let d = match width {
            Width::W8 => MapData::Vu8 { sz: 0, keys: empty_fixed(n), vals: filled(0u8, n) },
            Width::W16 => MapData::Vu16 { sz: 0, keys: empty_fixed(n), vals: filled(0u16, n) },
            Width::W32 => MapData::Vu32 { sz: 0, keys: empty_fixed(n), vals: filled(0u32, n) },
            Width::W64 => MapData::Vu64 {
                sz: 0,
                keys: empty_movable(n, invalid),
                vals: filled(0u64, n),
            },
        };
        proof {
            lemma_no_entries(d.cells(), d.values(), d.sentinel());
        }
        d
    }

    /// An empty inline form with keys of the given width.
    fn inline_of(width: Width) -> (d: MapData)
        ensures
            d.wf(),
            d@ == Map::<u64, u64>::empty(),
            d.shape() == (Shape {
                width,
                kind: Kind::Inline,
                slots: map_inline_cells(width) as usize,
            }),
            d.sentinel() == sentinel_of(width),
    {
        let d = match width {
            Width::W8 => MapData::Su8 { sz: 0, keys: [0xffu8;MAP_NUM_U8], vals: [0u8;MAP_NUM_U8] },
            Width::W16 => MapData::Su16 {
                sz: 0,
                keys: [0xffffu16;MAP_NUM_U16],
                vals: [0u8;MAP_NUM_U16],
            },
            Width::W32 => MapData::Su32 {
                sz: 0,
                keys: [0xffff_ffffu32;MAP_NUM_U32],
                vals: [0u8;MAP_NUM_U32],
            },
            Width::W64 => MapData::Su64 {
                sz: 0,
                keys: [0xffff_ffff_ffff_ffffu64;MAP_NUM_U64],
                vals: [0u8;MAP_NUM_U64],
            },
        };
        proof {
            assert(live_set(d.cells(), d.sentinel()) =~= Set::<u64>::empty());
            lemma_no_entries(d.cells(), d.values(), d.sentinel());
        }
        d
    }

    /// The width of the keys.
    fn width(&self) -> (w: Width)
        ensures
            w == self.shape().width,
    {
        match self {
            MapData::Su8 { .. } => Width::W8,
            MapData::Vu8 { .. } => Width::W8,
            MapData::Su16 { .. } => Width::W16,
            MapData::Vu16 { .. } => Width::W16,
            MapData::Su32 { .. } => Width::W32,
            MapData::Vu32 { .. } => Width::W32,
            MapData::Su64 { .. } => Width::W64,
            MapData::Vu64 { .. } => Width::W64,
        }
    }

    /// Creates an empty map with the specified capacity.
    pub fn with_capacity(cap: usize) -> (d: MapData)
        requires
            cap <= MAX_LEN,
        ensures
            d.wf(),
            d@ == Map::<u64, u64>::empty(),
            map_made_for_capacity(cap as int, d.shape()),
            d.sentinel() == sentinel_of(d.shape().width),
    {
        let nextcap = capacity_to_rawcapacity(cap);
        if cap <= MAP_NUM_U8 {
            MapData::inline_of(Width::W8)
        } else if cap < 0xff {
            MapData::heap_of(Width::W8, nextcap, 0xffff_ffff_ffff_ffff)
        } else if cap < 0xffff {
            MapData::heap_of(Width::W16, nextcap, 0xffff_ffff_ffff_ffff)
        } else if cap < 0xffff_ffff {
            MapData::heap_of(Width::W32, nextcap, 0xffff_ffff_ffff_ffff)
        } else {
            MapData::heap_of(Width::W64, nextcap, 0xffff_ffff_ffff_ffff)
        }
    }

    /// Creates an empty map with the specified capacity, for keys up to
    /// `max_k` and values up to `max_v`.
    pub fn with_maxes_cap(max_k: u64, max_v: u64, cap: usize) -> (d: MapData)
        requires
            cap <= MAX_LEN,
        ensures
            d.wf(),
            d@ == Map::<u64, u64>::empty(),
            map_made_for(max_k, max_v, cap as int, d.shape()),
            d.sentinel() == sentinel_of(d.shape().width),
    {
        let max_k = if max_k > max_v {
            max_k
        } else {
            max_v
        };
        let nextcap = capacity_to_rawcapacity(cap);
        if max_k < 0xff {
            if cap <= 22 && max_v < 256 {
                MapData::inline_of(Width::W8)
            } else {
                MapData::heap_of(Width::W8, nextcap, 0xffff_ffff_ffff_ffff)
            }
        } else if max_k < 0xffff {
            if cap <= 11 && max_v < 256 {
                MapData::inline_of(Width::W16)
            } else {
                MapData::heap_of(Width::W16, nextcap, 0xffff_ffff_ffff_ffff)
            }
        } else if max_k < 0xffff_ffff {
            if cap <= 5 && max_v < 256 {
                MapData::inline_of(Width::W32)
            } else {
                MapData::heap_of(Width::W32, nextcap, 0xffff_ffff_ffff_ffff)
            }
        } else {
            if cap <= 2 && max_v < 256 && max_k < 0xffff_ffff_ffff_ffff {
                MapData::inline_of(Width::W64)
            } else {
                MapData::heap_of(Width::W64, nextcap, 0xffff_ffff_ffff_ffff)
            }
        }
    }

    /// Returns the number of entries in the map.
    pub fn len(&self) -> (n: usize)
        requires
            self.wf(),
        ensures
            n == self@.dom().len(),
            n == self.count(),
    {
        proof {
            self.lemma_wf();
        }
        match self {
            MapData::Su8 { sz, keys: _, vals: _ } => *sz as usize,
            MapData::Vu8 { sz, keys: _, vals: _ } => *sz as usize,
            MapData::Su16 { sz, keys: _, vals: _ } => *sz as usize,
            MapData::Vu16 { sz, keys: _, vals: _ } => *sz as usize,
            MapData::Su32 { sz, keys: _, vals: _ } => *sz as usize,
            MapData::Vu32 { sz, keys: _, vals: _ } => *sz as usize,
            MapData::Su64 { sz, keys: _, vals: _ } => *sz as usize,
            MapData::Vu64 { sz, keys: _, vals: _ } => *sz as usize,
        }
    }

    /// Returns the number of slots: the cells of the inline arrays, or
    /// the slots of the table.
    pub fn rawcapacity(&self) -> (n: usize)
        requires
            self.wf(),
        ensures
            n == self.shape().slots,
    {
        match self {
            MapData::Su8 { .. } => MAP_NUM_U8,
            MapData::Vu8 { sz: _, keys, vals: _ } => keys.len(),
            MapData::Su16 { .. } => MAP_NUM_U16,
            MapData::Vu16 { sz: _, keys, vals: _ } => keys.len(),
            MapData::Su32 { .. } => MAP_NUM_U32,
            MapData::Vu32 { sz: _, keys, vals: _ } => keys.len(),
            MapData::Su64 { .. } => MAP_NUM_U64,
            MapData::Vu64 { sz: _, keys, vals: _ } => keys.len() - 1,
        }
    }

    /// Returns the word that marks an empty slot.
    pub fn invalid(&self) -> (inv: u64)
        requires
            self.wf(),
        ensures
            inv == self.sentinel(),
    {
        match self {
            MapData::Su8 { .. } => 0xff,
            MapData::Vu8 { .. } => 0xff,
            MapData::Su16 { .. } => 0xffff,
            MapData::Vu16 { .. } => 0xffff,
            MapData::Su32 { .. } => 0xffff_ffff,
            MapData::Vu32 { .. } => 0xffff_ffff,
            MapData::Su64 { .. } => 0xffff_ffff_ffff_ffff,
            MapData::Vu64 { sz: _, keys, vals: _ } => keys[keys.len() - 1],
        }
    }

    /// Returns the largest key that the map admits in the form it has.
    pub fn current_max(&self) -> (max: u64)
        ensures
            max == max_of(self.shape()),
    {
        match self {
            MapData::Su8 { .. } => 0xfe,
            MapData::Vu8 { .. } => 0xfe,
            MapData::Su16 { .. } => 0xfffe,
            MapData::Vu16 { .. } => 0xfffe,
            MapData::Su32 { .. } => 0xffff_fffe,
            MapData::Vu32 { .. } => 0xffff_fffe,
            MapData::Su64 { .. } => 0xffff_ffff_ffff_fffe,
            MapData::Vu64 { .. } => 0xffff_ffff_ffff_ffff,
        }
    }

    /// Returns the largest value that the map holds in the form it has.
    pub fn max_value(&self) -> (max: u64)
        ensures
            max == max_value_of(self.shape()),
    {
        match self {
            MapData::Su8 { .. } => 255,
            MapData::Vu8 { .. } => 0xfe,
            MapData::Su16 { .. } => 255,
            MapData::Vu16 { .. } => 0xfffe,
            MapData::Su32 { .. } => 255,
            MapData::Vu32 { .. } => 0xffff_fffe,
            MapData::Su64 { .. } => 255,
            MapData::Vu64 { .. } => 0xffff_ffff_ffff_ffff,
        }
    }

    /// Whether the map, in the form it has, admits the key `k` with the
    /// value `v`.
    fn admits(&self, k: u64, v: u64) -> (ok: bool)
        ensures
            ok == map_admits(self.shape(), k, v),
    {
        let m = if k > v {
            k
        } else {
            v
        };
        match self {
            MapData::Su8 { .. } => m < 0xff && v <= 255,
            MapData::Vu8 { .. } => m < 0xff,
            MapData::Su16 { .. } => m < 0xffff && v <= 255,
            MapData::Vu16 { .. } => m < 0xffff,
            MapData::Su32 { .. } => m < 0xffff_ffff && v <= 255,
            MapData::Vu32 { .. } => m < 0xffff_ffff,
            MapData::Su64 { .. } => m < 0xffff_ffff_ffff_ffff && v <= 255,
            MapData::Vu64 { .. } => true,
        }
    }

    /// Whether the map, in the form it has, has room for `additional`
    /// more entries.
    fn room_for(&self, additional: usize) -> (ok: bool)
        requires
            self.wf(),
            self.count() + additional <= MAX_LEN,
        ensures
            ok == has_room(self.shape(), self.count(), additional as int),
    {
        let want = self.len() + additional;
        match self {
            MapData::Su8 { .. } => want <= MAP_NUM_U8,
            MapData::Vu8 { sz: _, keys, vals: _ } => fits(want, keys.len()),
            MapData::Su16 { .. } => want <= MAP_NUM_U16,
            MapData::Vu16 { sz: _, keys, vals: _ } => fits(want, keys.len()),
            MapData::Su32 { .. } => want <= MAP_NUM_U32,
            MapData::Vu32 { sz: _, keys, vals: _ } => fits(want, keys.len()),
            MapData::Su64 { .. } => want <= MAP_NUM_U64,
            MapData::Vu64 { sz: _, keys, vals: _ } => fits(want, keys.len() - 1),
        }
    }

    /// Returns the entry in cell `i`, if the cell holds one.
    pub fn entry(&self, i: usize) -> (r: Option<(u64, u64)>)
        requires
            self.wf(),
            self.shape().kind is Inline || i < self.shape().slots,
        ensures
            r == if i < self.cells().len() && self.cells()[i as int] != self.sentinel() {
                Some((self.cells()[i as int], self.values()[i as int]))
            } else {
                None
            },
    {
        proof {
            self.lemma_wf();
        }
        match self {
            MapData::Su8 { sz, keys, vals } => if i < *sz as usize {
                assert(self.cells()[i as int] != self.sentinel()) by {
                    if self.cells()[i as int] == self.sentinel() {
                        assert(self.cells().contains(self.sentinel()));
                    }
                }
                Some((keys[i] as u64, vals[i] as u64))
            } else {
                None
            },
            MapData::Vu8 { sz: _, keys, vals } => if keys[i] != 0xff {
                Some((keys[i] as u64, vals[i] as u64))
            } else {
                None
            },
            MapData::Su16 { sz, keys, vals } => if i < *sz as usize {
                assert(self.cells()[i as int] != self.sentinel()) by {
                    if self.cells()[i as int] == self.sentinel() {
                        assert(self.cells().contains(self.sentinel()));
                    }
                }
                Some((keys[i] as u64, vals[i] as u64))
            } else {
                None
            },
            MapData::Vu16 { sz: _, keys, vals } => if keys[i] != 0xffff {
                Some((keys[i] as u64, vals[i] as u64))
            } else {
                None
            },
            MapData::Su32 { sz, keys, vals } => if i < *sz as usize {
                assert(self.cells()[i as int] != self.sentinel()) by {
                    if self.cells()[i as int] == self.sentinel() {
                        assert(self.cells().contains(self.sentinel()));
                    }
                }
                Some((keys[i] as u64, vals[i] as u64))
            } else {
                None
            },
            MapData::Vu32 { sz: _, keys, vals } => if keys[i] != 0xffff_ffff {
                Some((keys[i] as u64, vals[i] as u64))
            } else {
                None
            },
            MapData::Su64 { sz, keys, vals } => if i < *sz as usize {
                assert(self.cells()[i as int] != self.sentinel()) by {
                    if self.cells()[i as int] == self.sentinel() {
                        assert(self.cells().contains(self.sentinel()));
                    }
                }
                Some((keys[i] as u64, vals[i] as u64))
            } else {
                None
            },
            MapData::Vu64 { sz: _, keys, vals } => if keys[i] != keys[keys.len() - 1] {
                Some((keys[i], vals[i]))
            } else {
                None
            },
        }
    }

    /// Returns the value that `k` is mapped to, if any.
    pub fn get(&self, k: u64) -> (r: Option<u64>)
        requires
            self.wf(),
        ensures
            r == self@.get(k),
    {
        match self {
            MapData::Su8 { sz, keys, vals } => inline_get(
                keys.as_slice(),
                vals.as_slice(),
                *sz as usize,
                k,
            ),
            MapData::Vu8 { sz, keys, vals } => fixed_get(keys, vals, *sz as usize, k),
            MapData::Su16 { sz, keys, vals } => inline_get(
                keys.as_slice(),
                vals.as_slice(),
                *sz as usize,
                k,
            ),
            MapData::Vu16 { sz, keys, vals } => fixed_get(keys, vals, *sz as usize, k),
            MapData::Su32 { sz, keys, vals } => inline_get(
                keys.as_slice(),
                vals.as_slice(),
                *sz as usize,
                k,
            ),
            MapData::Vu32 { sz, keys, vals } => fixed_get(keys, vals, *sz as usize, k),
            MapData::Su64 { sz, keys, vals } => inline_get(
                keys.as_slice(),
                vals.as_slice(),
                *sz as usize,
                k,
            ),
            MapData::Vu64 { sz, keys, vals } => movable_get(keys, vals, *sz as usize, k),
        }
    }

    /// Maps `k` to `v` in a map that admits them and has room for them,
    /// and returns the value that `k` was mapped to before, if any.
    pub fn insert_unchecked(&mut self, k: u64, v: u64) -> (r: Option<u64>)
        requires
            old(self).wf(),
            map_admits(old(self).shape(), k, v),
            has_room(old(self).shape(), old(self).count(), 1),
        ensures
            final(self).wf(),
            final(self).shape() == old(self).shape(),
            final(self)@ == old(self)@.insert(k, v),
            r == old(self)@.get(k),
            moved_for(old(self)@.dom(), k, old(self).sentinel(), final(self).sentinel()),
            final(self).cells() == if r.is_none() {
                cells_with(
                    old(self).shape(),
                    old(self).cells(),
                    old(self).sentinel(),
                    final(self).sentinel(),
                    k,
                )
            } else {
                old(self).cells()
            },
    {
        proof {
            self.lemma_wf();
            lemma_same_sentinel(self.cells(), self.sentinel());
        }
        match self {
            MapData::Su8 { sz, keys, vals } => {
                let r = inline_put(keys, vals, *sz as usize, k, v);
                if r.is_none() {
                    *sz = *sz + 1;
                }
                r
            },
            MapData::Vu8 { sz, keys, vals } => {
                let r = fixed_put(keys, vals, *sz as usize, k, v);
                if r.is_none() {
                    *sz = *sz + 1;
                }
                r
            },
            MapData::Su16 { sz, keys, vals } => {
                let r = inline_put(keys, vals, *sz as usize, k, v);
                if r.is_none() {
                    *sz = *sz + 1;
                }
                r
            },
            MapData::Vu16 { sz, keys, vals } => {
                let r = fixed_put(keys, vals, *sz as usize, k, v);
                if r.is_none() {
                    *sz = *sz + 1;
                }
                r
            },
            MapData::Su32 { sz, keys, vals } => {
                let r = inline_put(keys, vals, *sz as usize, k, v);
                if r.is_none() {
                    *sz = *sz + 1;
                }
                r
            },
            MapData::Vu32 { sz, keys, vals } => {
                let r = fixed_put(keys, vals, *sz as usize, k, v);
                if r.is_none() {
                    *sz = *sz + 1;
                }
                r
            },
            MapData::Su64 { sz, keys, vals } => {
                let r = inline_put(keys, vals, *sz as usize, k, v);
                if r.is_none() {
                    *sz = *sz + 1;
                }
                r
            },
            MapData::Vu64 { sz, keys, vals } => {
                let r = movable_put(keys, vals, *sz as usize, k, v);
                if r.is_none() {
                    *sz = *sz + 1;
                }
                r
            },
        }
    }

    /// Takes the entry of `k` out of the map if there is one, and
    /// returns its value.
    pub fn remove(&mut self, k: u64) -> (r: Option<u64>)
        requires
            old(self).wf(),
        ensures
            final(self).wf(),
            final(self).shape() == old(self).shape(),
            final(self).sentinel() == old(self).sentinel(),
            final(self)@ == old(self)@.remove(k),
            r == old(self)@.get(k),
            final(self).cells() == if r.is_some() {
                cells_without(old(self).shape(), old(self).cells(), old(self).sentinel(), k)
            } else {
                old(self).cells()
            },
    {
        match self {
            MapData::Su8 { sz, keys, vals } => {
                let r = inline_take(keys, vals, *sz as usize, k);
                if r.is_some() {
                    *sz = *sz - 1;
                }
                r
            },
            MapData::Vu8 { sz, keys, vals } => {
                let r = fixed_take(keys, vals, *sz as usize, k);
                if r.is_some() {
                    *sz = *sz - 1;
                }
                r
            },
            MapData::Su16 { sz, keys, vals } => {
                let r = inline_take(keys, vals, *sz as usize, k);
                if r.is_some() {
                    *sz = *sz - 1;
                }
                r
            },
            MapData::Vu16 { sz, keys, vals } => {
                let r = fixed_take(keys, vals, *sz as usize, k);
                if r.is_some() {
                    *sz = *sz - 1;
                }
                r
            },
            MapData::Su32 { sz, keys, vals } => {
                let r = inline_take(keys, vals, *sz as usize, k);
                if r.is_some() {
                    *sz = *sz - 1;
                }
                r
            },
            MapData::Vu32 { sz, keys, vals } => {
                let r = fixed_take(keys, vals, *sz as usize, k);
                if r.is_some() {
                    *sz = *sz - 1;
                }
                r
            },
            MapData::Su64 { sz, keys, vals } => {
                let r = inline_take(keys, vals, *sz as usize, k);
                if r.is_some() {
                    *sz = *sz - 1;
                }
                r
            },
            MapData::Vu64 { sz, keys, vals } => {
                let r = movable_take(keys, vals, *sz as usize, k);
                if r.is_some() {
                    *sz = *sz - 1;
                }
                r
            },
        }
    }
}

impl MapData {
    /// Puts every entry of the map into `dest`, an empty map that admits
    /// them all and has room for them.
    fn pour_into(&self, dest: &mut MapData)
        requires
            self.wf(),
            old(dest).wf(),
            old(dest)@ == Map::<u64, u64>::empty(),
            has_room(old(dest).shape(), self.count(), 0),
            forall|k: u64|
                self@.dom().contains(k) ==> map_admits(old(dest).shape(), k, #[trigger] self@[k]),
            !self@.dom().contains(old(dest).sentinel()),
        ensures
            final(dest).wf(),
            final(dest).shape() == old(dest).shape(),
            final(dest).sentinel() == old(dest).sentinel(),
            final(dest)@ == self@,
            final(dest).cells() == if old(dest).shape().kind is Inline {
                live_from(self.cells(), self.sentinel(), 0)
            } else {
                refilled_at(
                    old(dest).shape().width,
                    old(dest).shape().slots as int,
                    old(dest).sentinel(),
                    live_from(self.cells(), self.sentinel(), 0),
                )
            },
    {
        let n = self.rawcapacity();
        let ghost cells = self.cells();
        let ghost values = self.values();
        let ghost inv = self.sentinel();
        let mut i: usize = 0;
        proof {
            self.lemma_wf();
            dest.lemma_wf();
            assert(dest@.dom() =~= Set::<u64>::empty());
            assert(live_from(first(cells, 0), inv, 0) =~= Seq::<u64>::empty());
            if dest.shape().kind is Inline {
                assert(dest.cells() =~= live_from(first(cells, 0), inv, 0));
            } else {
                assert forall|k: int| 0 <= k < dest.cells().len() implies dest.cells()[k]
                    == dest.sentinel() by {
                    if dest.cells()[k] != dest.sentinel() {
                        assert(dest.cells().contains(dest.cells()[k]));
                        assert(dest@.dom().contains(dest.cells()[k]));
                    }
                }
                assert(dest.cells() =~= Seq::new(
                    dest.shape().slots as nat,
                    |k: int| dest.sentinel(),
                ));
            }
        }
        while i < n
            invariant
                self.wf(),
                dest.wf(),
                dest.shape() == old(dest).shape(),
                dest.sentinel() == old(dest).sentinel(),
                dest.cells() == if dest.shape().kind is Inline {
                    live_from(first(cells, i as int), inv, 0)
                } else {
                    refilled_at(
                        dest.shape().width,
                        dest.shape().slots as int,
                        dest.sentinel(),
                        live_from(first(cells, i as int), inv, 0),
                    )
                },
                !self@.dom().contains(dest.sentinel()),
                has_room(dest.shape(), self.count(), 0),
                forall|k: u64|
                    self@.dom().contains(k) ==> map_admits(dest.shape(), k, #[trigger] self@[k]),
                n == self.shape().slots,
                cells == self.cells(),
                values == self.values(),
                inv == self.sentinel(),
                i <= n,
                forall|w: u64|
                    dest@.dom().contains(w) <==> w != inv && exists|j: int|
                        0 <= j < i && j < cells.len() && cells[j] == w,
                forall|w: u64| dest@.dom().contains(w) ==> dest@[w] == self@[w],
            decreases n - i,
        {
            proof {
                self.lemma_wf();
                dest.lemma_wf();
            }
            match self.entry(i) {
                Some((k, v)) => {
                    proof {
                        lemma_table_map_at(cells, values, inv, i as int);
                        assert(self@.dom().contains(k) && self@[k] == v);
                        if dest@.dom().contains(k) {
                            let j = choose|j: int| 0 <= j < i && j < cells.len() && cells[j] == k;
                            assert(cells[j] != cells[i as int]);
                        }
                        assert(dest@.dom().insert(k).subset_of(self@.dom())) by {
                            assert forall|w: u64| dest@.dom().insert(k).contains(
                                w,
                            ) implies self@.dom().contains(w) by {
                                if w != k {
                                    let j = choose|j: int|
                                        0 <= j < i && j < cells.len() && cells[j] == w;
                                    assert(cells.contains(w));
                                }
                            }
                        }
                        vstd::set_lib::lemma_len_subset(dest@.dom().insert(k), self@.dom());
                    }
                    let ghost before = dest@;
                    let ghost cells_before = dest.cells();
                    let ghost seen = live_from(first(cells, i as int), inv, 0);
                    let _ = dest.insert_unchecked(k, v);
                    proof {
                        lemma_same_sentinel(cells_before, dest.sentinel());
                        assert(seen.push(k).drop_last() =~= seen);
                        assert(seen.push(k).last() == k);
                        lemma_live_one_more(cells, inv, 0, i as int);
                        assert(first(cells, i + 1) == cells.take(i + 1));
                        assert(first(cells, i as int) == cells.take(i as int));
                        assert forall|w: u64| dest@.dom().contains(w) <==> w != inv && exists|
                            j: int,
                        |
                            0 <= j < i + 1 && j < cells.len() && cells[j] == w by {
                            if dest@.dom().contains(w) {
                                if w == k {
                                    assert(cells[i as int] == w);
                                } else {
                                    assert(before.dom().contains(w));
                                    let j = choose|j: int|
                                        0 <= j < i && j < cells.len() && cells[j] == w;
                                    assert(0 <= j < i + 1 && cells[j] == w);
                                }
                            }
                            if w != inv && exists|j: int|
                                0 <= j < i + 1 && j < cells.len() && cells[j] == w {
                                let j = choose|j: int|
                                    0 <= j < i + 1 && j < cells.len() && cells[j] == w;
                                if j < i {
                                    assert(before.dom().contains(w));
                                }
                            }
                        }
                    }
                },
                None => {
                    proof {
                        if i < cells.len() {
                            lemma_live_one_more(cells, inv, 0, i as int);
                        }
                        assert forall|w: u64| dest@.dom().contains(w) <==> w != inv && exists|
                            j: int,
                        |
                            0 <= j < i + 1 && j < cells.len() && cells[j] == w by {
                            if w != inv && exists|j: int|
                                0 <= j < i + 1 && j < cells.len() && cells[j] == w {
                                let j = choose|j: int|
                                    0 <= j < i + 1 && j < cells.len() && cells[j] == w;
                                assert(j < i);
                            }
                        }
                    }
                },
            }
            i = i + 1;
        }
        proof {
            assert forall|w: u64| dest@.dom().contains(w) <==> self@.dom().contains(w) by {
                if self@.dom().contains(w) {
                    let j = choose|j: int| 0 <= j < cells.len() && cells[j] == w;
                    assert(0 <= j < i && j < cells.len() && cells[j] == w);
                }
                if dest@.dom().contains(w) {
                    let j = choose|j: int| 0 <= j < i && j < cells.len() && cells[j] == w;
                    assert(cells.contains(w));
                }
            }
            assert(dest@ =~= self@);
            assert(first(cells, i as int) =~= cells);
        }
    }

    /// Reserves capacity for at least `additional` more entries to be
    /// inserted in the map, with keys up to `max_k` and values up to
    /// `max_v`.  The map takes a wider or larger form where the one it
    /// has does not admit them or lacks the room, and keeps its entries.
    pub fn reserve_with_maxes(&mut self, max_k: u64, max_v: u64, additional: usize)
        requires
            old(self).wf(),
            old(self).count() + additional <= MAX_LEN,
        ensures
            final(self).wf(),
            final(self)@ == old(self)@,
            map_reserved(
                old(self).shape(),
                old(self).count(),
                max_k,
                max_v,
                additional as int,
                final(self).shape(),
            ),
            map_admits(final(self).shape(), max_k, max_v),
            has_room(final(self).shape(), final(self).count(), additional as int),
            final(self).sentinel() == kept_sentinel(
                old(self).shape(),
                old(self).sentinel(),
                final(self).shape(),
            ),
            final(self).cells() == cells_with_room(
                old(self).shape(),
                old(self).cells(),
                old(self).sentinel(),
                final(self).shape(),
                final(self).sentinel(),
            ),
    {
        let want = self.len() + additional;
        proof {
            self.lemma_wf();
        }
        let mut grown = if !self.admits(max_k, max_v) {
            let top_k = self.current_max();
            let top_v = self.max_value();
            let top_k = if max_k > top_k {
                max_k
            } else {
                top_k
            };
            let top_v = if max_v > top_v {
                max_v
            } else {
                top_v
            };
            let grown = MapData::with_maxes_cap(top_k, top_v, want);
            proof {
                assert forall|k: u64| self@.dom().contains(k) implies map_admits(
                    grown.shape(),
                    k,
                    #[trigger] self@[k],
                ) by {
                    lemma_made_for_admits(top_k, top_v, want as int, grown.shape(), k, self@[k]);
                }
                lemma_made_for_admits(top_k, top_v, want as int, grown.shape(), max_k, max_v);
            }
            grown
        } else if !self.room_for(additional) {
            MapData::heap_of(self.width(), capacity_to_rawcapacity(want), self.invalid())
        } else {
            return ;
        };
        self.pour_into(&mut grown);
        proof {
            grown.lemma_wf();
        }
        *self = grown;
    }
}

impl MapData {
    /// Maps `k` to `v`, and returns the value that `k` was mapped to
    /// before, if any.
    pub fn insert(&mut self, k: u64, v: u64) -> (r: Option<u64>)
        requires
            old(self).wf(),
            old(self).count() < MAX_LEN,
        ensures
            final(self).wf(),
            final(self)@ == old(self)@.insert(k, v),
            r == old(self)@.get(k),
            map_reserved(old(self).shape(), old(self).count(), k, v, 1, final(self).shape()),
            moved_for(
                old(self)@.dom(),
                k,
                kept_sentinel(old(self).shape(), old(self).sentinel(), final(self).shape()),
                final(self).sentinel(),
            ),
            final(self).cells() == {
                let stale = kept_sentinel(
                    old(self).shape(),
                    old(self).sentinel(),
                    final(self).shape(),
                );
                let room = cells_with_room(
                    old(self).shape(),
                    old(self).cells(),
                    old(self).sentinel(),
                    final(self).shape(),
                    stale,
                );
                if r.is_none() {
                    cells_with(final(self).shape(), room, stale, final(self).sentinel(), k)
                } else {
                    room
                }
            },
    {
        self.reserve_with_maxes(k, v, 1);
        self.insert_unchecked(k, v)
    }

    /// The same form with the same cells.
    pub fn duplicate(&self) -> (d: Self)
        ensures
            d.wf() == self.wf(),
            d.shape() == self.shape(),
            d.cells() == self.cells(),
            d.values() == self.values(),
            d.sentinel() == self.sentinel(),
            d@ == self@,
    {
        let d = match self {
            MapData::Su8 { sz, keys, vals } => MapData::Su8 { sz: *sz, keys: *keys, vals: *vals },
            MapData::Vu8 { sz, keys, vals } => MapData::Vu8 {
                sz: *sz,
                keys: copied(keys),
                vals: copied(vals),
            },
            MapData::Su16 { sz, keys, vals } => MapData::Su16 { sz: *sz, keys: *keys, vals: *vals },
            MapData::Vu16 { sz, keys, vals } => MapData::Vu16 {
                sz: *sz,
                keys: copied(keys),
                vals: copied(vals),
            },
            MapData::Su32 { sz, keys, vals } => MapData::Su32 { sz: *sz, keys: *keys, vals: *vals },
            MapData::Vu32 { sz, keys, vals } => MapData::Vu32 {
                sz: *sz,
                keys: copied(keys),
                vals: copied(vals),
            },
            MapData::Su64 { sz, keys, vals } => MapData::Su64 { sz: *sz, keys: *keys, vals: *vals },
            MapData::Vu64 { sz, keys, vals } => MapData::Vu64 {
                sz: *sz,
                keys: copied(keys),
                vals: copied(vals),
            },
        };
        proof {
            assert(d.cells() == self.cells());
            assert(d.values() == self.values());
            assert(d.sentinel() == self.sentinel());
            assert(d.shape() == self.shape());
            assert(d@ == self@);
            assert(d.forms_ok() == self.forms_ok());
        }
        d
    }
}

} // verus!
