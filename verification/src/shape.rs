//! The forms that a set or a map can take, and the rules by which it
//! goes from one form to another.

use crate::capacity::{is_raw_capacity, load_ok};
use crate::model::{inserted, live_from, refilled, removed, resentineled, robin_hood, swap_removed};
use vstd::prelude::*;

verus! {

/// The width of a slot.
#[derive(Clone, Copy, Debug, PartialEq, Eq, Structural)]
pub enum Width {
    /// 8 bits.
    W8,
    /// 16 bits.
    W16,
    /// 32 bits.
    W32,
    /// 64 bits.
    W64,
}

/// Where the slots of a form lie and what marks an empty one.
#[derive(Clone, Copy, Debug, PartialEq, Eq, Structural)]
pub enum Kind {
    /// In the handle; the elements fill the first cells.
    Inline,
    /// On the heap, a table under the fixed sentinel of the width.
    Heap,
    /// On the heap, a table of 64-bit slots whose sentinel moves.
    Movable,
}

/// The form of a set: one of the nine representations, with its slot
/// count.
#[derive(Clone, Copy, Debug, PartialEq, Eq, Structural)]
pub struct Shape {
    /// The width of a slot.
    pub width: Width,
    /// Where the slots lie.
    pub kind: Kind,
    /// The number of slots: the cells of the inline array, or the slots
    /// of the table.
    pub slots: usize,
}

/// The fixed sentinel of a width.
pub open spec fn sentinel_of(width: Width) -> u64 {
    match width {
        Width::W8 => 0xff,
        Width::W16 => 0xffff,
        Width::W32 => 0xffff_ffff,
        Width::W64 => 0xffff_ffff_ffff_ffff,
    }
}

/// The number of cells of the inline form of a width.
pub open spec fn inline_cells(width: Width) -> int {
    match width {
        Width::W8 => 22,
        Width::W16 => 11,
        Width::W32 => 5,
        Width::W64 => 2,
    }
}

/// The least width whose fixed sentinel lies above `max`; 64 bits where
/// none does.
pub open spec fn width_for(max: u64) -> Width {
    if max < 0xff {
        Width::W8
    } else if max < 0xffff {
        Width::W16
    } else if max < 0xffff_ffff {
        Width::W32
    } else {
        Width::W64
    }
}

/// The largest word that a form admits.
pub open spec fn max_of(shape: Shape) -> u64 {
    if shape.kind is Movable {
        0xffff_ffff_ffff_ffff
    } else {
        (sentinel_of(shape.width) - 1) as u64
    }
}

/// The form of an empty set made for `cap` elements of which none is
/// above `max`: the least width that admits `max`; inline where `cap`
/// elements fit the inline array, else a table of the raw capacity for
/// `cap`; with a sentinel that moves where `max` is the largest word.
pub open spec fn made_for(max: u64, cap: int, shape: Shape) -> bool {
    &&& shape.width == width_for(max)
    &&& shape.kind == if max == 0xffff_ffff_ffff_ffff {
        Kind::Movable
    } else if cap <= inline_cells(shape.width) {
        Kind::Inline
    } else {
        Kind::Heap
    }
    &&& if shape.kind is Inline {
        shape.slots == inline_cells(shape.width)
    } else {
        is_raw_capacity(cap, shape.slots as int)
    }
}

/// The form of an empty set made for `cap` elements with no word in
/// mind: inline with 8-bit slots where `cap` elements fit, else a table
/// of the raw capacity for `cap`, of the least width with more than
/// `cap` words below its sentinel.
pub open spec fn made_for_capacity(cap: int, shape: Shape) -> bool {
    if cap <= 22 {
        shape == (Shape { width: Width::W8, kind: Kind::Inline, slots: 22 })
    } else {
        &&& shape.kind == Kind::Heap
        &&& shape.width == if cap < 0xff {
            Width::W8
        } else if cap < 0xffff {
            Width::W16
        } else if cap < 0xffff_ffff {
            Width::W32
        } else {
            Width::W64
        }
        &&& is_raw_capacity(cap, shape.slots as int)
    }
}

/// Whether a set of the form `shape` with `count` elements has room for
/// `additional` more.
pub open spec fn has_room(shape: Shape, count: int, additional: int) -> bool {
    if shape.kind is Inline {
        count + additional <= shape.slots
    } else {
        load_ok(count + additional, shape.slots as int)
    }
}

/// The form that a set of the form `old` with `count` elements takes
/// when room is made for `additional` more elements of which none is
/// above `max`.  In this order: a wider form where `max` is not
/// admitted; the heap form of the same width where the inline array is
/// too short; a larger table where the load factor would be passed;
/// else the form it has.
pub open spec fn reserved(old: Shape, count: int, max: u64, additional: int, new: Shape) -> bool {
    let want = count + additional;
    if max > max_of(old) {
        made_for(max, want, new)
    } else if !has_room(old, count, additional) {
        &&& new.width == old.width
        &&& new.kind == if old.kind is Inline {
            Kind::Heap
        } else {
            old.kind
        }
        &&& is_raw_capacity(want, new.slots as int)
    } else {
        new == old
    }
}

/// The sentinel of a container after room was made in it: the one it
/// had where its sentinel moves, which a larger table keeps; else the
/// fixed sentinel of the width it has then, which is also the first
/// sentinel of a table whose sentinel moves.
pub open spec fn kept_sentinel(old: Shape, sentinel: u64, new: Shape) -> u64 {
    if old.kind is Movable {
        sentinel
    } else {
        sentinel_of(new.width)
    }
}

/// The Robin-Hood ordering of a table of the given slot width.
pub open spec fn robin_hood_at(width: Width, t: Seq<u64>, inv: u64) -> bool {
    match width {
        Width::W8 => robin_hood::<u8>(t, inv),
        Width::W16 => robin_hood::<u16>(t, inv),
        Width::W32 => robin_hood::<u32>(t, inv),
        Width::W64 => robin_hood::<u64>(t, inv),
    }
}

/// The number of cells of the inline form of a map, by the width of its
/// keys.
pub open spec fn map_inline_cells(width: Width) -> int {
    match width {
        Width::W8 => 23,
        Width::W16 => 15,
        Width::W32 => 9,
        Width::W64 => 4,
    }
}

/// The larger of two words.
pub open spec fn larger(a: u64, b: u64) -> u64 {
    if a > b {
        a
    } else {
        b
    }
}

/// The largest value that a map of the form `shape` holds: a byte in
/// an inline form, else what the form admits as a key.
pub open spec fn max_value_of(shape: Shape) -> u64 {
    if shape.kind is Inline {
        255
    } else {
        max_of(shape)
    }
}

/// Whether a map of the form `shape` admits the key `k` with the value
/// `v`: the form admits the larger of the two as a key, and an inline
/// form, whose values are bytes, holds no value above 255.
pub open spec fn map_admits(shape: Shape, k: u64, v: u64) -> bool {
    &&& larger(k, v) <= max_of(shape)
    &&& v <= max_value_of(shape)
}

/// The form of an empty map made for `cap` entries with keys up to
/// `max_k` and values up to `max_v`: the least width that admits the
/// larger of the two as a key; inline where the values are bytes and
/// `cap` elements fit the inline array of a set of that width, else a
/// table of the raw capacity for `cap`, whose sentinel moves where the
/// keys have 64 bits.
pub open spec fn map_made_for(max_k: u64, max_v: u64, cap: int, shape: Shape) -> bool {
    let m = larger(max_k, max_v);
    &&& shape.width == width_for(m)
    &&& shape.kind == if cap <= inline_cells(shape.width) && max_v < 256 && m
        < 0xffff_ffff_ffff_ffff {
        Kind::Inline
    } else if shape.width is W64 {
        Kind::Movable
    } else {
        Kind::Heap
    }
    &&& if shape.kind is Inline {
        shape.slots == map_inline_cells(shape.width)
    } else {
        is_raw_capacity(cap, shape.slots as int)
    }
}

/// The form of an empty map made for `cap` entries with no key or value
/// in mind: inline with 8-bit keys where `cap` entries fit, else a
/// table of the raw capacity for `cap`, of the least width with more
/// than `cap` words below its sentinel.
pub open spec fn map_made_for_capacity(cap: int, shape: Shape) -> bool {
    if cap <= 23 {
        shape == (Shape { width: Width::W8, kind: Kind::Inline, slots: 23 })
    } else {
        &&& shape.width == if cap < 0xff {
            Width::W8
        } else if cap < 0xffff {
            Width::W16
        } else if cap < 0xffff_ffff {
            Width::W32
        } else {
            Width::W64
        }
        &&& shape.kind == if shape.width is W64 {
            Kind::Movable
        } else {
            Kind::Heap
        }
        &&& is_raw_capacity(cap, shape.slots as int)
    }
}

/// The form that a map of the form `old` with `count` entries takes
/// when room is made for `additional` more entries with keys up to
/// `max_k` and values up to `max_v`.  In this order: where the form it
/// has does not admit them, a form made for them and for what the old
/// form admits; the heap form of the same width where the inline
/// arrays are too short; a larger table where the load factor would be
/// passed; else the form it has.
pub open spec fn map_reserved(
    old: Shape,
    count: int,
    max_k: u64,
    max_v: u64,
    additional: int,
    new: Shape,
) -> bool {
    let want = count + additional;
    if !map_admits(old, max_k, max_v) {
        map_made_for(larger(max_k, max_of(old)), larger(max_v, max_value_of(old)), want, new)
    } else if !has_room(old, count, additional) {
        &&& new.width == old.width
        &&& new.kind == if new.width is W64 {
            Kind::Movable
        } else {
            Kind::Heap
        }
        &&& is_raw_capacity(want, new.slots as int)
    } else {
        new == old
    }
}

/// A map made for keys up to `max_k` and values up to `max_v` admits
/// every key and value up to them.
pub proof fn lemma_made_for_admits(max_k: u64, max_v: u64, cap: int, shape: Shape, k: u64, v: u64)
    requires
        map_made_for(max_k, max_v, cap, shape),
        k <= max_k,
        v <= max_v,
    ensures
        map_admits(shape, k, v),
{
}

/// The table of the given slot width after the word `w`, which it does
/// not hold, was put in.
pub open spec fn inserted_at(width: Width, t: Seq<u64>, inv: u64, w: u64) -> Seq<u64> {
    match width {
        Width::W8 => inserted::<u8>(t, inv, w),
        Width::W16 => inserted::<u16>(t, inv, w),
        Width::W32 => inserted::<u32>(t, inv, w),
        Width::W64 => inserted::<u64>(t, inv, w),
    }
}

/// The table of the given slot width after the word of slot `i` was
/// taken out.
pub open spec fn removed_at(width: Width, t: Seq<u64>, inv: u64, i: int) -> Seq<u64> {
    match width {
        Width::W8 => removed::<u8>(t, inv, i),
        Width::W16 => removed::<u16>(t, inv, i),
        Width::W32 => removed::<u32>(t, inv, i),
        Width::W64 => removed::<u64>(t, inv, i),
    }
}

/// The table of the given slot width and slot count that was empty and
/// then took the words of `ws`, one after the other.
pub open spec fn refilled_at(width: Width, slots: int, inv: u64, ws: Seq<u64>) -> Seq<u64> {
    let empty = Seq::new(slots as nat, |i: int| inv);
    match width {
        Width::W8 => refilled::<u8>(empty, inv, ws),
        Width::W16 => refilled::<u16>(empty, inv, ws),
        Width::W32 => refilled::<u32>(empty, inv, ws),
        Width::W64 => refilled::<u64>(empty, inv, ws),
    }
}

/// The cells of a container of the form `shape` after the word `w`,
/// which it did not hold, was put in.  In an inline form the word
/// stands behind the others.  In a table the empty slots are marked by
/// the sentinel `fresh`, which is `stale` unless the sentinel moved, and
/// the word is put in by the Robin-Hood walk.
pub open spec fn cells_with(shape: Shape, cells: Seq<u64>, stale: u64, fresh: u64, w: u64) -> Seq<
    u64,
> {
    if shape.kind is Inline {
        cells.push(w)
    } else {
        inserted_at(shape.width, resentineled(cells, stale, fresh), fresh, w)
    }
}

/// The cells of a container of the form `shape` after the word `w`,
/// which it held, was taken out.  In an inline form the last word
/// takes its place.  In a table the words behind it move back.
pub open spec fn cells_without(shape: Shape, cells: Seq<u64>, inv: u64, w: u64) -> Seq<u64> {
    if shape.kind is Inline {
        swap_removed(cells, cells.index_of(w))
    } else {
        removed_at(shape.width, cells, inv, cells.index_of(w))
    }
}

/// The cells of a container after room was made in it.  They are the
/// cells it had where its form stayed.  Else they take the live words
/// of the cells it had, in the order of those cells: an inline form
/// holds them in that order, a table takes them one after the other.
pub open spec fn cells_with_room(
    old: Shape,
    cells: Seq<u64>,
    stale: u64,
    new: Shape,
    fresh: u64,
) -> Seq<u64> {
    if new == old {
        cells
    } else if new.kind is Inline {
        live_from(cells, stale, 0)
    } else {
        refilled_at(new.width, new.slots as int, fresh, live_from(cells, stale, 0))
    }
}

/// The cells of an empty container of the form `shape`: none in an
/// inline form, else as many empty slots as the table has.
pub open spec fn empty_cells(shape: Shape, inv: u64) -> Seq<u64> {
    if shape.kind is Inline {
        Seq::empty()
    } else {
        Seq::new(shape.slots as nat, |i: int| inv)
    }
}

} // verus!
