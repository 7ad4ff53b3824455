//! Space-optimized containers for values that fit in 64 bits.
//!
//! A set of such values, [`Set64`], and a map from 64-bit words to
//! 64-bit words, [`U64Map`], hold very small collections inline, in a
//! handle of the size of three machine words, and larger ones in a
//! Robin-Hood hash table on the heap.  The width of a slot adapts to the
//! largest value stored: 8, 16, 32 or 64 bits.  An empty slot is marked
//! by a sentinel value of the slot's width, not by a bit of its own, so
//! a slot costs exactly one integer.
//!
//! Every operation has a contract over a mathematical model: the view
//! of a set is a `Set`, that of a map a `Map`, and the form that a
//! container takes is a [`shape::Shape`].  The module [`model`] holds
//! the model of the Robin-Hood table and the lemmas on it; the module
//! [`shape`] holds the rules by which a container goes from one form to
//! another.

pub mod capacity;
mod data;
mod equality;
pub mod fits;
pub mod hashing;
mod heap;
pub mod iter;
mod mapdata;
mod mapforms;
pub mod model;
pub mod set64;
pub mod shape;
pub mod slot;
mod small;
pub mod sorting;
mod storage;
mod table;
pub mod u64map;
pub mod u64set;
pub mod usizeset;

pub use crate::fits::Fits64;
pub use crate::iter::{Drain, Iter};
pub use crate::set64::{Drain64, Iter64, Set64};
pub use crate::u64map::{U64Map, U64MapIter};
pub use crate::u64set::U64Set;
pub use crate::usizeset::USizeSet;
