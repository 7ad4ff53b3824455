//! Slot widths: the unsigned integer types that a table can be made of.

use vstd::prelude::*;

verus! {

/// An unsigned integer type that can serve as the slot of a table.
///
/// Every slot value stands for a 64-bit word.  The largest value of the
/// type is set aside as the fixed sentinel that marks an empty slot.
pub trait HasInvalid: Copy {
    /// The word that a slot value stands for.
    spec fn spec_word(self) -> u64;

    /// The largest word of this width, which is the fixed sentinel.
    spec fn spec_invalid() -> u64;

    /// The hash of a word of this width.
    spec fn spec_hash(w: u64) -> usize;

    /// No slot value stands for a word beyond the fixed sentinel.
    proof fn lemma_word_range(self)
        ensures
            self.spec_word() <= Self::spec_invalid(),
    ;

    /// The fixed sentinel of this width.
    fn invalid() -> (r: Self)
        ensures
            r.spec_word() == Self::spec_invalid(),
    ;

    /// The hash that decides where a value's probe path starts.
    fn hash_usize(self) -> (h: usize)
        ensures
            h == Self::spec_hash(self.spec_word()),
    ;

    /// Widens a slot value to its word.
    fn to_word(self) -> (w: u64)
        ensures
            w == self.spec_word(),
            w <= Self::spec_invalid(),
    ;

    /// Narrows a word that fits this width to a slot value.
    fn from_word(w: u64) -> (r: Self)
        requires
            w <= Self::spec_invalid(),
        ensures
            r.spec_word() == w,
    ;
}

impl HasInvalid for u8 {
    open spec fn spec_word(self) -> u64 {
        self as u64
    }

    open spec fn spec_invalid() -> u64 {
        0xff
    }

    open spec fn spec_hash(w: u64) -> usize {
        (w as u8 as usize * 0x9d) as usize
    }

    proof fn lemma_word_range(self) {
    }

    fn invalid() -> (r: Self) {
        0xff
    }

    fn hash_usize(self) -> (h: usize) {
        self as usize * 0x9d
    }

    fn to_word(self) -> (w: u64) {
        self as u64
    }

    fn from_word(w: u64) -> (r: Self) {
        w as u8
    }
}

impl HasInvalid for u16 {
    open spec fn spec_word(self) -> u64 {
        self as u64
    }

    open spec fn spec_invalid() -> u64 {
        0xffff
    }

    open spec fn spec_hash(w: u64) -> usize {
        (u32::wrapping_mul(w as u16 as u32, 0x9e37_79b1) >> 16) as usize
    }

    proof fn lemma_word_range(self) {
    }

    fn invalid() -> (r: Self) {
        0xffff
    }

    fn hash_usize(self) -> (h: usize) {
        ((self as u32).wrapping_mul(0x9e37_79b1) >> 16) as usize
    }

    fn to_word(self) -> (w: u64) {
        self as u64
    }

    fn from_word(w: u64) -> (r: Self) {
        w as u16
    }
}

impl HasInvalid for u32 {
    open spec fn spec_word(self) -> u64 {
        self as u64
    }

    open spec fn spec_invalid() -> u64 {
        0xffff_ffff
    }

    open spec fn spec_hash(w: u64) -> usize {
        (u64::wrapping_mul(w as u32 as u64, 0x9e37_79b9_7f4a_7c15) >> 32) as u32 as usize
    }

    proof fn lemma_word_range(self) {
    }

    fn invalid() -> (r: Self) {
        0xffff_ffff
    }

    fn hash_usize(self) -> (h: usize) {
        let m: u64 = (self as u64).wrapping_mul(0x9e37_79b9_7f4a_7c15) >> 32;
        assert(m <= 0xffff_ffff) by (bit_vector)
            requires
                m == u64::wrapping_mul(self as u64, 0x9e37_79b9_7f4a_7c15) >> 32,
        ;
        m as u32 as usize
    }

    fn to_word(self) -> (w: u64) {
        self as u64
    }

    fn from_word(w: u64) -> (r: Self) {
        w as u32
    }
}

impl HasInvalid for u64 {
    open spec fn spec_word(self) -> u64 {
        self
    }

    open spec fn spec_invalid() -> u64 {
        0xffff_ffff_ffff_ffff
    }

    open spec fn spec_hash(w: u64) -> usize {
        (u64::wrapping_mul(w, 0x9e37_79b9_7f4a_7c15) >> 32) as u32 as usize
    }

    proof fn lemma_word_range(self) {
    }

    fn invalid() -> (r: Self) {
        0xffff_ffff_ffff_ffff
    }

    fn hash_usize(self) -> (h: usize) {
        let m: u64 = self.wrapping_mul(0x9e37_79b9_7f4a_7c15) >> 32;
        assert(m <= 0xffff_ffff) by (bit_vector)
            requires
                m == u64::wrapping_mul(self, 0x9e37_79b9_7f4a_7c15) >> 32,
        ;
        m as u32 as usize
    }

    fn to_word(self) -> (w: u64) {
        self
    }

    fn from_word(w: u64) -> (r: Self) {
        w
    }
}

} // verus!
