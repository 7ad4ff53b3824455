//! How many slots a table gets for a wanted number of elements.

use vstd::arithmetic::power2::{lemma2_to64, lemma_pow2_strictly_increases, lemma_pow2_unfold, pow2};
use vstd::bits::{lemma_usize_low_bits_mask_is_mod, low_bits_mask};
use vstd::prelude::*;

verus! {

/// The largest number of elements that a container may be asked to hold:
/// the most that a table of 2^31 slots holds within the load factor.
///
/// A table has at most 2^31 slots, so that its slot count, and with it
/// the cell of a movable sentinel, fits in a `usize` of 32 bits or more.
pub const MAX_LEN: usize = 1_952_257_861;

/// Whether `n` is a power of two.
pub open spec fn is_pow2(n: int) -> bool
    decreases n,
{
    if n <= 1 {
        n == 1
    } else {
        n % 2 == 0 && is_pow2(n / 2)
    }
}

/// Whether a table of `slots` slots holds `n` elements within the load
/// factor of 10/11.
pub open spec fn load_ok(n: int, slots: int) -> bool {
    11 * n <= 10 * slots
}

/// The least slot count, not yet rounded to a power of two, that holds
/// `n` elements within the load factor: 1.1 times `n`, rounded up.
pub open spec fn slots_needed(n: int) -> int {
    (11 * n + 9) / 10
}

/// What `capacity_to_rawcapacity` returns for `cap`: the least power of
/// two that holds `cap` elements within the load factor.
pub open spec fn is_raw_capacity(cap: int, raw: int) -> bool {
    &&& is_pow2(raw)
    &&& load_ok(cap, raw)
    &&& raw > 1 ==> !load_ok(cap, raw / 2)
}

/// A table holds `n` elements within the load factor exactly when it has
/// at least `slots_needed(n)` slots.
pub proof fn lemma_load_ok_iff(n: int, slots: int)
    ensures
        load_ok(n, slots) <==> slots_needed(n) <= slots,
{
}

/// At most one slot count is the raw capacity for `cap`.
pub proof fn lemma_raw_capacity_unique(cap: int, a: int, b: int)
    requires
        is_raw_capacity(cap, a),
        is_raw_capacity(cap, b),
    ensures
        a == b,
{
    if a < b {
        lemma_pow2_gap(a, b);
    } else if b < a {
        lemma_pow2_gap(b, a);
    }
}

/// Of two different powers of two the larger is at least twice the smaller.
pub proof fn lemma_pow2_gap(a: int, b: int)
    requires
        is_pow2(a),
        is_pow2(b),
        a < b,
    ensures
        2 * a <= b,
    decreases a,
{
    if a > 1 {
        lemma_pow2_gap(a / 2, b / 2);
    }
}

/// A power of two is at least one.
pub proof fn lemma_pow2_positive(n: int)
    requires
        is_pow2(n),
    ensures
        n >= 1,
    decreases n,
{
    if n > 1 {
        lemma_pow2_positive(n / 2);
    }
}

/// A power of two up to 2^31 is two to the power of some exponent up to
/// 31.
pub proof fn lemma_pow2_exponent(n: int) -> (e: nat)
    requires
        is_pow2(n),
        n <= 0x8000_0000,
    ensures
        pow2(e) == n,
        e <= 31,
    decreases n,
{
    lemma2_to64();
    if n <= 1 {
        0
    } else {
        let half = lemma_pow2_exponent(n / 2);
        let e = half + 1;
        lemma_pow2_unfold(e);
        if e > 31 {
            lemma_pow2_strictly_increases(31, e);
        }
        e
    }
}

/// Masking a word with a power of two less one gives the word modulo
/// that power of two.
pub proof fn lemma_mask_is_mod(h: usize, n: usize)
    requires
        is_pow2(n as int),
        n <= 0x8000_0000,
    ensures
        h & ((n - 1) as usize) == h % n,
{
    let e = lemma_pow2_exponent(n as int);
    lemma_usize_low_bits_mask_is_mod(h, e);
    assert(low_bits_mask(e) == n - 1);
}

/// The least power of two that is at least `n`.
pub fn next_power_of_two(n: usize) -> (p: usize)
    requires
        n <= 0x8000_0000,
    ensures
        is_pow2(p as int),
        n <= p,
        p <= 0x8000_0000,
        p > 1 ==> p / 2 < n,
{
    let mut p: usize = 1;
    while p < n
        invariant
            is_pow2(p as int),
            n <= 0x8000_0000,
            p <= 0x8000_0000,
            p > 1 ==> p / 2 < n,
        decreases 0x8000_0000 - p,
    {
        proof {
            assert(is_pow2(0x8000_0000)) by {
                reveal_with_fuel(is_pow2, 33);
            }
            lemma_pow2_gap(p as int, 0x8000_0000);
        }
        p = p * 2;
    }
    p
}

/// The slot count of a table made for `cap` elements: 1.1 times `cap`,
/// rounded up to a whole number and then to a power of two.
pub fn capacity_to_rawcapacity(cap: usize) -> (raw: usize)
    requires
        cap <= MAX_LEN,
    ensures
        is_raw_capacity(cap as int, raw as int),
        1 <= raw <= 0x8000_0000,
{
    let want: usize = cap + (cap + 9) / 10;
    assert(want == slots_needed(cap as int));
    let raw = next_power_of_two(want);
    proof {
        lemma_load_ok_iff(cap as int, raw as int);
        lemma_load_ok_iff(cap as int, raw as int / 2);
        lemma_pow2_positive(raw as int);
    }
    raw
}

/// Whether a table of `slots` slots holds `n` elements within the load
/// factor.
pub fn fits(n: usize, slots: usize) -> (ok: bool)
    requires
        n <= MAX_LEN,
    ensures
        ok == load_ok(n as int, slots as int),
{
    proof {
        lemma_load_ok_iff(n as int, slots as int);
    }
    n + (n + 9) / 10 <= slots
}

/// The largest number of elements that a table of `slots` slots holds
/// within the load factor: ten elevenths of `slots`, rounded down.
pub fn within_load(slots: usize) -> (n: usize)
    requires
        slots <= 0x8000_0000,
    ensures
        load_ok(n as int, slots as int),
        !load_ok(n + 1, slots as int),
{
    let wide: u64 = slots as u64 * 10 / 11;
    wide as usize
}

} // verus!
