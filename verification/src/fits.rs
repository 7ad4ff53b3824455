//! Types that can be stored in 64 bits without loss.

use vstd::prelude::*;

verus! {

/// This describes a type which can be stored in 64 bits without loss.
/// It is defined for all signed and unsigned integer types, as well
/// as `char`.  In each case, sets consisting exclusively of "small"
/// values are stored efficiently.
///
/// A signed integer is folded: its magnitude is shifted one bit to the
/// left and its sign is the lowest bit, so that small magnitudes of
/// either sign give small words.
pub trait Fits64: Copy {
    /// Whether the value has a word.  It is false only of the least
    /// 64-bit signed integer, whose magnitude has no room beside a sign
    /// bit.
    spec fn encodable(self) -> bool;

    /// The word of the value.
    spec fn spec_to_u64(self) -> u64;

    /// The value of the word.
    spec fn spec_from_u64(x: u64) -> Self;

    /// The word of a value gives the value back.
    proof fn lemma_round_trip(self)
        requires
            self.encodable(),
        ensures
            Self::spec_from_u64(self.spec_to_u64()) == self,
    ;

    /// Whether the value has a word.
    fn can_encode(self) -> (ok: bool)
        ensures
            ok == self.encodable(),
    ;

    /// Convert back *from* a u64, one that came from a value of this
    /// type.
    fn from_u64(x: u64) -> (r: Self)
        requires
            exists|t: Self| t.encodable() && t.spec_to_u64() == x,
        ensures
            r == Self::spec_from_u64(x),
    ;

    /// Convert to a `u64`.
    fn to_u64(self) -> (x: u64)
        requires
            self.encodable(),
        ensures
            x == self.spec_to_u64(),
    ;
}

/// Two values with the same word are the same value.
pub proof fn lemma_word_decides<T: Fits64>(a: T, b: T)
    requires
        a.encodable(),
        b.encodable(),
        a.spec_to_u64() == b.spec_to_u64(),
    ensures
        a == b,
{
    a.lemma_round_trip();
    b.lemma_round_trip();
}

/// The value of a word that came from a value has that word.
pub proof fn lemma_word_of_value<T: Fits64>(x: u64)
    requires
        exists|t: T| t.encodable() && t.spec_to_u64() == x,
    ensures
        T::spec_from_u64(x).encodable(),
        T::spec_from_u64(x).spec_to_u64() == x,
{
    let t = choose|t: T| t.encodable() && t.spec_to_u64() == x;
    t.lemma_round_trip();
}

impl Fits64 for u64 {
    open spec fn encodable(self) -> bool {
        true
    }

    open spec fn spec_to_u64(self) -> u64 {
        self
    }

    open spec fn spec_from_u64(x: u64) -> Self {
        x
    }

    proof fn lemma_round_trip(self) {
    }

    fn can_encode(self) -> (ok: bool) {
        true
    }

    fn from_u64(x: u64) -> (r: Self) {
        x
    }

    fn to_u64(self) -> (x: u64) {
        self
    }
}

impl Fits64 for u32 {
    open spec fn encodable(self) -> bool {
        true
    }

    open spec fn spec_to_u64(self) -> u64 {
        self as u64
    }

    open spec fn spec_from_u64(x: u64) -> Self {
        x as u32
    }

    proof fn lemma_round_trip(self) {
    }

    fn can_encode(self) -> (ok: bool) {
        true
    }

    fn from_u64(x: u64) -> (r: Self) {
        x as u32
    }

    fn to_u64(self) -> (x: u64) {
        self as u64
    }
}

impl Fits64 for u16 {
    open spec fn encodable(self) -> bool {
        true
    }

    open spec fn spec_to_u64(self) -> u64 {
        self as u64
    }

    open spec fn spec_from_u64(x: u64) -> Self {
        x as u16
    }

    proof fn lemma_round_trip(self) {
    }

    fn can_encode(self) -> (ok: bool) {
        true
    }

    fn from_u64(x: u64) -> (r: Self) {
        x as u16
    }

    fn to_u64(self) -> (x: u64) {
        self as u64
    }
}

impl Fits64 for u8 {
    open spec fn encodable(self) -> bool {
        true
    }

    open spec fn spec_to_u64(self) -> u64 {
        self as u64
    }

    open spec fn spec_from_u64(x: u64) -> Self {
        x as u8
    }

    proof fn lemma_round_trip(self) {
    }

    fn can_encode(self) -> (ok: bool) {
        true
    }

    fn from_u64(x: u64) -> (r: Self) {
        x as u8
    }

    fn to_u64(self) -> (x: u64) {
        self as u64
    }
}

impl Fits64 for usize {
    open spec fn encodable(self) -> bool {
        true
    }

    open spec fn spec_to_u64(self) -> u64 {
        self as u64
    }

    open spec fn spec_from_u64(x: u64) -> Self {
        x as usize
    }

    proof fn lemma_round_trip(self) {
    }

    fn can_encode(self) -> (ok: bool) {
        true
    }

    fn from_u64(x: u64) -> (r: Self) {
        x as usize
    }

    fn to_u64(self) -> (x: u64) {
        self as u64
    }
}

/// Whether `x` is the code point of a `char`: a Unicode scalar value.
pub open spec fn is_scalar(x: u32) -> bool {
    x <= 0xd7ff || (0xe000 <= x && x <= 0x10_ffff)
}

/// `char::from_u32` of the standard library: the `char` whose code
/// point is `x`, where `x` is a Unicode scalar value, and nothing
/// else.
#[verifier::external_body]
fn char_from_u32(x: u32) -> (r: Option<char>)
    ensures
        r.is_some() == is_scalar(x),
        r matches Some(c) ==> c as u32 == x,
{
    char::from_u32(x)
}

/// The code point of a `char` is a Unicode scalar value, and is the
/// `char` again when read as one.
pub proof fn lemma_char_word(c: char)
    ensures
        is_scalar(c as u32),
        c as u64 == c as u32,
        (c as u64) as char == c,
{
}

/// The `char` whose code point is `x`.
fn char_of_word(x: u64) -> (c: char)
    requires
        x <= 0x10_ffff,
        is_scalar(x as u32),
    ensures
        c as u64 == x,
        c == x as char,
{
    match char_from_u32(x as u32) {
        Some(c) => {
            proof {
                lemma_char_word(c);
            }
            c
        },
        None => '\0',
    }
}

impl Fits64 for char {
    open spec fn encodable(self) -> bool {
        true
    }

    open spec fn spec_to_u64(self) -> u64 {
        self as u64
    }

    open spec fn spec_from_u64(x: u64) -> Self {
        x as char
    }

    proof fn lemma_round_trip(self) {
        lemma_char_word(self);
    }

    fn can_encode(self) -> (ok: bool) {
        true
    }

    fn from_u64(x: u64) -> (r: Self) {
        proof {
            let t = choose|t: char| t.encodable() && t.spec_to_u64() == x;
            lemma_char_word(t);
        }
        char_of_word(x)
    }

    fn to_u64(self) -> (x: u64) {
        self as u64
    }
}

/// The word of a signed integer: twice its magnitude, and one more where
/// it is negative.
pub open spec fn fold(v: int) -> int {
    if v < 0 {
        2 * (-v) + 1
    } else {
        2 * v
    }
}

/// The signed integer of a word: half the word, negative where the word
/// is odd.
pub open spec fn unfold(x: int) -> int {
    if x % 2 == 0 {
        x / 2
    } else {
        -(x / 2)
    }
}

/// Folding a signed integer and unfolding the word gives the integer
/// back.
pub proof fn lemma_unfold_fold(v: int)
    ensures
        unfold(fold(v)) == v,
{
}

/// Small magnitudes stay small: the word of a signed integer is below
/// `2 * m` exactly when its magnitude is below `m`.
pub proof fn lemma_fold_keeps_small(v: int, m: int)
    ensures
        fold(v) < 2 * m <==> (if v < 0 {
            -v
        } else {
            v
        }) < m,
{
}

/// Folds a signed integer other than the least one.
pub fn fold_i64(v: i64) -> (x: u64)
    requires
        v > i64::MIN,
    ensures
        x == fold(v as int),
{
    if v < 0 {
        ((-v) as u64) * 2 + 1
    } else {
        (v as u64) * 2
    }
}

/// Unfolds a word.
pub fn unfold_u64(x: u64) -> (v: i64)
    ensures
        v == unfold(x as int),
{
    let half = (x / 2) as i64;
    if x % 2 == 0 {
        half
    } else {
        -half
    }
}

impl Fits64 for i8 {
    open spec fn encodable(self) -> bool {
        true
    }

    open spec fn spec_to_u64(self) -> u64 {
        fold(self as int) as u64
    }

    open spec fn spec_from_u64(x: u64) -> Self {
        unfold(x as int) as i8
    }

    proof fn lemma_round_trip(self) {
    }

    fn can_encode(self) -> (ok: bool) {
        true
    }

    fn from_u64(x: u64) -> (r: Self) {
        proof {
            let t = choose|t: i8| t.encodable() && t.spec_to_u64() == x;
            assert(unfold(x as int) == t);
        }
        unfold_u64(x) as i8
    }

    fn to_u64(self) -> (x: u64) {
        fold_i64(self as i64)
    }
}

impl Fits64 for i16 {
    open spec fn encodable(self) -> bool {
        true
    }

    open spec fn spec_to_u64(self) -> u64 {
        fold(self as int) as u64
    }

    open spec fn spec_from_u64(x: u64) -> Self {
        unfold(x as int) as i16
    }

    proof fn lemma_round_trip(self) {
    }

    fn can_encode(self) -> (ok: bool) {
        true
    }

    fn from_u64(x: u64) -> (r: Self) {
        proof {
            let t = choose|t: i16| t.encodable() && t.spec_to_u64() == x;
            assert(unfold(x as int) == t);
        }
        unfold_u64(x) as i16
    }

    fn to_u64(self) -> (x: u64) {
        fold_i64(self as i64)
    }
}

impl Fits64 for i32 {
    open spec fn encodable(self) -> bool {
        true
    }

    open spec fn spec_to_u64(self) -> u64 {
        fold(self as int) as u64
    }

    open spec fn spec_from_u64(x: u64) -> Self {
        unfold(x as int) as i32
    }

    proof fn lemma_round_trip(self) {
    }

    fn can_encode(self) -> (ok: bool) {
        true
    }

    fn from_u64(x: u64) -> (r: Self) {
        proof {
            let t = choose|t: i32| t.encodable() && t.spec_to_u64() == x;
            assert(unfold(x as int) == t);
        }
        unfold_u64(x) as i32
    }

    fn to_u64(self) -> (x: u64) {
        fold_i64(self as i64)
    }
}

impl Fits64 for i64 {
    open spec fn encodable(self) -> bool {
        self > i64::MIN
    }

    open spec fn spec_to_u64(self) -> u64 {
        fold(self as int) as u64
    }

    open spec fn spec_from_u64(x: u64) -> Self {
        unfold(x as int) as i64
    }

    proof fn lemma_round_trip(self) {
    }

    fn can_encode(self) -> (ok: bool) {
        self > i64::MIN
    }

    fn from_u64(x: u64) -> (r: Self) {
        proof {
            let t = choose|t: i64| t.encodable() && t.spec_to_u64() == x;
            assert(unfold(x as int) == t);
        }
        unfold_u64(x)
    }

    fn to_u64(self) -> (x: u64) {
        fold_i64(self)
    }
}

impl Fits64 for isize {
    open spec fn encodable(self) -> bool {
        self as int > i64::MIN as int
    }

    open spec fn spec_to_u64(self) -> u64 {
        fold(self as int) as u64
    }

    open spec fn spec_from_u64(x: u64) -> Self {
        unfold(x as int) as isize
    }

    proof fn lemma_round_trip(self) {
    }

    fn can_encode(self) -> (ok: bool) {
        self as i64 > i64::MIN
    }

    fn from_u64(x: u64) -> (r: Self) {
        proof {
            let t = choose|t: isize| t.encodable() && t.spec_to_u64() == x;
            assert(unfold(x as int) == t);
        }
        unfold_u64(x) as isize
    }

    fn to_u64(self) -> (x: u64) {
        fold_i64(self as i64)
    }
}

} // verus!
