//! How the machine integers meet the codec: each type's width and signedness,
//! and the conversion between a value and its two's-complement bit pattern.
use crate::bits::{pattern_of, signed_value};
use crate::word::{lemma_pow2_128, lemma_pow2_monotonic, pow2_u128};
use vstd::arithmetic::power2::{lemma2_to64, lemma2_to64_rest, lemma_pow2_unfold, pow2};
use vstd::prelude::*;

verus! {

/// An integer type that can be read from and written to a stream.
pub trait BitInt: Sized + Copy {
    /// The number of bits of the type.
    spec fn width() -> nat;

    /// Whether the type has a sign.
    spec fn signed() -> bool;

    /// The number that the value is.
    spec fn as_int(self) -> int;

    /// The number of bits of the type.
    fn bit_width() -> (bits: usize)
        ensures
            bits == Self::width(),
            0 < bits <= 128,
    ;

    /// Whether the type has a sign.
    fn is_signed() -> (signed: bool)
        ensures
            signed == Self::signed(),
    ;

    /// The value whose bit pattern, in the type's full width, is `pattern`.
    fn from_pattern(pattern: u128) -> (value: Self)
        requires
            pattern < pow2(Self::width()),
        ensures
            value.as_int() == if Self::signed() {
                signed_value(pattern as nat, Self::width())
            } else {
                pattern as int
            },
    ;

    /// The bit pattern of the value in the type's full width.
    fn to_pattern(self) -> (pattern: u128)
        ensures
            pattern == pattern_of(self.as_int(), Self::width()),
            pattern < pow2(Self::width()),
    ;
}

/// The `width`-bit pattern of the number that the `count`-bit pattern `raw`
/// stands for: where the number is negative, the sign bit is repeated in
/// every bit above the field.
pub fn widen(raw: u128, count: usize, width: usize, signed: bool) -> (pattern: u128)
    requires
        count <= width <= 128,
        0 < width,
        raw < pow2(count as nat),
    ensures
        pattern < pow2(width as nat),
        signed ==> signed_value(pattern as nat, width as nat) == signed_value(
            raw as nat,
            count as nat,
        ),
        !signed ==> pattern == raw,
{
    proof {
        lemma_pow2_128();
        lemma2_to64();
        lemma_pow2_monotonic(count as nat, width as nat);
        lemma_pow2_monotonic(width as nat, 128);
        lemma_pow2_unfold(width as nat);
        if count > 0 {
            lemma_pow2_unfold(count as nat);
            lemma_pow2_monotonic((count - 1) as nat, (width - 1) as nat);
        }
        if count < width {
            lemma_pow2_monotonic(count as nat, (width - 1) as nat);
        }
    }
    if signed && 0 < count && count < width && raw >= pow2_u128(count - 1) {
        let top: u128 = if width == 128 {
            u128::MAX
        } else {
            pow2_u128(width) - 1
        };
        let low: u128 = pow2_u128(count) - 1;
        raw + (top - low)
    } else {
        raw
    }
}

/// The powers of two at the widths of the machine integers.
pub proof fn lemma_pow2_widths()
    ensures
        pow2(7) == 0x80,
        pow2(8) == 0x100,
        pow2(15) == 0x8000,
        pow2(16) == 0x10000,
        pow2(31) == 0x80000000,
        pow2(32) == 0x100000000,
        pow2(63) == 0x8000000000000000,
        pow2(64) == 0x10000000000000000,
        pow2(127) == 0x80000000000000000000000000000000,
        pow2(128) == 0x100000000000000000000000000000000,
{
    lemma2_to64();
    lemma2_to64_rest();
    lemma_pow2_128();
    lemma_pow2_unfold(128);
}

impl BitInt for u8 {
    open spec fn width() -> nat {
        8
    }

    open spec fn signed() -> bool {
        false
    }

    open spec fn as_int(self) -> int {
        self as int
    }

    fn bit_width() -> (bits: usize) {
        8
    }

    fn is_signed() -> (signed: bool) {
        false
    }

    fn from_pattern(pattern: u128) -> (value: u8) {
        proof {
            lemma_pow2_widths();
        }
        pattern as u8
    }

    fn to_pattern(self) -> (pattern: u128) {
        proof {
            lemma_pow2_widths();
        }
        self as u128
    }
}

impl BitInt for u16 {
    open spec fn width() -> nat {
        16
    }

    open spec fn signed() -> bool {
        false
    }

    open spec fn as_int(self) -> int {
        self as int
    }

    fn bit_width() -> (bits: usize) {
        16
    }

    fn is_signed() -> (signed: bool) {
        false
    }

    fn from_pattern(pattern: u128) -> (value: u16) {
        proof {
            lemma_pow2_widths();
        }
        pattern as u16
    }

    fn to_pattern(self) -> (pattern: u128) {
        proof {
            lemma_pow2_widths();
        }
        self as u128
    }
}

impl BitInt for u32 {
    open spec fn width() -> nat {
        32
    }

    open spec fn signed() -> bool {
        false
    }

    open spec fn as_int(self) -> int {
        self as int
    }

    fn bit_width() -> (bits: usize) {
        32
    }

    fn is_signed() -> (signed: bool) {
        false
    }

    fn from_pattern(pattern: u128) -> (value: u32) {
        proof {
            lemma_pow2_widths();
        }
        pattern as u32
    }

    fn to_pattern(self) -> (pattern: u128) {
        proof {
            lemma_pow2_widths();
        }
        self as u128
    }
}

impl BitInt for u64 {
    open spec fn width() -> nat {
        64
    }

    open spec fn signed() -> bool {
        false
    }

    open spec fn as_int(self) -> int {
        self as int
    }

    fn bit_width() -> (bits: usize) {
        64
    }

    fn is_signed() -> (signed: bool) {
        false
    }

    fn from_pattern(pattern: u128) -> (value: u64) {
        proof {
            lemma_pow2_widths();
        }
        pattern as u64
    }

    fn to_pattern(self) -> (pattern: u128) {
        proof {
            lemma_pow2_widths();
        }
        self as u128
    }
}

impl BitInt for u128 {
    open spec fn width() -> nat {
        128
    }

    open spec fn signed() -> bool {
        false
    }

    open spec fn as_int(self) -> int {
        self as int
    }

    fn bit_width() -> (bits: usize) {
        128
    }

    fn is_signed() -> (signed: bool) {
        false
    }

    fn from_pattern(pattern: u128) -> (value: u128) {
        proof {
            lemma_pow2_widths();
        }
        pattern as u128
    }

    fn to_pattern(self) -> (pattern: u128) {
        proof {
            lemma_pow2_widths();
        }
        self as u128
    }
}

impl BitInt for i8 {
    open spec fn width() -> nat {
        8
    }

    open spec fn signed() -> bool {
        true
    }

    open spec fn as_int(self) -> int {
        self as int
    }

    fn bit_width() -> (bits: usize) {
        8
    }

    fn is_signed() -> (signed: bool) {
        true
    }

    fn from_pattern(pattern: u128) -> (value: i8) {
        proof {
            lemma_pow2_widths();
        }
        if pattern >= 0x80 {
            (pattern as i128 - 0x100) as i8
        } else {
            pattern as i8
        }
    }

    fn to_pattern(self) -> (pattern: u128) {
        proof {
            lemma_pow2_widths();
        }
        if self < 0 {
            (self as i128 + 0x100) as u128
        } else {
            self as u128
        }
    }
}

impl BitInt for i16 {
    open spec fn width() -> nat {
        16
    }

    open spec fn signed() -> bool {
        true
    }

    open spec fn as_int(self) -> int {
        self as int
    }

    fn bit_width() -> (bits: usize) {
        16
    }

    fn is_signed() -> (signed: bool) {
        true
    }

    fn from_pattern(pattern: u128) -> (value: i16) {
        proof {
            lemma_pow2_widths();
        }
        if pattern >= 0x8000 {
            (pattern as i128 - 0x10000) as i16
        } else {
            pattern as i16
        }
    }

    fn to_pattern(self) -> (pattern: u128) {
        proof {
            lemma_pow2_widths();
        }
        if self < 0 {
            (self as i128 + 0x10000) as u128
        } else {
            self as u128
        }
    }
}

impl BitInt for i32 {
    open spec fn width() -> nat {
        32
    }

    open spec fn signed() -> bool {
        true
    }

    open spec fn as_int(self) -> int {
        self as int
    }

    fn bit_width() -> (bits: usize) {
        32
    }

    fn is_signed() -> (signed: bool) {
        true
    }

    fn from_pattern(pattern: u128) -> (value: i32) {
        proof {
            lemma_pow2_widths();
        }
        if pattern >= 0x80000000 {
            (pattern as i128 - 0x100000000) as i32
        } else {
            pattern as i32
        }
    }

    fn to_pattern(self) -> (pattern: u128) {
        proof {
            lemma_pow2_widths();
        }
        if self < 0 {
            (self as i128 + 0x100000000) as u128
        } else {
            self as u128
        }
    }
}

impl BitInt for i64 {
    open spec fn width() -> nat {
        64
    }

    open spec fn signed() -> bool {
        true
    }

    open spec fn as_int(self) -> int {
        self as int
    }

    fn bit_width() -> (bits: usize) {
        64
    }

    fn is_signed() -> (signed: bool) {
        true
    }

    fn from_pattern(pattern: u128) -> (value: i64) {
        proof {
            lemma_pow2_widths();
        }
        if pattern >= 0x8000000000000000 {
            (pattern as i128 - 0x10000000000000000) as i64
        } else {
            pattern as i64
        }
    }

    fn to_pattern(self) -> (pattern: u128) {
        proof {
            lemma_pow2_widths();
        }
        if self < 0 {
            (self as i128 + 0x10000000000000000) as u128
        } else {
            self as u128
        }
    }
}

impl BitInt for i128 {
    open spec fn width() -> nat {
        128
    }

    open spec fn signed() -> bool {
        true
    }

    open spec fn as_int(self) -> int {
        self as int
    }

    fn bit_width() -> (bits: usize) {
        128
    }

    fn is_signed() -> (signed: bool) {
        true
    }

    fn from_pattern(pattern: u128) -> (value: i128) {
        proof {
            lemma_pow2_widths();
        }
        if pattern >= 0x80000000000000000000000000000000 {
            (pattern - 0x80000000000000000000000000000000) as i128 + i128::MIN
        } else {
            pattern as i128
        }
    }

    fn to_pattern(self) -> (pattern: u128) {
        proof {
            lemma_pow2_widths();
        }
        if self < 0 {
            (self - i128::MIN) as u128 + 0x80000000000000000000000000000000
        } else {
            self as u128
        }
    }
}

} // verus!
