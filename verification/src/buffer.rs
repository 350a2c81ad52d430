//! The read buffer: a view of a byte slice that can be addressed bit by bit.
use crate::bits::{
    bits_of_bytes, lemma_bits_of_bytes_subrange, lemma_value_bound, lemma_value_concat,
    signed_value, value_of_bits,
};
use crate::endianness::Endianness;
use crate::num::lemma_pow2_widths;
use crate::word::{extract, lemma_pow2_monotonic, load, pow2_u128};
use vstd::arithmetic::power2::{lemma2_to64, lemma_pow2_unfold, pow2};
use vstd::prelude::*;

verus! {

/// An immutable view of the first `byte_len` bytes of a slice, from which a
/// field of bits can be read at any bit position. Nothing is read beyond
/// those bytes, whatever follows them in the slice.
#[derive(Copy)]
pub struct BitBuffer<'a, E: Endianness> {
    bytes: &'a [u8],
    bit_len: usize,
    byte_len: usize,
    endianness: E,
}

impl<'a, E: Endianness> Clone for BitBuffer<'a, E> {
    /// A second view of the same bytes.
    fn clone(&self) -> (copy: Self)
        ensures
            copy == *self,
    {
        *self
    }
}

/// The value of the `count`-bit two's-complement pattern `value`.
pub fn sign_extend(value: u64, count: usize) -> (signed: i64)
    requires
        count <= 64,
        value < pow2(count as nat),
    ensures
        signed == signed_value(value as nat, count as nat),
        count > 0 ==> -pow2((count - 1) as nat) <= signed < pow2((count - 1) as nat),
        count == 0 ==> signed == 0,
{
    proof {
        lemma2_to64();
        lemma_pow2_widths();
        if count > 0 {
            lemma_pow2_unfold(count as nat);
            lemma_pow2_monotonic((count - 1) as nat, 63);
        }
    }
    if count == 0 {
        0
    } else {
        let half: u128 = pow2_u128(count - 1);
        if value as u128 >= half {
            (value as i128 - 2 * (half as i128)) as i64
        } else {
            value as i64
        }
    }
}

impl<'a, E: Endianness> BitBuffer<'a, E> {
    /// The buffer's lengths agree and lie within the slice.
    pub closed spec fn wf(&self) -> bool {
        &&& self.byte_len <= self.bytes@.len()
        &&& self.bit_len == 8 * self.byte_len
    }

    /// The bytes that the buffer covers.
    pub closed spec fn bytes(&self) -> Seq<u8> {
        self.bytes@.subrange(0, self.byte_len as int)
    }

    /// The bits that the buffer covers, in stream order.
    pub open spec fn bits(&self) -> Seq<bool> {
        bits_of_bytes(E::little(), self.bytes())
    }

    /// A buffer over the first `byte_len` bytes of `bytes`. The slice may be
    /// longer, as where it was padded for loads of whole words; what follows
    /// the first `byte_len` bytes is never part of a value read.
    pub fn from_padded_slice(bytes: &'a [u8], byte_len: usize, endianness: E) -> (buffer: Self)
        requires
            byte_len <= bytes@.len(),
            byte_len * 8 <= usize::MAX,
        ensures
            buffer.wf(),
            buffer.bytes() == bytes@.subrange(0, byte_len as int),
    {
        BitBuffer { bytes, byte_len, bit_len: byte_len * 8, endianness }
    }

    /// The number of bits in the buffer.
    pub fn bit_len(&self) -> (len: usize)
        requires
            self.wf(),
        ensures
            len == self.bits().len(),
            len == 8 * self.bytes().len(),
    {
        self.bit_len
    }

    /// The number of bytes in the buffer.
    pub fn byte_len(&self) -> (len: usize)
        requires
            self.wf(),
        ensures
            len == self.bytes().len(),
    {
        self.byte_len
    }

    /// The unsigned number that the `count` bits from `position` on stand
    /// for.
    pub fn read_value(&self, position: usize, count: usize) -> (value: u64)
        requires
            self.wf(),
            count <= 64,
            position + count <= self.bits().len(),
        ensures
            value == value_of_bits(
                E::little(),
                self.bits().subrange(position as int, position + count),
            ),
            value < pow2(count as nat),
    {
        let ghost little = E::little();
        let ghost field = self.bits().subrange(position as int, position + count);
        proof {
            lemma_value_bound(little, field);
            lemma_pow2_monotonic(count as nat, 64);
            lemma_pow2_widths();
        }
        if count == 0 {
            return 0;
        }
        let index: usize = position / 8;
        let offset: usize = position % 8;
        let len: usize = (offset + count + 7) / 8;
        let word: u128 = load(E::is_le(), self.bytes, index, len);
        let value: u128 = extract(E::is_le(), word, 8 * len, offset, count);
        proof {
            let held = self.bytes@.subrange(index as int, index + len);
            assert(held =~= self.bytes().subrange(index as int, index + len));
            lemma_bits_of_bytes_subrange(little, self.bytes(), index as int, index + len);
            let container = bits_of_bytes(little, held);
            assert(container.subrange(offset as int, offset + count) =~= field);
            assert(value_of_bits(little, container) == word);
        }
        value as u64
    }

    /// The unsigned number that the `count` bits from `position` on stand
    /// for, where the field may be wider than 64 bits: it is then read in
    /// two parts and put together by significance.
    pub fn read_wide(&self, position: usize, count: usize) -> (value: u128)
        requires
            self.wf(),
            count <= 128,
            position + count <= self.bits().len(),
        ensures
            value == value_of_bits(
                E::little(),
                self.bits().subrange(position as int, position + count),
            ),
            value < pow2(count as nat),
    {
        if count <= 64 {
            return self.read_value(position, count) as u128;
        }
        let rest: usize = count - 64;
        let ghost little = E::little();
        let ghost field = self.bits().subrange(position as int, position + count);
        proof {
            lemma_value_bound(little, field);
            lemma_pow2_widths();
        }
        if E::is_le() {
            let low: u64 = self.read_value(position, 64);
            let high: u64 = self.read_value(position + 64, rest);
            proof {
                let a = self.bits().subrange(position as int, position + 64);
                let b = self.bits().subrange(position + 64, position + count);
                assert(field =~= a + b);
                lemma_value_concat(little, a, b);
            }
            low as u128 + 0x10000000000000000u128 * (high as u128)
        } else {
            let high: u64 = self.read_value(position, rest);
            let low: u64 = self.read_value(position + rest, 64);
            proof {
                let a = self.bits().subrange(position as int, position + rest);
                let b = self.bits().subrange(position + rest, position + count);
                assert(field =~= a + b);
                lemma_value_concat(little, a, b);
            }
            high as u128 * 0x10000000000000000u128 + low as u128
        }
    }

    /// The `count` bits from `position` on, as an unsigned number.
    pub fn read_usize(&self, position: usize, count: usize) -> (value: usize)
        requires
            self.wf(),
            count <= usize::BITS,
            position + count <= self.bits().len(),
        ensures
            value == value_of_bits(
                E::little(),
                self.bits().subrange(position as int, position + count),
            ),
    {
        proof {
            lemma_pow2_widths();
            lemma_pow2_monotonic(count as nat, usize::BITS as nat);
        }
        self.read_value(position, count) as usize
    }

    /// The `count` bits from `position` on, as an unsigned number.
    pub fn read_u8(&self, position: usize, count: usize) -> (value: u8)
        requires
            self.wf(),
            count <= 8,
            position + count <= self.bits().len(),
        ensures
            value == value_of_bits(
                E::little(),
                self.bits().subrange(position as int, position + count),
            ),
    {
        proof {
            lemma_pow2_widths();
            lemma_pow2_monotonic(count as nat, 8);
        }
        self.read_value(position, count) as u8
    }

    /// The `count` bits from `position` on, as an unsigned number.
    pub fn read_u16(&self, position: usize, count: usize) -> (value: u16)
        requires
            self.wf(),
            count <= 16,
            position + count <= self.bits().len(),
        ensures
            value == value_of_bits(
                E::little(),
                self.bits().subrange(position as int, position + count),
            ),
    {
        proof {
            lemma_pow2_widths();
            lemma_pow2_monotonic(count as nat, 16);
        }
        self.read_value(position, count) as u16
    }

    /// The `count` bits from `position` on, as an unsigned number.
    pub fn read_u32(&self, position: usize, count: usize) -> (value: u32)
        requires
            self.wf(),
            count <= 32,
            position + count <= self.bits().len(),
        ensures
            value == value_of_bits(
                E::little(),
                self.bits().subrange(position as int, position + count),
            ),
    {
        proof {
            lemma_pow2_widths();
            lemma_pow2_monotonic(count as nat, 32);
        }
        self.read_value(position, count) as u32
    }

    /// The `count` bits from `position` on, as a two's-complement number:
    /// the last bit read, by significance the top one, is the sign.
    pub fn read_i8(&self, position: usize, count: usize) -> (value: i8)
        requires
            self.wf(),
            count <= 8,
            position + count <= self.bits().len(),
        ensures
            value == signed_value(
                value_of_bits(E::little(), self.bits().subrange(position as int, position + count)),
                count as nat,
            ),
    {
        let unsigned: u64 = self.read_value(position, count);
        proof {
            lemma_pow2_widths();
            if count > 0 {
                lemma_pow2_monotonic((count - 1) as nat, 7);
            }
        }
        sign_extend(unsigned, count) as i8
    }

    /// The `count` bits from `position` on, as a two's-complement number.
    pub fn read_i16(&self, position: usize, count: usize) -> (value: i16)
        requires
            self.wf(),
            count <= 16,
            position + count <= self.bits().len(),
        ensures
            value == signed_value(
                value_of_bits(E::little(), self.bits().subrange(position as int, position + count)),
                count as nat,
            ),
    {
        let unsigned: u64 = self.read_value(position, count);
        proof {
            lemma_pow2_widths();
            if count > 0 {
                lemma_pow2_monotonic((count - 1) as nat, 15);
            }
        }
        sign_extend(unsigned, count) as i16
    }

    /// The `count` bits from `position` on, as a two's-complement number.
    pub fn read_i32(&self, position: usize, count: usize) -> (value: i32)
        requires
            self.wf(),
            count <= 32,
            position + count <= self.bits().len(),
        ensures
            value == signed_value(
                value_of_bits(E::little(), self.bits().subrange(position as int, position + count)),
                count as nat,
            ),
    {
        let unsigned: u64 = self.read_value(position, count);
        proof {
            lemma_pow2_widths();
            if count > 0 {
                lemma_pow2_monotonic((count - 1) as nat, 31);
            }
        }
        sign_extend(unsigned, count) as i32
    }
}

} // verus!
