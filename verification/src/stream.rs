//! The read stream: a cursor over a read buffer, with bounds-checked reads of
//! typed values.
use crate::bits::{signed_value, value_of_bits};
use crate::buffer::BitBuffer;
use crate::endianness::Endianness;
use crate::error::ReadError;
use crate::num::{widen, BitInt};
use crate::read::{BitRead, BitReadSized};
use vstd::arithmetic::power2::lemma2_to64;
use vstd::prelude::*;
use vstd::utf8::{decode_utf8, valid_utf8};

verus! {

/// A window of a read buffer and a position in it. Reads advance the
/// position and never move it back; the bits never change.
pub struct BitStream<'a, E: Endianness> {
    buffer: BitBuffer<'a, E>,
    start: usize,
    position: usize,
    end: usize,
}

/// The number that a field stands for: two's-complement where `signed`.
pub open spec fn int_of_bits(little: bool, signed: bool, field: Seq<bool>) -> int {
    if signed {
        signed_value(value_of_bits(little, field), field.len())
    } else {
        value_of_bits(little, field) as int
    }
}

/// Reading a `count`-bit integer of type `T` at `pos` of `bits` gives
/// `outcome` and leaves the position at `end`: too wide a field and too
/// short a stream are refused with the position unmoved, in that order.
pub open spec fn int_reads<T: BitInt>(
    little: bool,
    bits: Seq<bool>,
    pos: nat,
    count: nat,
    outcome: Result<T, ReadError>,
    end: nat,
) -> bool {
    if count > T::width() {
        &&& outcome == Err::<T, ReadError>(
            ReadError::TooManyBits { requested: count as usize, max: T::width() as usize },
        )
        &&& end == pos
    } else if pos + count > bits.len() {
        &&& outcome == Err::<T, ReadError>(
            ReadError::NotEnoughData {
                requested: count as usize,
                bits_left: (bits.len() - pos) as usize,
            },
        )
        &&& end == pos
    } else {
        &&& outcome is Ok
        &&& outcome->Ok_0.as_int() == int_of_bits(
            little,
            T::signed(),
            bits.subrange(pos as int, (pos + count) as int),
        )
        &&& end == pos + count
    }
}

/// Reading one bit at `pos` of `bits` as a boolean gives `outcome` and leaves
/// the position at `end`.
pub open spec fn bool_reads(bits: Seq<bool>, pos: nat, outcome: Result<bool, ReadError>, end: nat) -> bool {
    if pos + 1 > bits.len() {
        &&& outcome == Err::<bool, ReadError>(
            ReadError::NotEnoughData { requested: 1, bits_left: 0 },
        )
        &&& end == pos
    } else {
        &&& outcome == Ok::<bool, ReadError>(bits[pos as int])
        &&& end == pos + 1
    }
}

/// Carving `count` bits out of `bits` at `pos` gives `outcome` and leaves the
/// position at `end`.
pub open spec fn bits_read<'a, E: Endianness>(
    bits: Seq<bool>,
    pos: nat,
    count: nat,
    outcome: Result<BitStream<'a, E>, ReadError>,
    end: nat,
) -> bool {
    if pos + count > bits.len() {
        &&& outcome == Err::<BitStream<'a, E>, ReadError>(
            ReadError::NotEnoughData {
                requested: count as usize,
                bits_left: (bits.len() - pos) as usize,
            },
        )
        &&& end == pos
    } else {
        &&& outcome is Ok
        &&& outcome->Ok_0.wf()
        &&& outcome->Ok_0.bits() == bits.subrange(pos as int, (pos + count) as int)
        &&& outcome->Ok_0.position() == 0
        &&& end == pos + count
    }
}

/// The byte that the eight bits from `pos` on stand for.
pub open spec fn byte_at(little: bool, bits: Seq<bool>, pos: nat) -> u8 {
    value_of_bits(little, bits.subrange(pos as int, (pos + 8) as int)) as u8
}

/// The `count` bytes that the bits from `pos` on stand for.
pub open spec fn bytes_at(little: bool, bits: Seq<bool>, pos: nat, count: nat) -> Seq<u8> {
    Seq::new(count, |i: int| byte_at(little, bits, (pos + 8 * i) as nat))
}

/// The number of bytes from `pos` on that come before the first zero byte,
/// among at most `limit` bytes.
pub open spec fn text_len(little: bool, bits: Seq<bool>, pos: nat, limit: nat) -> nat
    decreases limit,
{
    if limit == 0 || byte_at(little, bits, pos) == 0 {
        0
    } else {
        1 + text_len(little, bits, pos + 8, (limit - 1) as nat)
    }
}

/// Decoding `bytes` as UTF-8 gives `outcome`.
pub open spec fn text_decodes(bytes: Seq<u8>, outcome: Result<String, ReadError>) -> bool {
    if valid_utf8(bytes) {
        outcome is Ok && outcome->Ok_0@ == decode_utf8(bytes)
    } else {
        outcome == Err::<String, ReadError>(ReadError::InvalidText)
    }
}

/// Reading a string at `pos` of `bits` gives `outcome` and leaves the
/// position at `end`.
///
/// With a length, that many bytes are taken, and the text is what comes
/// before the first zero byte among them. Without one, the text runs up to a
/// zero byte, which is taken too, or up to the end of the stream; bits left
/// over that do not make up a byte are an error.
pub open spec fn text_reads(
    little: bool,
    bits: Seq<bool>,
    pos: nat,
    byte_len: Option<nat>,
    outcome: Result<String, ReadError>,
    end: nat,
) -> bool {
    let left = (bits.len() - pos) as nat;
    match byte_len {
        Some(n) => if 8 * n > left {
            &&& outcome == Err::<String, ReadError>(
                ReadError::NotEnoughData {
                    requested: if 8 * n > usize::MAX { usize::MAX } else { (8 * n) as usize },
                    bits_left: left as usize,
                },
            )
            &&& end == pos
        } else {
            &&& text_decodes(bytes_at(little, bits, pos, text_len(little, bits, pos, n)), outcome)
            &&& end == pos + 8 * n
        },
        None => {
            let limit = left / 8;
            let n = text_len(little, bits, pos, limit);
            if n == limit && left % 8 != 0 {
                &&& outcome == Err::<String, ReadError>(
                    ReadError::NotEnoughData { requested: 8, bits_left: (left % 8) as usize },
                )
                &&& end == pos + 8 * n
            } else {
                &&& text_decodes(bytes_at(little, bits, pos, n), outcome)
                &&& end == if n < limit { pos + 8 * n + 8 } else { pos + 8 * n }
            }
        },
    }
}

/// `String::from_utf8` of std: the text that `bytes` encode, where they are
/// valid UTF-8, and nothing where they are not. The string holds the bytes
/// it was made from, so its characters are what they decode to.
#[verifier::external_body]
fn text_from_utf8(bytes: Vec<u8>) -> (text: Option<String>)
    ensures
        text is Some <==> valid_utf8(bytes@),
        text is Some ==> text->Some_0@ == decode_utf8(bytes@),
{
    String::from_utf8(bytes).ok()
}

/// A field of one bit stands for one where the bit is set, for zero where it
/// is not.
pub proof fn lemma_value_of_one_bit(little: bool, field: Seq<bool>)
    requires
        field.len() == 1,
    ensures
        value_of_bits(little, field) == if field[0] { 1nat } else { 0nat },
{
    assert(field.reverse() =~= field);
    assert(field.drop_first().len() == 0);
    reveal_with_fuel(crate::bits::le_value, 3);
}

impl<'a, E: Endianness> Clone for BitStream<'a, E> {
    /// A second cursor over the same bits at the same position; the two
    /// advance independently.
    fn clone(&self) -> (copy: Self)
        ensures
            copy == *self,
    {
        BitStream {
            buffer: self.buffer,
            start: self.start,
            position: self.position,
            end: self.end,
        }
    }
}

impl<'a, E: Endianness> BitStream<'a, E> {
    /// The window lies in the buffer and the position in the window.
    pub closed spec fn wf(&self) -> bool {
        &&& self.buffer.wf()
        &&& self.start <= self.position <= self.end <= self.buffer.bits().len()
    }

    /// The bits of the stream.
    pub closed spec fn bits(&self) -> Seq<bool> {
        self.buffer.bits().subrange(self.start as int, self.end as int)
    }

    /// The number of bits read so far.
    pub closed spec fn position(&self) -> nat {
        (self.position - self.start) as nat
    }

    /// The position lies within the stream.
    pub proof fn lemma_position(&self)
        requires
            self.wf(),
        ensures
            self.position() <= self.bits().len(),
    {
    }

    /// A stream over the whole of `buffer`, at its start.
    pub fn new(buffer: BitBuffer<'a, E>) -> (stream: Self)
        requires
            buffer.wf(),
        ensures
            stream.wf(),
            stream.bits() == buffer.bits(),
            stream.position() == 0,
    {
        let end: usize = buffer.bit_len();
        proof {
            assert(buffer.bits().subrange(0, end as int) =~= buffer.bits());
        }
        BitStream { buffer, start: 0, position: 0, end }
    }

    /// The number of bits in the stream.
    pub fn bit_len(&self) -> (len: usize)
        requires
            self.wf(),
        ensures
            len == self.bits().len(),
    {
        self.end - self.start
    }

    /// The number of bits read so far.
    pub fn pos(&self) -> (pos: usize)
        requires
            self.wf(),
        ensures
            pos == self.position(),
            pos <= self.bits().len(),
    {
        self.position - self.start
    }

    /// The number of bits not read yet.
    pub fn bits_left(&self) -> (left: usize)
        requires
            self.wf(),
        ensures
            left == self.bits().len() - self.position(),
    {
        self.end - self.position
    }

    /// Reads `count` bits as an unsigned number, for a caller that knows
    /// that they are there.
    pub fn read_value(&mut self, count: usize) -> (value: u64)
        requires
            old(self).wf(),
            count <= 64,
            old(self).position() + count <= old(self).bits().len(),
        ensures
            final(self).wf(),
            final(self).bits() == old(self).bits(),
            final(self).position() == old(self).position() + count,
            value == value_of_bits(
                E::little(),
                old(self).bits().subrange(
                    old(self).position() as int,
                    old(self).position() + count,
                ),
            ),
    {
        let value: u64 = self.buffer.read_value(self.position, count);
        proof {
            assert(self.buffer.bits().subrange(self.position as int, self.position + count)
                =~= self.bits().subrange(
                self.position() as int,
                self.position() + count,
            ));
        }
        self.position = self.position + count;
        value
    }

    /// Reads `count` bits as an integer of type `T`, sign-extended where `T`
    /// has a sign.
    pub fn read_int<T: BitInt>(&mut self, count: usize) -> (outcome: Result<T, ReadError>)
        requires
            old(self).wf(),
        ensures
            final(self).wf(),
            final(self).bits() == old(self).bits(),
            int_reads::<T>(
                E::little(),
                old(self).bits(),
                old(self).position(),
                count as nat,
                outcome,
                final(self).position(),
            ),
    {
        let width: usize = T::bit_width();
        if count > width {
            return Err(ReadError::TooManyBits { requested: count, max: width });
        }
        let left: usize = self.end - self.position;
        if count > left {
            return Err(ReadError::NotEnoughData { requested: count, bits_left: left });
        }
        let raw: u128 = self.buffer.read_wide(self.position, count);
        proof {
            assert(self.buffer.bits().subrange(self.position as int, self.position + count)
                =~= self.bits().subrange(
                self.position() as int,
                self.position() + count,
            ));
        }
        self.position = self.position + count;
        let pattern: u128 = widen(raw, count, width, T::is_signed());
        Ok(T::from_pattern(pattern))
    }

    /// Reads one bit: set is `true`, cleared is `false`.
    pub fn read_bool(&mut self) -> (outcome: Result<bool, ReadError>)
        requires
            old(self).wf(),
        ensures
            final(self).wf(),
            final(self).bits() == old(self).bits(),
            bool_reads(old(self).bits(), old(self).position(), outcome, final(self).position()),
    {
        if self.end - self.position < 1 {
            return Err(ReadError::NotEnoughData { requested: 1, bits_left: 0 });
        }
        let raw: u64 = self.buffer.read_value(self.position, 1);
        proof {
            let field = self.buffer.bits().subrange(self.position as int, self.position + 1);
            lemma_value_of_one_bit(E::little(), field);
            assert(field[0] == self.bits()[self.position() as int]);
        }
        self.position = self.position + 1;
        Ok(raw == 1)
    }

    /// The bytes from bit `from` of the buffer on that come before the first
    /// zero byte, among at most `limit` bytes.
    fn scan_text(&self, from: usize, limit: usize) -> (bytes: Vec<u8>)
        requires
            self.wf(),
            self.start <= from,
            from + 8 * limit <= self.end,
        ensures
            bytes@ == bytes_at(
                E::little(),
                self.bits(),
                (from - self.start) as nat,
                text_len(E::little(), self.bits(), (from - self.start) as nat, limit as nat),
            ),
            bytes@.len() <= limit,
    {
        let ghost little = E::little();
        let ghost pos = (from - self.start) as nat;
        let mut bytes: Vec<u8> = Vec::new();
        let mut k: usize = 0;
        while k < limit
            invariant_except_break
                text_len(little, self.bits(), pos, limit as nat) == k + text_len(
                    little,
                    self.bits(),
                    (pos + 8 * k) as nat,
                    (limit - k) as nat,
                ),
            invariant
                self.wf(),
                little == E::little(),
                self.start <= from,
                pos == from - self.start,
                from + 8 * limit <= self.end,
                k <= limit,
                bytes@.len() == k,
                bytes@ == bytes_at(little, self.bits(), pos, k as nat),
            ensures
                text_len(little, self.bits(), pos, limit as nat) == k,
            decreases limit - k,
        {
            let at: usize = from + 8 * k;
            let raw: u64 = self.buffer.read_value(at, 8);
            proof {
                lemma2_to64();
                assert(self.buffer.bits().subrange(at as int, at + 8) =~= self.bits().subrange(
                    (pos + 8 * k) as int,
                    pos + 8 * k + 8,
                ));
                assert(raw == byte_at(little, self.bits(), (pos + 8 * k) as nat));
            }
            if raw == 0 {
                break;
            }
            bytes.push(raw as u8);
            proof {
                assert(bytes@ =~= bytes_at(little, self.bits(), pos, (k + 1) as nat));
            }
            k = k + 1;
        }
        bytes
    }

    /// Reads a string. With `Some(n)`, `n` bytes are taken and the text is
    /// what comes before the first zero byte among them; with `None`, the
    /// text runs up to a zero byte or the end of the stream.
    pub fn read_string(&mut self, byte_len: Option<usize>) -> (outcome: Result<String, ReadError>)
        requires
            old(self).wf(),
        ensures
            final(self).wf(),
            final(self).bits() == old(self).bits(),
            old(self).position() <= final(self).position(),
            text_reads(
                E::little(),
                old(self).bits(),
                old(self).position(),
                match byte_len {
                    Some(n) => Some(n as nat),
                    None => None,
                },
                outcome,
                final(self).position(),
            ),
    {
        let left: usize = self.end - self.position;
        let bytes: Vec<u8> = match byte_len {
            Some(n) => {
                if n > left / 8 {
                    let requested: usize = if n > usize::MAX / 8 {
                        usize::MAX
                    } else {
                        n * 8
                    };
                    return Err(ReadError::NotEnoughData { requested, bits_left: left });
                }
                let bytes: Vec<u8> = self.scan_text(self.position, n);
                self.position = self.position + 8 * n;
                bytes
            },
            None => {
                let limit: usize = left / 8;
                let bytes: Vec<u8> = self.scan_text(self.position, limit);
                let n: usize = bytes.len();
                self.position = self.position + 8 * n;
                if n < limit {
                    self.position = self.position + 8;
                } else if left % 8 != 0 {
                    return Err(ReadError::NotEnoughData { requested: 8, bits_left: left % 8 });
                }
                bytes
            },
        };
        match text_from_utf8(bytes) {
            Some(text) => Ok(text),
            None => Err(ReadError::InvalidText),
        }
    }

    /// Carves the next `count` bits out as a stream of their own, at its
    /// start, and moves past them.
    pub fn read_bits(&mut self, count: usize) -> (outcome: Result<BitStream<'a, E>, ReadError>)
        requires
            old(self).wf(),
        ensures
            final(self).wf(),
            final(self).bits() == old(self).bits(),
            bits_read(
                old(self).bits(),
                old(self).position(),
                count as nat,
                outcome,
                final(self).position(),
            ),
    {
        let left: usize = self.end - self.position;
        if count > left {
            return Err(ReadError::NotEnoughData { requested: count, bits_left: left });
        }
        let part = BitStream {
            buffer: self.buffer,
            start: self.position,
            position: self.position,
            end: self.position + count,
        };
        proof {
            assert(part.bits() =~= self.bits().subrange(
                self.position() as int,
                self.position() + count,
            ));
        }
        self.position = self.position + count;
        Ok(part)
    }

    /// Reads a value of a type that knows its own size.
    pub fn read<T: BitRead<E>>(&mut self) -> (outcome: Result<T, ReadError>)
        requires
            old(self).wf(),
        ensures
            final(self).wf(),
            final(self).bits() == old(self).bits(),
            old(self).position() <= final(self).position(),
            T::reads(old(self).bits(), old(self).position(), outcome, final(self).position()),
    {
        T::read(self)
    }

    /// Reads a value of a type whose size the caller gives: a number of
    /// bits, of bytes or of items, as the type has it.
    pub fn read_sized<T: BitReadSized<E>>(&mut self, size: usize) -> (outcome: Result<
        T,
        ReadError,
    >)
        requires
            old(self).wf(),
        ensures
            final(self).wf(),
            final(self).bits() == old(self).bits(),
            old(self).position() <= final(self).position(),
            T::reads_sized(
                old(self).bits(),
                old(self).position(),
                size as nat,
                outcome,
                final(self).position(),
            ),
    {
        T::read(self, size)
    }
}

} // verus!
