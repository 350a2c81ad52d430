//! The write stream: typed writes over a write buffer, the splice of a read
//! stream, and the length prefix that is written after its section.
use crate::bits::{
    bits_of_bytes, bits_of_value, bytes_of_bits, lemma_bits_of_bytes_concat, lemma_bits_of_one_byte,
    lemma_bits_of_value_of_bits, pattern_of, zero_bits,
};
use crate::endianness::Endianness;
use crate::error::BitError;
use crate::num::{lemma_pow2_widths, BitInt};
use crate::stream::BitStream;
use crate::word::{lemma_pow2_monotonic, pow2_u128, replaced};
use crate::write::{BitWrite, BitWriteSized};
use crate::writebuffer::{bytes_for, padding_for, WriteBuffer};
use vstd::arithmetic::power2::{lemma2_to64, lemma_pow2_unfold, pow2};
use vstd::prelude::*;
use vstd::utf8::encode_utf8;

verus! {

/// A stream that writes values that need not end on byte boundaries.
pub struct BitWriteStream<E: Endianness> {
    buffer: WriteBuffer<E>,
}

/// The low `count` bits of the bit pattern of `value`, in stream order.
pub open spec fn int_bits<T: BitInt>(little: bool, value: T, count: nat) -> Seq<bool> {
    bits_of_value(little, pattern_of(value.as_int(), T::width()), count)
}

/// The bits of a string field: the bytes of the text, then `padding` zero
/// bytes.
pub open spec fn text_bits(little: bool, text: Seq<u8>, padding: nat) -> Seq<bool> {
    bits_of_bytes(little, text + Seq::new(padding, |i: int| 0u8))
}

/// The number of bits that it takes to write `value`.
pub open spec fn bits_needed(value: nat) -> nat
    decreases value,
{
    if value == 0 {
        0
    } else {
        1 + bits_needed(value / 2)
    }
}

/// A number fits in as many bits as it needs, and in no fewer.
pub proof fn lemma_bits_needed(value: nat)
    ensures
        value < pow2(bits_needed(value)),
        value > 0 ==> pow2((bits_needed(value) - 1) as nat) <= value,
    decreases value,
{
    lemma2_to64();
    if value > 0 {
        lemma_bits_needed(value / 2);
        lemma_pow2_unfold(bits_needed(value));
        if value / 2 > 0 {
            lemma_pow2_unfold(bits_needed(value / 2));
        }
    }
}

/// One bit, as the one-bit field that holds it.
pub proof fn lemma_bits_of_flag(little: bool, flag: bool)
    ensures
        bits_of_value(little, if flag { 1nat } else { 0nat }, 1) == seq![flag],
{
    lemma2_to64();
    let value = if flag { 1nat } else { 0nat };
    let field = crate::bits::le_bits(value, 1);
    assert(pow2(0) == 1);
    assert(field.len() == 1);
    assert(field[0] == ((value / pow2(0)) % 2 == 1));
    assert(field =~= seq![flag]);
    assert(field.reverse() =~= seq![flag]);
}

impl<E: Endianness> BitWriteStream<E> {
    /// The buffer underneath is sound.
    pub closed spec fn wf(&self) -> bool {
        self.buffer.wf()
    }

    /// The bits written so far, in stream order.
    pub closed spec fn bits(&self) -> Seq<bool> {
        self.buffer.bits()
    }

    /// The bytes that were in the container before the stream was made.
    pub closed spec fn prefix(&self) -> Seq<u8> {
        self.buffer.prefix()
    }

    /// The bytes of the container.
    pub closed spec fn bytes(&self) -> Seq<u8> {
        self.buffer.bytes()
    }

    /// The container is the bytes in front and then the bytes that hold the
    /// bits written, filled up with cleared bits to a whole byte.
    pub proof fn lemma_bytes(&self)
        requires
            self.wf(),
        ensures
            self.bytes() == self.prefix() + bytes_of_bits(
                E::little(),
                self.bits() + zero_bits(padding_for(self.bits().len())),
            ),
            self.bytes().len() == self.prefix().len() + bytes_for(self.bits().len()),
    {
        self.buffer.lemma_bytes();
    }

    /// A stream that appends to `data`.
    pub fn new(data: Vec<u8>, endianness: E) -> (stream: Self)
        ensures
            stream.wf(),
            stream.prefix() == data@,
            stream.bits() == Seq::<bool>::empty(),
    {
        BitWriteStream { buffer: WriteBuffer::new(data, endianness) }
    }

    /// The number of bits written.
    pub fn bit_len(&self) -> (len: usize)
        requires
            self.wf(),
        ensures
            len == self.bits().len(),
    {
        self.buffer.bit_len()
    }

    /// The number of bytes that the bits written take.
    pub fn byte_len(&self) -> (len: usize)
        requires
            self.wf(),
        ensures
            len == bytes_for(self.bits().len()),
    {
        self.buffer.byte_len()
    }

    /// The bytes of the container as they stand: the bytes in front, and
    /// then the bits written, the last byte filled up with cleared bits.
    pub fn as_bytes(&self) -> (bytes: &[u8])
        requires
            self.wf(),
        ensures
            bytes@ == self.bytes(),
            bytes@ == self.prefix() + bytes_of_bits(
                E::little(),
                self.bits() + zero_bits(padding_for(self.bits().len())),
            ),
    {
        self.buffer.as_bytes()
    }

    /// Gives the container back: the bytes in front, and then the bits
    /// written, the last byte filled up with cleared bits.
    pub fn into_bytes(self) -> (bytes: Vec<u8>)
        requires
            self.wf(),
        ensures
            bytes@ == self.bytes(),
            bytes@ == self.prefix() + bytes_of_bits(
                E::little(),
                self.bits() + zero_bits(padding_for(self.bits().len())),
            ),
    {
        self.buffer.into_bytes()
    }

    /// Appends the low `count` bits of a value that may be wider than a
    /// word.
    pub fn push_non_fit_bits(&mut self, value: u128, count: usize)
        requires
            old(self).wf(),
            count <= 128,
            old(self).bits().len() + count <= usize::MAX,
        ensures
            final(self).wf(),
            final(self).prefix() == old(self).prefix(),
            final(self).bits() == old(self).bits() + bits_of_value(
                E::little(),
                value as nat,
                count as nat,
            ),
    {
        self.buffer.push_non_fit_bits(value, count)
    }

    /// Appends the low `count` bits of `value`.
    pub fn push_bits(&mut self, value: u64, count: usize)
        requires
            old(self).wf(),
            count <= 64,
            old(self).bits().len() + count <= usize::MAX,
        ensures
            final(self).wf(),
            final(self).prefix() == old(self).prefix(),
            final(self).bits() == old(self).bits() + bits_of_value(
                E::little(),
                value as nat,
                count as nat,
            ),
    {
        self.buffer.push_bits(value, count)
    }

    /// Writes a boolean as one bit.
    pub fn write_bool(&mut self, value: bool) -> (outcome: Result<(), BitError>)
        requires
            old(self).wf(),
            old(self).bits().len() + 1 <= usize::MAX,
        ensures
            final(self).wf(),
            final(self).prefix() == old(self).prefix(),
            outcome is Ok,
            final(self).bits() == old(self).bits().push(value),
    {
        let bit: u64 = if value {
            1
        } else {
            0
        };
        self.push_bits(bit, 1);
        proof {
            lemma_bits_of_flag(E::little(), value);
            assert(self.bits() =~= old(self).bits().push(value));
        }
        Ok(())
    }

    /// Writes the low `count` bits of an integer. A count above the width of
    /// the type is refused, and nothing is written.
    pub fn write_int<T: BitInt>(&mut self, value: T, count: usize) -> (outcome: Result<
        (),
        BitError,
    >)
        requires
            old(self).wf(),
            count <= T::width() ==> old(self).bits().len() + count <= usize::MAX,
        ensures
            final(self).wf(),
            final(self).prefix() == old(self).prefix(),
            count > T::width() ==> outcome == Err::<(), BitError>(
                BitError::TooManyBits { requested: count, max: T::width() as usize },
            ) && final(self).bits() == old(self).bits(),
            count <= T::width() ==> outcome is Ok && final(self).bits() == old(self).bits()
                + int_bits(E::little(), value, count as nat),
    {
        let width: usize = T::bit_width();
        if width < count {
            return Err(BitError::TooManyBits { requested: count, max: width });
        }
        let pattern: u128 = value.to_pattern();
        if width < 64 {
            proof {
                lemma_pow2_widths();
                lemma_pow2_monotonic(width as nat, 64);
            }
            self.push_bits(pattern as u64, count);
        } else {
            self.push_non_fit_bits(pattern, count);
        }
        Ok(())
    }

    /// Writes bytes, eight bits each.
    pub fn write_bytes(&mut self, bytes: &[u8]) -> (outcome: Result<(), BitError>)
        requires
            old(self).wf(),
            old(self).bits().len() + 8 * bytes@.len() <= usize::MAX,
        ensures
            final(self).wf(),
            final(self).prefix() == old(self).prefix(),
            outcome is Ok,
            final(self).bits() == old(self).bits() + bits_of_bytes(E::little(), bytes@),
    {
        let ghost little = E::little();
        let total: usize = bytes.len();
        let mut k: usize = 0;
        proof {
            assert(bits_of_bytes(little, bytes@.subrange(0, 0)) =~= Seq::<bool>::empty());
            assert(self.bits() =~= old(self).bits() + Seq::<bool>::empty());
        }
        while k < total
            invariant
                k <= total,
                total == bytes@.len(),
                little == E::little(),
                self.wf(),
                self.prefix() == old(self).prefix(),
                old(self).bits().len() + 8 * total <= usize::MAX,
                self.bits() == old(self).bits() + bits_of_bytes(
                    little,
                    bytes@.subrange(0, k as int),
                ),
            decreases total - k,
        {
            let byte: u8 = bytes[k];
            self.push_bits(byte as u64, 8);
            proof {
                let done = bytes@.subrange(0, k as int);
                assert(bytes@.subrange(0, k + 1) =~= done + seq![byte]);
                lemma_bits_of_bytes_concat(little, done, seq![byte]);
                lemma_bits_of_one_byte(little, byte);
                assert(self.bits() =~= old(self).bits() + bits_of_bytes(
                    little,
                    bytes@.subrange(0, k + 1),
                ));
            }
            k = k + 1;
        }
        proof {
            assert(bytes@.subrange(0, total as int) =~= bytes@);
        }
        Ok(())
    }

    /// Writes what is left to read in `source`, bit for bit, wherever this
    /// stream and `source` stand in their bytes. `source` itself does not
    /// move.
    pub fn write_bits(&mut self, source: &BitStream<E>) -> (outcome: Result<(), BitError>)
        requires
            old(self).wf(),
            source.wf(),
            old(self).bits().len() + source.bits().len() - source.position() <= usize::MAX,
        ensures
            final(self).wf(),
            final(self).prefix() == old(self).prefix(),
            outcome is Ok,
            final(self).bits() == old(self).bits() + source.bits().subrange(
                source.position() as int,
                source.bits().len() as int,
            ),
    {
        let ghost little = E::little();
        let ghost from = source.position() as int;
        let ghost all = source.bits();
        let mut rest = source.clone();
        proof {
            source.lemma_position();
            assert(self.bits() =~= old(self).bits() + all.subrange(from, from));
        }
        // Bring this stream to a byte boundary with a short field.
        let offset: usize = self.bit_len() % 8;
        if offset > 0 {
            let left: usize = rest.bits_left();
            let count: usize = if left < 8 - offset {
                left
            } else {
                8 - offset
            };
            let ghost at = rest.position() as int;
            let field: u64 = rest.read_value(count);
            self.push_bits(field, count);
            proof {
                lemma_bits_of_value_of_bits(little, all.subrange(at, at + count));
                assert(self.bits() =~= old(self).bits() + all.subrange(
                    from,
                    rest.position() as int,
                ));
            }
        }
        // Whole words, then what is left.
        while rest.bits_left() > 0
            invariant
                little == E::little(),
                self.wf(),
                rest.wf(),
                rest.bits() == all,
                0 <= from <= rest.position() <= all.len(),
                self.prefix() == old(self).prefix(),
                old(self).bits().len() + all.len() - from <= usize::MAX,
                self.bits() == old(self).bits() + all.subrange(from, rest.position() as int),
            decreases all.len() - rest.position(),
        {
            let left: usize = rest.bits_left();
            let count: usize = if left > 64 {
                64
            } else {
                left
            };
            let ghost at = rest.position() as int;
            let field: u64 = rest.read_value(count);
            self.push_bits(field, count);
            proof {
                lemma_bits_of_value_of_bits(little, all.subrange(at, at + count));
                assert(all.subrange(from, at) + all.subrange(at, at + count) =~= all.subrange(
                    from,
                    at + count,
                ));
                assert(self.bits() =~= old(self).bits() + all.subrange(
                    from,
                    rest.position() as int,
                ));
            }
        }
        Ok(())
    }

    /// Writes a string. With `Some(n)`, the field has `n` bytes: the bytes of
    /// the text and then zero bytes; a text of more than `n` bytes is
    /// refused, and nothing is written. With `None`, the bytes of the text
    /// are followed by one zero byte.
    pub fn write_string(&mut self, string: &str, length: Option<usize>) -> (outcome: Result<
        (),
        BitError,
    >)
        requires
            old(self).wf(),
            match length {
                Some(n) => n < encode_utf8(string@).len() || old(self).bits().len() + 8 * n
                    <= usize::MAX,
                None => old(self).bits().len() + 8 * (encode_utf8(string@).len() + 1)
                    <= usize::MAX,
            },
        ensures
            final(self).wf(),
            final(self).prefix() == old(self).prefix(),
            match length {
                Some(n) => if n < encode_utf8(string@).len() {
                    &&& outcome == Err::<(), BitError>(
                        BitError::StringToLong {
                            string_length: encode_utf8(string@).len() as usize,
                            requested_length: n,
                        },
                    )
                    &&& final(self).bits() == old(self).bits()
                } else {
                    &&& outcome is Ok
                    &&& final(self).bits() == old(self).bits() + text_bits(
                        E::little(),
                        encode_utf8(string@),
                        (n - encode_utf8(string@).len()) as nat,
                    )
                },
                None => {
                    &&& outcome is Ok
                    &&& final(self).bits() == old(self).bits() + text_bits(
                        E::little(),
                        encode_utf8(string@),
                        1,
                    )
                },
            },
    {
        let ghost little = E::little();
        let ghost text = encode_utf8(string@);
        let bytes: &[u8] = string.as_bytes();
        let text_len: usize = bytes.len();
        let padding: usize = match length {
            Some(n) => {
                if n < text_len {
                    return Err(
                        BitError::StringToLong { string_length: text_len, requested_length: n },
                    );
                }
                n - text_len
            },
            None => 1,
        };
        let _ = self.write_bytes(bytes);
        let mut k: usize = 0;
        proof {
            assert(text + Seq::new(0, |i: int| 0u8) =~= text);
        }
        while k < padding
            invariant
                k <= padding,
                little == E::little(),
                self.wf(),
                self.prefix() == old(self).prefix(),
                old(self).bits().len() + 8 * (text.len() + padding) <= usize::MAX,
                self.bits() == old(self).bits() + text_bits(little, text, k as nat),
            decreases padding - k,
        {
            self.push_bits(0, 8);
            proof {
                let done = text + Seq::new(k as nat, |i: int| 0u8);
                assert(text + Seq::new((k + 1) as nat, |i: int| 0u8) =~= done + seq![0u8]);
                lemma_bits_of_bytes_concat(little, done, seq![0u8]);
                lemma_bits_of_one_byte(little, 0u8);
                assert(self.bits() =~= old(self).bits() + text_bits(little, text, (k + 1) as nat));
            }
            k = k + 1;
        }
        Ok(())
    }

    /// Writes a value of a type that knows its own layout.
    pub fn write<T: BitWrite<E>>(&mut self, value: &T) -> (outcome: Result<(), BitError>)
        requires
            old(self).wf(),
            old(self).bits().len() + value.written().len() <= usize::MAX,
        ensures
            final(self).wf(),
            final(self).prefix() == old(self).prefix(),
            final(self).bits() == old(self).bits() + value.written(),
            match value.failure() {
                Some(error) => outcome == Err::<(), BitError>(error),
                None => outcome is Ok,
            },
    {
        value.write(self)
    }

    /// Writes a value of a type whose size the caller gives.
    pub fn write_sized<T: BitWriteSized<E>>(&mut self, value: &T, length: usize) -> (outcome:
        Result<(), BitError>)
        requires
            old(self).wf(),
            old(self).bits().len() + value.written_sized(length as nat).len() <= usize::MAX,
        ensures
            final(self).wf(),
            final(self).prefix() == old(self).prefix(),
            final(self).bits() == old(self).bits() + value.written_sized(length as nat),
            match value.failure_sized(length as nat) {
                Some(error) => outcome == Err::<(), BitError>(error),
                None => outcome is Ok,
            },
    {
        value.write_sized(self, length)
    }

    /// Appends `count` cleared bits, to be set later, and says where they
    /// start.
    pub fn reserve(&mut self, count: usize) -> (at: usize)
        requires
            old(self).wf(),
            old(self).bits().len() + count <= usize::MAX,
        ensures
            final(self).wf(),
            final(self).prefix() == old(self).prefix(),
            at == old(self).bits().len(),
            final(self).bits() == old(self).bits() + zero_bits(count as nat),
    {
        self.buffer.reserve(count)
    }

    /// Writes `length` into the `length_bit_size` bits from bit `at` on, which
    /// were reserved for it. A length that does not fit in the field is
    /// refused, and nothing is written.
    pub fn write_length(&mut self, at: usize, length_bit_size: usize, length: usize) -> (outcome:
        Result<(), BitError>)
        requires
            old(self).wf(),
            length_bit_size <= 64,
            at + length_bit_size <= old(self).bits().len(),
        ensures
            final(self).wf(),
            final(self).prefix() == old(self).prefix(),
            outcome == length_outcome(length as nat, length_bit_size as nat),
            length < pow2(length_bit_size as nat) ==> final(self).bits() == replaced(
                E::little(),
                old(self).bits(),
                at as int,
                length_bit_size as int,
                length as nat,
            ),
            length >= pow2(length_bit_size as nat) ==> final(self).bits() == old(self).bits(),
    {
        proof {
            lemma_pow2_widths();
        }
        if length_bit_size < 64 && length as u128 >= pow2_u128(length_bit_size) {
            let requested: usize = count_bits(length);
            return Err(BitError::TooManyBits { requested, max: length_bit_size });
        }
        self.buffer.set_bits(at, length as u64, length_bit_size);
        Ok(())
    }

    /// Writes a section with the number of its bits in front: reserves
    /// `length_bit_size` bits, lets `body_fn` write the section, and then
    /// sets the reserved bits to the number of bits that it wrote.
    ///
    /// A field of more than 64 bits is refused before anything is written.
    /// Where `body_fn` fails, its error comes back and the reserved bits stay
    /// cleared; so they do where the section is too long for the field.
    pub fn reserve_length<F: Fn(&mut BitWriteStream<E>) -> Result<(), BitError>>(
        &mut self,
        length_bit_size: usize,
        body_fn: F,
    ) -> (outcome: Result<(), BitError>)
        requires
            old(self).wf(),
            old(self).bits().len() + length_bit_size <= usize::MAX,
            forall|stream: &mut BitWriteStream<E>|
                stream.wf() && stream.prefix() == old(self).prefix() && stream.bits() == old(self).bits()
                    + zero_bits(length_bit_size as nat) ==> #[trigger] call_requires(
                    body_fn,
                    (stream,),
                ),
            forall|stream: &mut BitWriteStream<E>, result: Result<(), BitError>|
                stream.wf() && #[trigger] call_ensures(body_fn, (stream,), result) ==> {
                    &&& final(stream).wf()
                    &&& final(stream).prefix() == stream.prefix()
                    &&& stream.bits().len() <= final(stream).bits().len()
                    &&& final(stream).bits().subrange(0, stream.bits().len() as int)
                        == stream.bits()
                },
        ensures
            final(self).wf(),
            final(self).prefix() == old(self).prefix(),
            length_bit_size > 64 ==> final(self).bits() == old(self).bits() && outcome == Err::<
                (),
                BitError,
            >(BitError::TooManyBits { requested: length_bit_size, max: 64 }),
            length_bit_size <= 64 ==> section_written(
                E::little(),
                old(self).bits(),
                length_bit_size as nat,
                final(self).bits(),
                outcome,
            ),
            length_bit_size <= 64 ==> exists|
                tail: &mut BitWriteStream<E>,
                result: Result<(), BitError>,
            |
                {
                    &&& #[trigger] call_ensures(body_fn, (tail,), result)
                    &&& tail.prefix() == old(self).prefix()
                    &&& tail.bits() == old(self).bits() + zero_bits(length_bit_size as nat)
                    &&& final(tail).bits().len() == final(self).bits().len()
                    &&& final(tail).bits().subrange(
                        tail.bits().len() as int,
                        final(tail).bits().len() as int,
                    ) == final(self).bits().subrange(
                        tail.bits().len() as int,
                        final(self).bits().len() as int,
                    )
                    &&& result is Err ==> outcome == result
                    &&& result is Ok ==> outcome == length_outcome(
                        (final(tail).bits().len() - tail.bits().len()) as nat,
                        length_bit_size as nat,
                    )
                },
    {
        if length_bit_size > 64 {
            return Err(BitError::TooManyBits { requested: length_bit_size, max: 64 });
        }
        let ghost little = E::little();
        let at: usize = self.reserve(length_bit_size);
        let start: usize = self.bit_len();
        let ghost reserved = self.bits();
        let result = body_fn(self);
        proof {
            assert(self.bits().subrange(0, at as int) =~= reserved.subrange(0, at as int));
            assert(reserved.subrange(0, at as int) =~= old(self).bits());
            assert(self.bits().subrange(at as int, start as int) =~= reserved.subrange(
                at as int,
                start as int,
            ));
            assert(reserved.subrange(at as int, start as int) =~= zero_bits(
                length_bit_size as nat,
            ));
        }
        if let Err(error) = result {
            proof {
                assert(self.bits() =~= old(self).bits() + zero_bits(length_bit_size as nat)
                    + self.bits().subrange(start as int, self.bits().len() as int));
            }
            return Err(error);
        }
        let end: usize = self.bit_len();
        let ghost body = self.bits().subrange(start as int, end as int);
        let ghost written = self.bits();
        let outcome = self.write_length(at, length_bit_size, end - start);
        proof {
            let length = (end - start) as nat;
            assert(written =~= old(self).bits() + zero_bits(length_bit_size as nat) + body);
            assert(body.len() == length);
            if length < pow2(length_bit_size as nat) {
                assert(self.bits() =~= old(self).bits() + bits_of_value(
                    little,
                    length,
                    length_bit_size as nat,
                ) + body);
            }
            assert(self.bits().subrange(start as int, self.bits().len() as int) =~= body);
        }
        outcome
    }
}

/// What writing the length `length` into a field of `size` bits gives: a
/// length that does not fit is refused.
pub open spec fn length_outcome(length: nat, size: nat) -> Result<(), BitError> {
    if length < pow2(size) {
        Ok(())
    } else {
        Err(BitError::TooManyBits { requested: bits_needed(length) as usize, max: size as usize })
    }
}

/// What a section with its length in front leaves behind, after the bits
/// `before`, in a field of `size` bits: `after` is what the stream then
/// holds, `outcome` what the write gave.
///
/// The section's bits follow the field. Where the write went well, the field
/// holds their number; where it failed, the field is cleared, and a failure
/// of the field's own is that the number does not fit in it.
pub open spec fn section_written(
    little: bool,
    before: Seq<bool>,
    size: nat,
    after: Seq<bool>,
    outcome: Result<(), BitError>,
) -> bool {
    let body = after.subrange((before.len() + size) as int, after.len() as int);
    &&& after.len() >= before.len() + size
    &&& match outcome {
        Ok(_) => body.len() < pow2(size) && after == before + bits_of_value(
            little,
            body.len(),
            size,
        ) + body,
        Err(_) => after == before + zero_bits(size) + body,
    }
}

/// The number of bits that it takes to write `value`.
pub fn count_bits(value: usize) -> (count: usize)
    ensures
        count == bits_needed(value as nat),
        count <= 64,
{
    let mut rest: usize = value;
    let mut count: usize = 0;
    proof {
        lemma_bits_needed(value as nat);
        lemma_pow2_widths();
        if value > 0 && bits_needed(value as nat) > 64 {
            lemma_pow2_monotonic(64, (bits_needed(value as nat) - 1) as nat);
        }
    }
    while rest > 0
        invariant
            bits_needed(value as nat) == count + bits_needed(rest as nat),
            bits_needed(value as nat) <= 64,
        decreases rest,
    {
        rest = rest / 2;
        count = count + 1;
    }
    count
}

} // verus!
