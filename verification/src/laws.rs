//! What holds across reading and writing: a value written is the value read
//! back, whatever stands before and after it in the stream.
use crate::bits::{
    bits_of_bytes, bytes_of_bits, lemma_bits_of_bytes_of_bits, lemma_bits_of_bytes_subrange,
    lemma_bits_of_one_byte, lemma_value_of_bits_of_value, pattern_of, signed_value,
    value_of_bits, zero_bits,
};
use crate::buffer::BitBuffer;
use crate::endianness::Endianness;
use crate::error::ReadError;
use crate::num::BitInt;
use crate::stream::{byte_at, bytes_at, int_reads, text_len, text_reads, BitStream};
use crate::writebuffer::padding_for;
use crate::writestream::{int_bits, text_bits, BitWriteStream};
use vstd::arithmetic::div_mod::{lemma_mod_mod, lemma_small_mod};
use vstd::arithmetic::power2::{lemma_pow2_adds, lemma_pow2_pos, lemma_pow2_unfold, pow2};
use vstd::arithmetic::power2::lemma2_to64;
use vstd::prelude::*;
use vstd::utf8::{decode_utf8, valid_utf8};

verus! {

/// The number that comes back when the low `count` bits of `value` are
/// written and then read as an integer with or without a sign: `value` cut
/// to `count` bits, and, with a sign, the top bit of the field taken as the
/// sign.
pub open spec fn masked(signed: bool, value: int, count: nat) -> int {
    if signed {
        signed_value(pattern_of(value, count), count)
    } else {
        pattern_of(value, count) as int
    }
}

/// A number that fits in `count` bits, with or without a sign.
pub open spec fn fits(signed: bool, value: int, count: nat) -> bool {
    if signed {
        count > 0 && -pow2((count - 1) as nat) <= value < pow2((count - 1) as nat)
    } else {
        0 <= value < pow2(count)
    }
}

/// A number that fits in a field is not changed by cutting it to the field.
pub proof fn lemma_masked_fits(signed: bool, value: int, count: nat)
    requires
        fits(signed, value, count),
    ensures
        masked(signed, value, count) == value,
{
    lemma_pow2_pos(count);
    let p = pow2(count) as int;
    if signed {
        lemma_pow2_unfold(count);
        if value >= 0 {
            lemma_small_mod(value as nat, pow2(count));
        } else {
            vstd::arithmetic::div_mod::lemma_mod_add_multiples_vanish(value, p);
            lemma_small_mod((value + p) as nat, pow2(count));
        }
    } else {
        lemma_small_mod(value as nat, pow2(count));
    }
}

/// Round trip of an integer: where the low `count` bits of `value` stand in
/// a stream, after any bits and before any bits, reading `count` bits there
/// as the same type succeeds and gives `value` cut to `count` bits, under
/// either bit order.
pub proof fn lemma_int_round_trip<T: BitInt>(
    little: bool,
    before: Seq<bool>,
    value: T,
    count: nat,
    after: Seq<bool>,
    outcome: Result<T, ReadError>,
    end: nat,
)
    requires
        count <= T::width(),
        int_reads::<T>(
            little,
            before + int_bits(little, value, count) + after,
            before.len(),
            count,
            outcome,
            end,
        ),
    ensures
        outcome is Ok,
        end == before.len() + count,
        outcome->Ok_0.as_int() == masked(T::signed(), value.as_int(), count),
        fits(T::signed(), value.as_int(), count) ==> outcome->Ok_0.as_int() == value.as_int(),
{
    let field = int_bits(little, value, count);
    let all = before + field + after;
    let pattern = pattern_of(value.as_int(), T::width());
    lemma_value_of_bits_of_value(little, pattern, count);
    assert(all.subrange(before.len() as int, (before.len() + count) as int) =~= field);
    lemma_pow2_pos(count);
    lemma_pow2_pos((T::width() - count) as nat);
    lemma_pow2_adds(count, (T::width() - count) as nat);
    lemma_mod_mod(
        value.as_int(),
        pow2(count) as int,
        pow2((T::width() - count) as nat) as int,
    );
    assert(value_of_bits(little, field) == pattern_of(value.as_int(), count));
    if fits(T::signed(), value.as_int(), count) {
        lemma_masked_fits(T::signed(), value.as_int(), count);
    }
}

/// Sign extension: the value of a signed field of `count` bits, written in
/// `width` bits, has the bits of the field as its low bits and the top bit
/// of the field in every bit above them. It lies in the range of `count`-bit
/// two's-complement numbers.
pub proof fn lemma_sign_extension(value: nat, count: nat, width: nat)
    requires
        0 < count <= width,
        value < pow2(count),
    ensures
        -pow2((count - 1) as nat) <= signed_value(value, count) < pow2((count - 1) as nat),
        pattern_of(signed_value(value, count), width) == if value >= pow2((count - 1) as nat) {
            value + pow2(width) - pow2(count)
        } else {
            value as int
        },
{
    lemma_pow2_unfold(count);
    lemma_pow2_pos(count);
    lemma_pow2_pos(width);
    if count < width {
        vstd::arithmetic::power2::lemma_pow2_strictly_increases(count, width);
    }
    let wide = pow2(width) as int;
    let signed = signed_value(value, count);
    if value >= pow2((count - 1) as nat) {
        vstd::arithmetic::div_mod::lemma_mod_add_multiples_vanish(signed, wide);
        lemma_small_mod((signed + wide) as nat, pow2(width));
    } else {
        lemma_small_mod(value, pow2(width));
    }
}

/// Round trip of two fields across a byte boundary: where a field of 3 bits
/// is followed by one of 13 bits, reading 3 bits and then 13 bits gives both
/// values back, under either bit order.
pub proof fn lemma_two_fields_round_trip(
    little: bool,
    first: u8,
    second: u16,
    first_read: Result<u8, ReadError>,
    middle: nat,
    second_read: Result<u16, ReadError>,
    end: nat,
)
    requires
        first < 8,
        second < 8192,
        int_reads::<u8>(
            little,
            int_bits(little, first, 3) + int_bits(little, second, 13),
            0,
            3,
            first_read,
            middle,
        ),
        int_reads::<u16>(
            little,
            int_bits(little, first, 3) + int_bits(little, second, 13),
            middle,
            13,
            second_read,
            end,
        ),
    ensures
        first_read == Ok::<u8, ReadError>(first),
        middle == 3,
        second_read == Ok::<u16, ReadError>(second),
        end == 16,
{
    let a = int_bits(little, first, 3);
    let b = int_bits(little, second, 13);
    let none = Seq::<bool>::empty();
    lemma2_to64();
    assert(none + a + b =~= a + b);
    assert(a + b + none =~= a + b);
    lemma_int_round_trip::<u8>(little, none, first, 3, b, first_read, middle);
    lemma_int_round_trip::<u16>(little, a, second, 13, none, second_read, end);
}

/// A read buffer over the bytes of a write stream, made over an empty
/// container, holds the bits that were written, and after them the cleared
/// bits that fill the last byte.
pub proof fn lemma_read_back<E: Endianness>(writer: BitWriteStream<E>, reader: BitBuffer<E>)
    requires
        writer.wf(),
        writer.prefix().len() == 0,
        reader.bytes() == writer.bytes(),
    ensures
        reader.bits() == writer.bits() + zero_bits(padding_for(writer.bits().len())),
        reader.bits().subrange(0, writer.bits().len() as int) == writer.bits(),
{
    writer.lemma_bytes();
    let padded = writer.bits() + zero_bits(padding_for(writer.bits().len()));
    assert(writer.bytes() =~= bytes_of_bits(E::little(), padded));
    lemma_bits_of_bytes_of_bits(E::little(), padded);
    assert(padded.subrange(0, writer.bits().len() as int) =~= writer.bits());
}

/// Round trip of an integer through the bytes: where a write stream over an
/// empty container got the low `count` bits of `value` as its last field,
/// and a read buffer is made over its bytes, reading `count` bits as the same
/// type where the field starts succeeds and gives `value` cut to `count`
/// bits; a value that fits in the field comes back unchanged.
pub proof fn lemma_int_written_then_read<E: Endianness, T: BitInt>(
    before: BitWriteStream<E>,
    after: BitWriteStream<E>,
    value: T,
    count: nat,
    reader: BitBuffer<E>,
    outcome: Result<T, ReadError>,
    end: nat,
)
    requires
        after.wf(),
        after.prefix().len() == 0,
        count <= T::width(),
        after.bits() == before.bits() + int_bits(E::little(), value, count),
        reader.bytes() == after.bytes(),
        int_reads::<T>(E::little(), reader.bits(), before.bits().len(), count, outcome, end),
    ensures
        outcome is Ok,
        end == before.bits().len() + count,
        outcome->Ok_0.as_int() == masked(T::signed(), value.as_int(), count),
        fits(T::signed(), value.as_int(), count) ==> outcome->Ok_0.as_int() == value.as_int(),
{
    lemma_read_back(after, reader);
    lemma_int_round_trip::<T>(
        E::little(),
        before.bits(),
        value,
        count,
        zero_bits(padding_for(after.bits().len())),
        outcome,
        end,
    );
}

/// Round trip of a splice: where the unread bits of `source` were written
/// after the bits of `before`, which may end anywhere in a byte, a read
/// buffer over the bytes of the result holds the bits of `before` and then
/// those of `source`, bit for bit.
pub proof fn lemma_splice_round_trip<E: Endianness>(
    before: BitWriteStream<E>,
    after: BitWriteStream<E>,
    source: BitStream<E>,
    reader: BitBuffer<E>,
)
    requires
        after.wf(),
        source.wf(),
        after.prefix().len() == 0,
        after.bits() == before.bits() + source.bits().subrange(
            source.position() as int,
            source.bits().len() as int,
        ),
        reader.bytes() == after.bytes(),
    ensures
        reader.bits().subrange(before.bits().len() as int, after.bits().len() as int)
            == source.bits().subrange(source.position() as int, source.bits().len() as int),
        source.position() == 0 ==> reader.bits().subrange(
            before.bits().len() as int,
            (before.bits().len() + source.bits().len()) as int,
        ) == source.bits(),
{
    source.lemma_position();
    lemma_read_back(after, reader);
    let rest = source.bits().subrange(source.position() as int, source.bits().len() as int);
    assert(after.bits().subrange(before.bits().len() as int, after.bits().len() as int) =~= rest);
    assert(reader.bits().subrange(before.bits().len() as int, after.bits().len() as int)
        =~= after.bits().subrange(before.bits().len() as int, after.bits().len() as int));
    if source.position() == 0 {
        assert(rest =~= source.bits());
    }
}

/// A byte that was written is the byte that stands where it was written,
/// whatever bits come before and after the bytes.
pub proof fn lemma_byte_at_written(
    little: bool,
    before: Seq<bool>,
    bytes: Seq<u8>,
    after: Seq<bool>,
    i: int,
)
    requires
        0 <= i < bytes.len(),
    ensures
        byte_at(
            little,
            before + bits_of_bytes(little, bytes) + after,
            (before.len() + 8 * i) as nat,
        ) == bytes[i],
{
    let all = before + bits_of_bytes(little, bytes) + after;
    let at = before.len() + 8 * i;
    assert(all.subrange(at, at + 8) =~= bits_of_bytes(little, bytes).subrange(8 * i, 8 * i + 8));
    lemma_bits_of_bytes_subrange(little, bytes, i, i + 1);
    assert(bytes.subrange(i, i + 1) =~= seq![bytes[i]]);
    lemma_bits_of_one_byte(little, bytes[i]);
    lemma_value_of_bits_of_value(little, bytes[i] as nat, 8);
    lemma2_to64();
    lemma_small_mod(bytes[i] as nat, 256);
}

/// Where `n` bytes without a zero byte among them are followed by a zero
/// byte or by the limit, the text has `n` bytes.
pub proof fn lemma_text_len_found(little: bool, bits: Seq<bool>, pos: nat, limit: nat, n: nat)
    requires
        n <= limit,
        forall|i: int| 0 <= i < n ==> #[trigger] byte_at(little, bits, (pos + 8 * i) as nat) != 0,
        n < limit ==> byte_at(little, bits, (pos + 8 * n) as nat) == 0,
    ensures
        text_len(little, bits, pos, limit) == n,
    decreases n,
{
    if n > 0 {
        assert(byte_at(little, bits, (pos + 8 * 0) as nat) != 0);
        assert forall|i: int| 0 <= i < n - 1 implies #[trigger] byte_at(
            little,
            bits,
            (pos + 8 + 8 * i) as nat,
        ) != 0 by {
            assert(byte_at(little, bits, (pos + 8 * (i + 1)) as nat) != 0);
        }
        lemma_text_len_found(little, bits, pos + 8, (limit - 1) as nat, (n - 1) as nat);
    }
}

/// Round trip of a string: where a text that is valid UTF-8 and holds no
/// zero byte was written with `padding` zero bytes behind it, after any
/// bits and before any bits, reading a string where it starts gives the
/// text back. Without a length the text must have been written with one zero
/// byte, which is taken too; with a length the field is the text and its
/// padding.
pub proof fn lemma_text_round_trip(
    little: bool,
    before: Seq<bool>,
    text: Seq<u8>,
    padding: nat,
    after: Seq<bool>,
    byte_len: Option<nat>,
    outcome: Result<String, ReadError>,
    end: nat,
)
    requires
        valid_utf8(text),
        forall|i: int| 0 <= i < text.len() ==> text[i] != 0,
        match byte_len {
            Some(n) => n == text.len() + padding,
            None => padding == 1,
        },
        text_reads(
            little,
            before + text_bits(little, text, padding) + after,
            before.len(),
            byte_len,
            outcome,
            end,
        ),
    ensures
        outcome is Ok,
        outcome->Ok_0@ == decode_utf8(text),
        end == before.len() + 8 * (text.len() + padding),
{
    let field = text + Seq::new(padding, |i: int| 0u8);
    let all = before + text_bits(little, text, padding) + after;
    let pos = before.len();
    let n = text.len();
    assert forall|i: int| 0 <= i < field.len() implies #[trigger] byte_at(
        little,
        all,
        (pos + 8 * i) as nat,
    ) == field[i] by {
        lemma_byte_at_written(little, before, field, after, i);
    }
    assert forall|i: int| 0 <= i < n implies #[trigger] byte_at(
        little,
        all,
        (pos + 8 * i) as nat,
    ) != 0 by {
        assert(field[i] == text[i]);
    }
    let limit = match byte_len {
        Some(m) => m,
        None => ((all.len() - pos) / 8) as nat,
    };
    if n < limit && padding > 0 {
        assert(field[n as int] == 0);
        assert(byte_at(little, all, (pos + 8 * n) as nat) == 0);
    }
    lemma_text_len_found(little, all, pos, limit, n);
    assert(bytes_at(little, all, pos, n) =~= text);
}

} // verus!
