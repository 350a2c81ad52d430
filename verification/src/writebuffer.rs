//! The write buffer: a growing run of bytes to which bits are appended, and
//! in which a span that was reserved can be filled in later.
use crate::bits::{
    bits_of_bytes, bits_of_value, bytes_of_bits, lemma_bits_of_bytes_concat,
    lemma_bits_of_bytes_of_bits, lemma_bytes_of_bits_of_bytes, lemma_bits_of_bytes_subrange, lemma_bits_of_value_of_bits,
    lemma_value_concat, lemma_value_of_bits_of_value, lemma_value_of_zero_bits, value_of_bits,
    zero_bits,
};
use crate::endianness::Endianness;
use crate::num::lemma_pow2_widths;
use crate::word::{load, replace, replaced, store};
use vstd::arithmetic::div_mod::lemma_fundamental_div_mod;
use vstd::arithmetic::power2::{lemma_pow2_pos, pow2};
use vstd::prelude::*;

verus! {

/// A sink of bits over a byte container. The bytes that the container held
/// when the buffer was made stay in front, untouched; the bits written
/// follow them, packed eight to a byte, and the bits of the last byte that
/// are not written yet are cleared.
pub struct WriteBuffer<E: Endianness> {
    data: Vec<u8>,
    start: usize,
    bit_len: usize,
    endianness: E,
}

/// The number of bytes that hold `bits` bits.
pub open spec fn bytes_for(bits: nat) -> nat {
    (bits + 7) / 8
}

/// The number of cleared bits that fill `bits` bits up to a whole byte.
pub open spec fn padding_for(bits: nat) -> nat {
    (8 * bytes_for(bits) - bits) as nat
}

/// The bits of a run of bytes after a field in some of them is set: the
/// field's bits are replaced and every other bit stays.
pub proof fn lemma_field_set(
    little: bool,
    bytes: Seq<u8>,
    index: int,
    len: int,
    offset: int,
    count: int,
    value: nat,
    after: Seq<u8>,
)
    requires
        0 <= index,
        0 <= len,
        index + len <= bytes.len(),
        0 <= offset,
        0 <= count,
        offset + count <= 8 * len,
        after == bytes.subrange(0, index) + bytes_of_bits(
            little,
            replaced(
                little,
                bits_of_bytes(little, bytes.subrange(index, index + len)),
                offset,
                count,
                value,
            ),
        ) + bytes.subrange(index + len, bytes.len() as int),
    ensures
        after.len() == bytes.len(),
        after.subrange(0, index) == bytes.subrange(0, index),
        bits_of_bytes(little, after) == replaced(
            little,
            bits_of_bytes(little, bytes),
            8 * index + offset,
            count,
            value,
        ),
{
    let n = bytes.len() as int;
    let all = bits_of_bytes(little, bytes);
    let head = bytes.subrange(0, index);
    let held = bytes.subrange(index, index + len);
    let tail = bytes.subrange(index + len, n);
    let container = bits_of_bytes(little, held);
    let field = replaced(little, container, offset, count, value);
    let laid = bytes_of_bits(little, field);
    assert(field.len() == 8 * len);
    lemma_bits_of_bytes_of_bits(little, field);
    lemma_bits_of_bytes_concat(little, head, laid);
    lemma_bits_of_bytes_concat(little, head + laid, tail);
    lemma_bits_of_bytes_subrange(little, bytes, 0, index);
    lemma_bits_of_bytes_subrange(little, bytes, index, index + len);
    lemma_bits_of_bytes_subrange(little, bytes, index + len, n);
    assert(after.subrange(0, index) =~= head);
    assert(bits_of_bytes(little, after) == all.subrange(0, 8 * index) + field + all.subrange(
        8 * (index + len),
        8 * n,
    ));
    lemma_replaced_inside(little, all, 8 * index, 8 * (index + len), offset, count, value);
}

/// Replacing a field in a part of a run of bits replaces it in the run.
pub proof fn lemma_replaced_inside(
    little: bool,
    all: Seq<bool>,
    from: int,
    to: int,
    offset: int,
    count: int,
    value: nat,
)
    requires
        0 <= from <= to <= all.len(),
        0 <= offset,
        0 <= count,
        offset + count <= to - from,
    ensures
        all.subrange(0, from) + replaced(little, all.subrange(from, to), offset, count, value)
            + all.subrange(to, all.len() as int) == replaced(
            little,
            all,
            from + offset,
            count,
            value,
        ),
{
    let part = all.subrange(from, to);
    let field = bits_of_value(little, value, count as nat);
    assert(part.subrange(0, offset) =~= all.subrange(from, from + offset));
    assert(part.subrange(offset + count, part.len() as int) =~= all.subrange(
        from + offset + count,
        to,
    ));
    let left = all.subrange(0, from) + (all.subrange(from, from + offset) + field + all.subrange(
        from + offset + count,
        to,
    )) + all.subrange(to, all.len() as int);
    let right = all.subrange(0, from + offset) + field + all.subrange(
        from + offset + count,
        all.len() as int,
    );
    assert(left =~= right);
}

/// Replacing a field inside a window of a run of bits replaces it in the
/// window and leaves the bits outside the window as they are.
pub proof fn lemma_replaced_window(
    little: bool,
    all: Seq<bool>,
    from: int,
    len: int,
    at: int,
    count: int,
    value: nat,
)
    requires
        0 <= from,
        0 <= at,
        0 <= count,
        at + count <= len,
        from + len <= all.len(),
    ensures
        ({
            let next = replaced(little, all, from + at, count, value);
            &&& next.len() == all.len()
            &&& next.subrange(from, from + len) == replaced(
                little,
                all.subrange(from, from + len),
                at,
                count,
                value,
            )
            &&& forall|p: int| 0 <= p < from || from + len <= p < all.len() ==> next[p] == all[p]
        }),
{
    let next = replaced(little, all, from + at, count, value);
    let window = replaced(little, all.subrange(from, from + len), at, count, value);
    assert(next.subrange(from, from + len) =~= window);
}

impl<E: Endianness> WriteBuffer<E> {
    /// Every bit of the container, those of the bytes in front included.
    pub closed spec fn all_bits(&self) -> Seq<bool> {
        bits_of_bytes(E::little(), self.data@)
    }

    /// The container holds the bytes in front and the bytes of the bits
    /// written, and the bits after the last one written are cleared.
    pub closed spec fn wf(&self) -> bool {
        &&& self.data@.len() == self.start + bytes_for(self.bit_len as nat)
        &&& forall|p: int|
            8 * self.start + self.bit_len <= p < 8 * self.data@.len() ==> !#[trigger] self.all_bits()[p]
    }

    /// The bytes that were in the container before the buffer was made.
    pub closed spec fn prefix(&self) -> Seq<u8> {
        self.data@.subrange(0, self.start as int)
    }

    /// The bits written so far, in stream order.
    pub closed spec fn bits(&self) -> Seq<bool> {
        self.all_bits().subrange(8 * self.start, 8 * self.start + self.bit_len)
    }

    /// The bytes of the container.
    pub closed spec fn bytes(&self) -> Seq<u8> {
        self.data@
    }

    /// The container is the bytes in front and then the bytes that hold the
    /// bits written, filled up with cleared bits to a whole byte.
    pub proof fn lemma_bytes(&self)
        requires
            self.wf(),
        ensures
            self.bytes() == self.prefix() + bytes_of_bits(
                E::little(),
                self.bits() + zero_bits(padding_for(self.bits().len())),
            ),
            self.bytes().len() == self.prefix().len() + bytes_for(self.bits().len()),
    {
        let n = self.data@.len() as int;
        let little = E::little();
        let own = self.data@.subrange(self.start as int, n);
        lemma_bits_of_bytes_subrange(little, self.data@, self.start as int, n);
        let pad = padding_for(self.bit_len as nat);
        assert forall|p: int| 0 <= p < 8 * own.len() implies bits_of_bytes(little, own)[p] == (
        self.bits() + zero_bits(pad))[p] by {
            if p >= self.bit_len {
                assert(!self.all_bits()[8 * self.start + p]);
            }
        }
        assert(bits_of_bytes(little, own) =~= self.bits() + zero_bits(pad));
        lemma_bytes_of_bits_of_bytes(little, own);
        assert(self.data@ =~= self.prefix() + own);
    }

    /// A buffer that appends to `data`.
    pub fn new(data: Vec<u8>, endianness: E) -> (buffer: Self)
        ensures
            buffer.wf(),
            buffer.prefix() == data@,
            buffer.bits() == Seq::<bool>::empty(),
    {
        let start: usize = data.len();
        let buffer = WriteBuffer { data, start, bit_len: 0, endianness };
        proof {
            assert(buffer.prefix() =~= data@);
            assert(buffer.bits() =~= Seq::<bool>::empty());
        }
        buffer
    }

    /// The number of bits written.
    pub fn bit_len(&self) -> (len: usize)
        requires
            self.wf(),
        ensures
            len == self.bits().len(),
    {
        self.bit_len
    }

    /// The number of bytes that the bits written take.
    pub fn byte_len(&self) -> (len: usize)
        requires
            self.wf(),
        ensures
            len == bytes_for(self.bits().len()),
    {
        self.data.len() - self.start
    }

    /// The bytes of the container as they stand: the bytes in front, and
    /// then the bits written, the last byte filled up with cleared bits.
    pub fn as_bytes(&self) -> (bytes: &[u8])
        requires
            self.wf(),
        ensures
            bytes@ == self.bytes(),
            bytes@ == self.prefix() + bytes_of_bits(
                E::little(),
                self.bits() + zero_bits(padding_for(self.bits().len())),
            ),
    {
        proof {
            self.lemma_bytes();
        }
        self.data.as_slice()
    }

    /// Gives the container back: the bytes in front, and then the bits
    /// written, the last byte filled up with cleared bits.
    pub fn into_bytes(self) -> (bytes: Vec<u8>)
        requires
            self.wf(),
        ensures
            bytes@ == self.bytes(),
            bytes@ == self.prefix() + bytes_of_bits(
                E::little(),
                self.bits() + zero_bits(padding_for(self.bits().len())),
            ),
    {
        proof {
            self.lemma_bytes();
        }
        self.data
    }

    /// Appends `count` cleared bits, to be set later, and says where they
    /// start.
    pub fn reserve(&mut self, count: usize) -> (at: usize)
        requires
            old(self).wf(),
            old(self).bits().len() + count <= usize::MAX,
        ensures
            final(self).wf(),
            final(self).prefix() == old(self).prefix(),
            at == old(self).bits().len(),
            final(self).bits() == old(self).bits() + zero_bits(count as nat),
    {
        let at: usize = self.bit_len;
        let total: usize = self.bit_len + count;
        let extra: usize = if total % 8 > 0 {
            1
        } else {
            0
        };
        let needed: usize = total / 8 + extra;
        let have: usize = self.data.len() - self.start;
        let mut k: usize = have;
        let ghost little = E::little();
        let ghost before = self.data@;
        while k < needed
            invariant
                have <= k,
                have <= needed,
                k <= needed || k == have,
                self.start == old(self).start,
                self.bit_len == old(self).bit_len,
                before == old(self).data@,
                have == before.len() - self.start,
                self.data@ == before + Seq::new((k - have) as nat, |i: int| 0u8),
            decreases needed - k,
        {
            self.data.push(0);
            k = k + 1;
            proof {
                assert(self.data@ =~= before + Seq::new((k - have) as nat, |i: int| 0u8));
            }
        }
        self.bit_len = total;
        proof {
            let added = Seq::new((k - have) as nat, |i: int| 0u8);
            lemma_bits_of_bytes_concat(little, before, added);
            lemma_value_of_zero_bits(little, 8);
            assert(bits_of_bytes(little, added) =~= zero_bits(8 * added.len()));
            assert(self.prefix() =~= old(self).prefix());
            assert(self.bits() =~= old(self).bits() + zero_bits(count as nat)) by {
                assert forall|p: int| 0 <= p < total implies self.bits()[p] == (old(self).bits()
                    + zero_bits(count as nat))[p] by {
                    if p >= at && 8 * self.start + p < 8 * before.len() {
                        assert(!old(self).all_bits()[8 * self.start + p]);
                    }
                }
            }
            assert forall|p: int|
                8 * self.start + self.bit_len <= p < 8 * self.data@.len() implies !#[trigger] self.all_bits()[p] by {
                if p < 8 * before.len() {
                    assert(!old(self).all_bits()[p]);
                }
            }
        }
        at
    }

    /// Sets the `count` bits from bit `at` on to the low `count` bits of
    /// `value`. Every other bit stays as it is.
    pub fn set_bits(&mut self, at: usize, value: u64, count: usize)
        requires
            old(self).wf(),
            count <= 64,
            at + count <= old(self).bits().len(),
        ensures
            final(self).wf(),
            final(self).prefix() == old(self).prefix(),
            final(self).bits() == replaced(
                E::little(),
                old(self).bits(),
                at as int,
                count as int,
                value as nat,
            ),
    {
        let ghost little = E::little();
        if count == 0 {
            proof {
                assert(self.bits() =~= replaced(little, self.bits(), at as int, 0, value as nat));
            }
            return ;
        }
        let size: usize = self.data.len();
        let index: usize = self.start + at / 8;
        let offset: usize = at % 8;
        let len: usize = (offset + count + 7) / 8;
        let word: u128 = load(E::is_le(), self.data.as_slice(), index, len);
        let ghost held = self.data@.subrange(index as int, index + len);
        let ghost container = bits_of_bytes(little, held);
        let next: u128 = replace(E::is_le(), word, 8 * len, offset, count, value);
        let ghost field = replaced(little, container, offset as int, count as int, value as nat);
        proof {
            assert(value_of_bits(little, container) == word);
            lemma_bits_of_value_of_bits(little, field);
        }
        store(E::is_le(), &mut self.data, index, len, next);
        proof {
            lemma_field_set(
                little,
                old(self).data@,
                index as int,
                len as int,
                offset as int,
                count as int,
                value as nat,
                self.data@,
            );
            lemma_replaced_window(
                little,
                old(self).all_bits(),
                8 * self.start,
                self.bit_len as int,
                at as int,
                count as int,
                value as nat,
            );
            assert(self.prefix() == old(self).prefix()) by {
                assert(self.data@.subrange(0, index as int).subrange(0, self.start as int)
                    =~= self.data@.subrange(0, self.start as int));
                assert(old(self).data@.subrange(0, index as int).subrange(0, self.start as int)
                    =~= old(self).data@.subrange(0, self.start as int));
            }
        }
    }

    /// Appends the low `count` bits of `value`.
    pub fn push_bits(&mut self, value: u64, count: usize)
        requires
            old(self).wf(),
            count <= 64,
            old(self).bits().len() + count <= usize::MAX,
        ensures
            final(self).wf(),
            final(self).prefix() == old(self).prefix(),
            final(self).bits() == old(self).bits() + bits_of_value(
                E::little(),
                value as nat,
                count as nat,
            ),
    {
        let at: usize = self.reserve(count);
        self.set_bits(at, value, count);
        proof {
            assert(self.bits() =~= old(self).bits() + bits_of_value(
                E::little(),
                value as nat,
                count as nat,
            ));
        }
    }

    /// Appends the low `count` bits of `value`, which may be more than a
    /// word holds: they go in as two fields, in the order of the stream.
    pub fn push_non_fit_bits(&mut self, value: u128, count: usize)
        requires
            old(self).wf(),
            count <= 128,
            old(self).bits().len() + count <= usize::MAX,
        ensures
            final(self).wf(),
            final(self).prefix() == old(self).prefix(),
            final(self).bits() == old(self).bits() + bits_of_value(
                E::little(),
                value as nat,
                count as nat,
            ),
    {
        let ghost little = E::little();
        let low: u64 = (value % 0x10000000000000000u128) as u64;
        let high: u64 = (value / 0x10000000000000000u128) as u64;
        if count <= 64 {
            self.push_bits(low, count);
            proof {
                lemma_split_bits(little, value as nat, count as nat);
            }
        } else {
            if E::is_le() {
                self.push_bits(low, 64);
                self.push_bits(high, count - 64);
            } else {
                self.push_bits(high, count - 64);
                self.push_bits(low, 64);
            }
            proof {
                lemma_split_bits(little, value as nat, count as nat);
                let a = bits_of_value(little, low as nat, 64);
                let b = bits_of_value(little, high as nat, (count - 64) as nat);
                if little {
                    assert(self.bits() =~= old(self).bits() + (a + b));
                } else {
                    assert(self.bits() =~= old(self).bits() + (b + a));
                }
            }
        }
    }
}

/// The bits of a number, by the bits of its low 64-bit word and of the rest.
pub proof fn lemma_split_bits(little: bool, value: nat, count: nat)
    ensures
        count <= 64 ==> bits_of_value(little, value, count) == bits_of_value(
            little,
            value % pow2(64),
            count,
        ),
        count > 64 ==> bits_of_value(little, value, count) == if little {
            bits_of_value(little, value % pow2(64), 64) + bits_of_value(
                little,
                value / pow2(64),
                (count - 64) as nat,
            )
        } else {
            bits_of_value(little, value / pow2(64), (count - 64) as nat) + bits_of_value(
                little,
                value % pow2(64),
                64,
            )
        },
        pow2(64) == 0x10000000000000000,
{
    lemma_pow2_widths();
    lemma_pow2_pos(64);
    let low = value % pow2(64);
    let high = value / pow2(64);
    lemma_fundamental_div_mod(value as int, pow2(64) as int);
    if count <= 64 {
        let a = bits_of_value(little, value, count);
        let b = bits_of_value(little, low, count);
        lemma_value_of_bits_of_value(little, value, count);
        lemma_value_of_bits_of_value(little, low, count);
        lemma_pow2_pos(count);
        lemma_low_mod(value, count, 64);
        crate::bits::lemma_value_injective(little, a, b);
    } else {
        let rest = (count - 64) as nat;
        let a = bits_of_value(little, low, 64);
        let b = bits_of_value(little, high, rest);
        let whole = bits_of_value(little, value, count);
        lemma_value_of_bits_of_value(little, value, count);
        lemma_value_of_bits_of_value(little, low, 64);
        lemma_value_of_bits_of_value(little, high, rest);
        lemma_pow2_pos(rest);
        vstd::arithmetic::power2::lemma_pow2_adds(64, rest);
        vstd::arithmetic::div_mod::lemma_mod_breakdown(
            value as int,
            pow2(64) as int,
            pow2(rest) as int,
        );
        vstd::arithmetic::div_mod::lemma_small_mod(low, pow2(64));
        vstd::arithmetic::div_mod::lemma_mod_bound(value as int, pow2(64) as int);
        if little {
            lemma_value_concat(little, a, b);
            crate::bits::lemma_value_injective(little, whole, a + b);
        } else {
            lemma_value_concat(little, b, a);
            assert(pow2(64) * (high % pow2(rest)) == (high % pow2(rest)) * pow2(64))
                by (nonlinear_arith);
            crate::bits::lemma_value_injective(little, whole, b + a);
        }
    }
}

/// A number cut to `wide` bits and then to fewer is the number cut to the
/// fewer.
pub proof fn lemma_low_mod(value: nat, count: nat, wide: nat)
    requires
        count <= wide,
    ensures
        (value % pow2(wide)) % pow2(count) == value % pow2(count),
{
    lemma_pow2_pos(count);
    lemma_pow2_pos((wide - count) as nat);
    vstd::arithmetic::power2::lemma_pow2_adds(count, (wide - count) as nat);
    vstd::arithmetic::div_mod::lemma_mod_mod(
        value as int,
        pow2(count) as int,
        pow2((wide - count) as nat) as int,
    );
}

} // verus!
