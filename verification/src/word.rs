//! The word engine: a few bytes taken as one number, a field cut out of that
//! number, a field set into it, and the number laid back into bytes.
use crate::bits::{
    bits_of_bytes, bits_of_value, bytes_of_bits, lemma_bits_of_bytes_concat, lemma_bits_of_one_byte,
    lemma_value_bound, lemma_value_concat, lemma_value_of_bits_of_value, lemma_value_subrange,
    value_of_bits,
};
use vstd::arithmetic::div_mod::*;
use vstd::arithmetic::power2::*;
use vstd::prelude::*;

verus! {

/// The widest container, in bits, that the engine handles: a field of up to
/// 64 bits that starts anywhere in a byte spans at most nine bytes.
pub const MAX_WORD_BITS: usize = 72;

proof fn lemma_shl_one(n: u32)
    requires
        n < 128,
    ensures
        (1u128 << n) == pow2(n as nat),
    decreases n,
{
    if n == 0 {
        assert(1u128 << 0u32 == 1u128) by (bit_vector);
        lemma2_to64();
    } else {
        lemma_shl_one((n - 1) as u32);
        let m = (n - 1) as u32;
        assert((1u128 << n) == 2 * (1u128 << m)) by (bit_vector)
            requires
                0 < n < 128,
                m == n - 1,
        ;
        lemma_pow2_unfold(n as nat);
    }
}

/// Powers of two grow with the exponent.
pub proof fn lemma_pow2_monotonic(a: nat, b: nat)
    requires
        a <= b,
    ensures
        pow2(a) <= pow2(b),
{
    if a < b {
        lemma_pow2_strictly_increases(a, b);
    }
}

/// Two to the 128th is one more than the largest `u128`.
pub proof fn lemma_pow2_128()
    ensures
        pow2(128) == u128::MAX + 1,
        pow2(64) == u64::MAX + 1,
{
    lemma2_to64();
    lemma_pow2_adds(64, 64);
    assert(0x10000000000000000int * 0x10000000000000000int
        == 0x100000000000000000000000000000000int) by (nonlinear_arith);
}

/// Two to the power `n`.
pub fn pow2_u128(n: usize) -> (p: u128)
    requires
        n < 128,
    ensures
        p == pow2(n as nat),
        p > 0,
{
    proof {
        lemma_shl_one(n as u32);
        lemma_pow2_pos(n as nat);
    }
    1u128 << (n as u32)
}

/// The number that `len` bytes of `bytes` from `index` on stand for.
pub fn load(little: bool, bytes: &[u8], index: usize, len: usize) -> (word: u128)
    requires
        8 * len <= MAX_WORD_BITS,
        index + len <= bytes@.len(),
    ensures
        word == value_of_bits(
            little,
            bits_of_bytes(little, bytes@.subrange(index as int, index + len)),
        ),
        word < pow2(8 * len as nat),
{
    let mut word: u128 = 0;
    let mut k: usize = 0;
    let total: usize = bytes.len();
    proof {
        assert(bits_of_bytes(little, bytes@.subrange(index as int, index as int)) =~= Seq::<
            bool,
        >::empty());
        assert(Seq::<bool>::empty().reverse() =~= Seq::<bool>::empty());
        lemma2_to64();
    }
    while k < len
        invariant
            k <= len,
            8 * len <= MAX_WORD_BITS,
            index + len <= bytes@.len(),
            total == bytes@.len(),
            word == value_of_bits(
                little,
                bits_of_bytes(little, bytes@.subrange(index as int, index + k)),
            ),
            word < pow2(8 * k as nat),
        decreases len - k,
    {
        let byte: u8 = bytes[index + k];
        proof {
            let done = bytes@.subrange(index as int, index + k);
            let next = bytes@.subrange(index as int, index + k + 1);
            assert(next =~= done + seq![byte]);
            lemma_bits_of_bytes_concat(little, done, seq![byte]);
            lemma_bits_of_one_byte(little, byte);
            lemma_value_concat(
                little,
                bits_of_bytes(little, done),
                bits_of_value(little, byte as nat, 8),
            );
            lemma_value_of_bits_of_value(little, byte as nat, 8);
            lemma_value_bound(little, bits_of_bytes(little, next));
            lemma2_to64();
            lemma_small_mod(byte as nat, 256);
            lemma_pow2_monotonic(8 * (k + 1) as nat, 128);
            lemma_pow2_128();
        }
        if little {
            let place: u128 = pow2_u128(8 * k);
            assert(place * byte <= word + place * byte);
            word = word + place * (byte as u128);
        } else {
            assert(word * 256 <= word * 256 + byte);
            word = word * 256 + byte as u128;
        }
        k = k + 1;
    }
    word
}

/// The number of the `count` bits from bit `from` on of a `width`-bit
/// container that stands for `word`.
pub fn extract(little: bool, word: u128, width: usize, from: usize, count: usize) -> (value: u128)
    requires
        width <= MAX_WORD_BITS,
        from + count <= width,
    ensures
        forall|bits: Seq<bool>|
            bits.len() == width && #[trigger] value_of_bits(little, bits) == word ==> value
                == value_of_bits(little, bits.subrange(from as int, from + count)),
        value < pow2(count as nat),
{
    let shift: usize = if little {
        from
    } else {
        width - from - count
    };
    let value: u128 = (word / pow2_u128(shift)) % pow2_u128(count);
    proof {
        assert forall|bits: Seq<bool>|
            bits.len() == width && #[trigger] value_of_bits(little, bits) == word implies value
            == value_of_bits(little, bits.subrange(from as int, from + count)) by {
            lemma_value_subrange(little, bits, from as int, count as int);
        }
    }
    value
}

/// The bits of `bits` with the `count` bits from `from` on replaced by the
/// low `count` bits of `value`.
pub open spec fn replaced(little: bool, bits: Seq<bool>, from: int, count: int, value: nat) -> Seq<
    bool,
> {
    bits.subrange(0, from) + bits_of_value(little, value, count as nat) + bits.subrange(
        from + count,
        bits.len() as int,
    )
}

/// The number of a `width`-bit container that stands for `word`, after the
/// `count` bits from bit `from` on are replaced by the low `count` bits of
/// `field`.
pub fn replace(
    little: bool,
    word: u128,
    width: usize,
    from: usize,
    count: usize,
    field: u64,
) -> (next: u128)
    requires
        width <= MAX_WORD_BITS,
        count <= 64,
        from + count <= width,
        word < pow2(width as nat),
    ensures
        forall|bits: Seq<bool>|
            bits.len() == width && #[trigger] value_of_bits(little, bits) == word ==> next
                == value_of_bits(
                little,
                replaced(little, bits, from as int, count as int, field as nat),
            ),
        next < pow2(width as nat),
{
    let after: usize = width - from - count;
    let low_len: usize = if little {
        from
    } else {
        after
    };
    let high_len: usize = if little {
        after
    } else {
        from
    };
    // The parts below and above the field, by significance.
    let low: u128 = word % pow2_u128(low_len);
    let high: u128 = word / pow2_u128(low_len + count);
    let mid: u128 = (field as u128) % pow2_u128(count);
    proof {
        lemma_pow2_adds(low_len as nat, count as nat);
        lemma_pow2_adds((low_len + count) as nat, high_len as nat);
        lemma_pow2_monotonic(width as nat, 128);
        lemma_pow2_128();
        let pl = pow2(low_len as nat) as int;
        let pc = pow2(count as nat) as int;
        let ph = pow2(high_len as nat) as int;
        lemma_pow2_pos(low_len as nat);
        lemma_pow2_pos(count as nat);
        lemma_pow2_pos(high_len as nat);
        lemma_fundamental_div_mod(word as int, pl * pc);
        lemma_mod_bound(word as int, pl);
        lemma_mod_bound(field as int, pc);
        assert(high < ph) by (nonlinear_arith)
            requires
                word < (pl * pc) * ph,
                word == (pl * pc) * high + word as int % (pl * pc),
                0 <= word as int % (pl * pc),
                pl * pc > 0,
        ;
        assert(low + pl * (mid + pc * high) < pl * pc * ph) by (nonlinear_arith)
            requires
                0 <= low < pl,
                0 <= mid < pc,
                0 <= high < ph,
        ;
        assert(pc * high <= mid + pc * high);
        assert(pl * (mid + pc * high) <= low + pl * (mid + pc * high));
        assert(0 <= pc * high) by (nonlinear_arith)
            requires
                0 < pc,
                0 <= high,
        ;
        assert(0 <= pl * (mid + pc * high)) by (nonlinear_arith)
            requires
                0 < pl,
                0 <= mid + pc * high,
        ;
        assert(mid + pc * high <= pl * (mid + pc * high)) by (nonlinear_arith)
            requires
                0 < pl,
                0 <= mid + pc * high,
        ;
    }
    let next: u128 = low + pow2_u128(low_len) * (mid + pow2_u128(count) * high);
    proof {
        assert forall|bits: Seq<bool>|
            bits.len() == width && #[trigger] value_of_bits(little, bits) == word implies next
            == value_of_bits(
            little,
            replaced(little, bits, from as int, count as int, field as nat),
        ) by {
            lemma_replaced_value(little, bits, from as int, count as int, field as nat);
        }
    }
    next
}

/// The number of a run of bits after a field in it is replaced, by the number
/// of the run before.
pub proof fn lemma_replaced_value(little: bool, bits: Seq<bool>, from: int, count: int, field: nat)
    requires
        0 <= from,
        0 <= count,
        from + count <= bits.len(),
    ensures
        ({
            let after = bits.len() - from - count;
            let low_len = (if little { from } else { after }) as nat;
            let word = value_of_bits(little, bits);
            value_of_bits(little, replaced(little, bits, from, count, field)) == word % pow2(
                low_len,
            ) + pow2(low_len) * (field % pow2(count as nat) + pow2(count as nat) * (word / pow2(
                low_len + count as nat,
            )))
        }),
{
    let n = bits.len() as int;
    let after = n - from - count;
    let first = bits.subrange(0, from);
    let last = bits.subrange(from + count, n);
    let mid = bits_of_value(little, field, count as nat);
    let word = value_of_bits(little, bits);
    lemma_value_of_bits_of_value(little, field, count as nat);
    lemma_value_concat(little, first, mid);
    lemma_value_concat(little, first + mid, last);
    lemma_value_subrange(little, bits, 0, from);
    lemma_value_subrange(little, bits, from + count, after);
    lemma_value_bound(little, first);
    lemma_value_bound(little, last);
    lemma2_to64();
    let vf = value_of_bits(little, first) as int;
    let vl = value_of_bits(little, last) as int;
    let vm = (field % pow2(count as nat)) as int;
    let pf = pow2(from as nat) as int;
    let pc = pow2(count as nat) as int;
    let pa = pow2(after as nat) as int;
    lemma_pow2_pos(from as nat);
    lemma_pow2_pos(count as nat);
    lemma_pow2_pos(after as nat);
    lemma_pow2_adds(from as nat, count as nat);
    lemma_pow2_adds(after as nat, count as nat);
    if little {
        // first is the low part, last the high part
        assert(vf == (word as int / 1) % pf);
        assert(vl == (word as int / (pf * pc)) % pa);
        lemma_value_bound(little, bits);
        lemma_pow2_adds((from + count) as nat, after as nat);
        lemma_fundamental_div_mod(word as int, pf * pc);
        lemma_div_pos_is_pos(word as int, pf * pc);
        assert(word as int / (pf * pc) < pa) by (nonlinear_arith)
            requires
                word < (pf * pc) * pa,
                word == (pf * pc) * (word as int / (pf * pc)) + word as int % (pf * pc),
                0 <= word as int % (pf * pc),
                pf * pc > 0,
        ;
        lemma_small_mod((word as int / (pf * pc)) as nat, pa as nat);
        assert(vf + pf * vm + (pf * pc) * vl == vf + pf * (vm + pc * vl)) by (nonlinear_arith);
    } else {
        // last is the low part, first the high part
        assert(vl == (word as int / 1) % pa);
        assert(vf == (word as int / (pa * pc)) % pf);
        lemma_value_bound(little, bits);
        lemma_pow2_adds((after + count) as nat, from as nat);
        lemma_fundamental_div_mod(word as int, pa * pc);
        lemma_div_pos_is_pos(word as int, pa * pc);
        assert(word as int / (pa * pc) < pf) by (nonlinear_arith)
            requires
                word < (pa * pc) * pf,
                word == (pa * pc) * (word as int / (pa * pc)) + word as int % (pa * pc),
                0 <= word as int % (pa * pc),
                pa * pc > 0,
        ;
        lemma_small_mod((word as int / (pa * pc)) as nat, pf as nat);
        assert((vf * pc + vm) * pa + vl == vl + pa * (vm + pc * vf)) by (nonlinear_arith);
    }
}

/// Lays the `8 * len`-bit number `word` into `len` bytes of `bytes` from
/// `index` on.
pub fn store(little: bool, bytes: &mut Vec<u8>, index: usize, len: usize, word: u128)
    requires
        8 * len <= MAX_WORD_BITS,
        index + len <= old(bytes)@.len(),
        word < pow2(8 * len as nat),
    ensures
        final(bytes)@ == old(bytes)@.subrange(0, index as int) + bytes_of_bits(
            little,
            bits_of_value(little, word as nat, 8 * len as nat),
        ) + old(bytes)@.subrange(index + len, old(bytes)@.len() as int),
{
    let ghost bits = bits_of_value(little, word as nat, 8 * len as nat);
    let ghost target = bytes_of_bits(little, bits);
    let mut k: usize = 0;
    let total: usize = bytes.len();
    proof {
        lemma_value_of_bits_of_value(little, word as nat, 8 * len as nat);
        lemma_small_mod(word as nat, pow2(8 * len as nat));
    }
    while k < len
        invariant
            k <= len,
            8 * len <= MAX_WORD_BITS,
            index + len <= old(bytes)@.len(),
            bytes@.len() == old(bytes)@.len(),
            total == bytes@.len(),
            bits == bits_of_value(little, word as nat, 8 * len as nat),
            bits.len() == 8 * len,
            value_of_bits(little, bits) == word,
            target == bytes_of_bits(little, bits),
            forall|j: int| 0 <= j < index || index + k <= j < bytes@.len() ==> bytes@[j] == old(
                bytes,
            )@[j],
            forall|j: int| 0 <= j < k ==> bytes@[index + j] == target[j],
        decreases len - k,
    {
        let shift: usize = if little {
            8 * k
        } else {
            8 * (len - 1 - k)
        };
        let byte: u128 = (word / pow2_u128(shift)) % 256;
        proof {
            lemma2_to64();
            lemma_value_subrange(little, bits, 8 * k as int, 8);
            assert(byte == value_of_bits(little, bits.subrange(8 * k as int, 8 * k + 8)));
        }
        bytes.set(index + k, byte as u8);
        k = k + 1;
    }
    proof {
        assert(bytes@ =~= old(bytes)@.subrange(0, index as int) + target + old(bytes)@.subrange(
            index + len,
            old(bytes)@.len() as int,
        ));
    }
}

} // verus!
