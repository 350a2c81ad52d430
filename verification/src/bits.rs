//! The mathematical model of the codec: runs of bits, the numbers they stand
//! for under either bit order, and the bits that a run of bytes holds.
//!
//! A stream is a `Seq<bool>`. Under the little-endian order the first bit of a
//! field is its least significant one, and bit `p` of a buffer is bit `p % 8`
//! of byte `p / 8`, counted from the low end. Under the big-endian order the
//! first bit of a field is its most significant one, and bit `p` of a buffer
//! is bit `p % 8` of byte `p / 8`, counted from the high end.
use vstd::arithmetic::div_mod::*;
use vstd::arithmetic::power2::*;
use vstd::prelude::*;

verus! {

/// The number that `bits` spell when the first bit is the least significant.
pub open spec fn le_value(bits: Seq<bool>) -> nat
    decreases bits.len(),
{
    if bits.len() == 0 {
        0
    } else {
        (if bits[0] { 1nat } else { 0nat }) + 2 * le_value(bits.drop_first())
    }
}

/// The number that `bits` spell: first bit least significant when `little`,
/// first bit most significant otherwise.
pub open spec fn value_of_bits(little: bool, bits: Seq<bool>) -> nat {
    if little {
        le_value(bits)
    } else {
        le_value(bits.reverse())
    }
}

/// The low `count` bits of `value`, least significant first.
pub open spec fn le_bits(value: nat, count: nat) -> Seq<bool> {
    Seq::new(count, |i: int| (value / pow2(i as nat)) % 2 == 1)
}

/// The low `count` bits of `value` in stream order.
pub open spec fn bits_of_value(little: bool, value: nat, count: nat) -> Seq<bool> {
    if little {
        le_bits(value, count)
    } else {
        le_bits(value, count).reverse()
    }
}

/// The bits that `bytes` hold, in stream order: eight for each byte.
pub open spec fn bits_of_bytes(little: bool, bytes: Seq<u8>) -> Seq<bool> {
    Seq::new(8 * bytes.len(), |p: int| bits_of_value(little, bytes[p / 8] as nat, 8)[p % 8])
}

/// The bytes that hold `bits`, whose length is a multiple of eight.
pub open spec fn bytes_of_bits(little: bool, bits: Seq<bool>) -> Seq<u8> {
    Seq::new(
        bits.len() / 8,
        |k: int| value_of_bits(little, bits.subrange(8 * k, 8 * k + 8)) as u8,
    )
}

/// A run of `count` cleared bits.
pub open spec fn zero_bits(count: nat) -> Seq<bool> {
    Seq::new(count, |i: int| false)
}

/// The two's-complement reading of the `count`-bit pattern `value`: the top
/// bit of the pattern is the sign.
pub open spec fn signed_value(value: nat, count: nat) -> int {
    if count > 0 && value >= pow2((count - 1) as nat) {
        value - pow2(count)
    } else {
        value as int
    }
}

/// The `count`-bit two's-complement pattern of `value`.
pub open spec fn pattern_of(value: int, count: nat) -> nat {
    (value % (pow2(count) as int)) as nat
}

/// A run of bits, least significant first, stands for a number below two to
/// its length.
pub proof fn lemma_le_value_bound(bits: Seq<bool>)
    ensures
        le_value(bits) < pow2(bits.len()),
    decreases bits.len(),
{
    if bits.len() == 0 {
        lemma2_to64();
    } else {
        lemma_le_value_bound(bits.drop_first());
        lemma_pow2_unfold(bits.len());
    }
}

/// The number of two runs joined, least significant first: the second run
/// counts from the length of the first on.
pub proof fn lemma_le_value_concat(a: Seq<bool>, b: Seq<bool>)
    ensures
        le_value(a + b) == le_value(a) + pow2(a.len()) * le_value(b),
    decreases a.len(),
{
    if a.len() == 0 {
        assert(a + b =~= b);
        lemma2_to64();
    } else {
        let rest = a.drop_first();
        assert((a + b).drop_first() =~= rest + b);
        lemma_le_value_concat(rest, b);
        lemma_pow2_unfold(a.len());
        let p = pow2(rest.len());
        let v = le_value(b);
        assert(2 * (p * v) == (2 * p) * v) by (nonlinear_arith);
    }
}

/// The low bits of a number spell the number cut to those bits.
pub proof fn lemma_le_value_of_le_bits(value: nat, count: nat)
    ensures
        le_value(le_bits(value, count)) == value % pow2(count),
    decreases count,
{
    lemma2_to64();
    if count > 0 {
        let s = le_bits(value, count);
        let half = value / 2;
        let rest = le_bits(half, (count - 1) as nat);
        assert(s.drop_first() =~= rest) by {
            assert forall|i: int| 0 <= i < count - 1 implies s.drop_first()[i] == rest[i] by {
                lemma_pow2_unfold((i + 1) as nat);
                lemma_pow2_pos(i as nat);
                lemma_div_denominator(value as int, 2, pow2(i as nat) as int);
            }
        }
        lemma_le_value_of_le_bits(half, (count - 1) as nat);
        lemma_pow2_unfold(count);
        lemma_pow2_pos((count - 1) as nat);
        lemma_mod_breakdown(value as int, 2, pow2((count - 1) as nat) as int);
    }
}

/// A run of bits, least significant first, is the low bits of its number.
pub proof fn lemma_le_bits_of_le_value(bits: Seq<bool>)
    ensures
        le_bits(le_value(bits), bits.len()) == bits,
    decreases bits.len(),
{
    lemma2_to64();
    let n = bits.len();
    let v = le_value(bits);
    if n > 0 {
        let rest = bits.drop_first();
        let half = le_value(rest);
        lemma_le_bits_of_le_value(rest);
        assert(v / 2 == half);
        assert forall|i: int| 0 <= i < n implies le_bits(v, n)[i] == bits[i] by {
            if i > 0 {
                let p = pow2((i - 1) as nat) as int;
                lemma_pow2_unfold(i as nat);
                lemma_pow2_pos((i - 1) as nat);
                lemma_div_denominator(v as int, 2, p);
                assert(v as int / (pow2(i as nat) as int) == half as int / p);
                assert(le_bits(half, rest.len())[i - 1] == rest[i - 1]);
                assert(rest[i - 1] == bits[i]);
            } else {
                assert(v as int / (pow2(0) as int) == v);
            }
        }
    }
    assert(le_bits(v, n) =~= bits);
}

/// The number of a part of a run, least significant first: the number of the
/// run, shifted down to where the part starts and cut to its length.
pub proof fn lemma_le_value_subrange(bits: Seq<bool>, from: int, count: int)
    requires
        0 <= from,
        0 <= count,
        from + count <= bits.len(),
    ensures
        le_value(bits.subrange(from, from + count)) == (le_value(bits) / pow2(from as nat)) % pow2(
            count as nat,
        ),
{
    let n = bits.len() as int;
    let pre = bits.subrange(0, from);
    let mid = bits.subrange(from, from + count);
    let post = bits.subrange(from + count, n);
    assert(bits =~= pre + (mid + post));
    lemma_le_value_concat(pre, mid + post);
    lemma_le_value_concat(mid, post);
    lemma_le_value_bound(pre);
    lemma_le_value_bound(mid);
    let pa = pow2(from as nat) as int;
    let pc = pow2(count as nat) as int;
    lemma_pow2_pos(from as nat);
    lemma_pow2_pos(count as nat);
    let upper = le_value(mid + post) as int;
    assert(le_value(bits) == upper * pa + le_value(pre)) by (nonlinear_arith)
        requires
            le_value(bits) == le_value(pre) + pa * upper,
    ;
    lemma_fundamental_div_mod_converse(le_value(bits) as int, pa, upper, le_value(pre) as int);
    let top = le_value(post) as int;
    assert(upper == top * pc + le_value(mid)) by (nonlinear_arith)
        requires
            upper == le_value(mid) + pc * top,
    ;
    lemma_fundamental_div_mod_converse(upper, pc, top, le_value(mid) as int);
}

/// A run of bits stands for a number below two to its length.
pub proof fn lemma_value_bound(little: bool, bits: Seq<bool>)
    ensures
        value_of_bits(little, bits) < pow2(bits.len()),
{
    if little {
        lemma_le_value_bound(bits);
    } else {
        lemma_le_value_bound(bits.reverse());
    }
}

/// The number of two runs joined, by the numbers of the runs.
pub proof fn lemma_value_concat(little: bool, a: Seq<bool>, b: Seq<bool>)
    ensures
        value_of_bits(little, a + b) == if little {
            value_of_bits(little, a) + pow2(a.len()) * value_of_bits(little, b)
        } else {
            value_of_bits(little, a) * pow2(b.len()) + value_of_bits(little, b)
        },
{
    if little {
        lemma_le_value_concat(a, b);
    } else {
        assert((a + b).reverse() =~= b.reverse() + a.reverse());
        lemma_le_value_concat(b.reverse(), a.reverse());
        let p = pow2(b.len());
        let v = le_value(a.reverse());
        assert(p * v == v * p) by (nonlinear_arith);
    }
}

/// The bits of a number spell that number again, cut to `count` bits.
pub proof fn lemma_value_of_bits_of_value(little: bool, value: nat, count: nat)
    ensures
        bits_of_value(little, value, count).len() == count,
        value_of_bits(little, bits_of_value(little, value, count)) == value % pow2(count),
{
    lemma_le_value_of_le_bits(value, count);
    if !little {
        assert(le_bits(value, count).reverse().reverse() =~= le_bits(value, count));
    }
}

/// A run of bits is the bits of the number it stands for.
pub proof fn lemma_bits_of_value_of_bits(little: bool, bits: Seq<bool>)
    ensures
        bits_of_value(little, value_of_bits(little, bits), bits.len()) == bits,
{
    if little {
        lemma_le_bits_of_le_value(bits);
    } else {
        lemma_le_bits_of_le_value(bits.reverse());
        assert(bits.reverse().reverse() =~= bits);
    }
}

/// The number of a part of a run, by shifting and masking the number of the
/// whole run.
pub proof fn lemma_value_subrange(little: bool, bits: Seq<bool>, from: int, count: int)
    requires
        0 <= from,
        0 <= count,
        from + count <= bits.len(),
    ensures
        value_of_bits(little, bits.subrange(from, from + count)) == if little {
            (value_of_bits(little, bits) / pow2(from as nat)) % pow2(count as nat)
        } else {
            (value_of_bits(little, bits) / pow2((bits.len() - from - count) as nat)) % pow2(
                count as nat,
            )
        },
{
    if little {
        lemma_le_value_subrange(bits, from, count);
    } else {
        let n = bits.len() as int;
        assert(bits.subrange(from, from + count).reverse() =~= bits.reverse().subrange(
            n - from - count,
            n - from,
        ));
        lemma_le_value_subrange(bits.reverse(), n - from - count, count);
    }
}

/// Two runs of one length that stand for one number are the same run.
pub proof fn lemma_value_injective(little: bool, a: Seq<bool>, b: Seq<bool>)
    requires
        a.len() == b.len(),
        value_of_bits(little, a) == value_of_bits(little, b),
    ensures
        a == b,
{
    lemma_bits_of_value_of_bits(little, a);
    lemma_bits_of_value_of_bits(little, b);
}

/// A run of cleared bits stands for zero.
pub proof fn lemma_value_of_zero_bits(little: bool, count: nat)
    ensures
        value_of_bits(little, zero_bits(count)) == 0,
        zero_bits(count) == bits_of_value(little, 0, count),
{
    assert forall|i: int| 0 <= i < count implies le_bits(0, count)[i] == false by {
        lemma_pow2_pos(i as nat);
        lemma_basic_div(0, pow2(i as nat) as int);
    }
    assert(zero_bits(count) =~= le_bits(0, count));
    assert(zero_bits(count) =~= le_bits(0, count).reverse());
    lemma_value_of_bits_of_value(little, 0, count);
    lemma_pow2_pos(count);
    lemma_small_mod(0, pow2(count));
}

/// The bits of two runs of bytes joined are the bits of each, joined.
pub proof fn lemma_bits_of_bytes_concat(little: bool, a: Seq<u8>, b: Seq<u8>)
    ensures
        bits_of_bytes(little, a + b) == bits_of_bytes(little, a) + bits_of_bytes(little, b),
{
    let whole = bits_of_bytes(little, a + b);
    let parts = bits_of_bytes(little, a) + bits_of_bytes(little, b);
    assert forall|p: int| 0 <= p < whole.len() implies whole[p] == parts[p] by {
        if p >= 8 * a.len() {
            let q = p - 8 * a.len();
            assert(p / 8 == q / 8 + a.len() && p % 8 == q % 8) by (nonlinear_arith)
                requires
                    q == p - 8 * a.len(),
                    q >= 0,
            ;
        }
    }
    assert(whole =~= parts);
}

/// The bits of a part of a run of bytes are a part of its bits.
pub proof fn lemma_bits_of_bytes_subrange(little: bool, bytes: Seq<u8>, from: int, to: int)
    requires
        0 <= from <= to <= bytes.len(),
    ensures
        bits_of_bytes(little, bytes.subrange(from, to)) == bits_of_bytes(little, bytes).subrange(
            8 * from,
            8 * to,
        ),
{
    let part = bits_of_bytes(little, bytes.subrange(from, to));
    let cut = bits_of_bytes(little, bytes).subrange(8 * from, 8 * to);
    assert forall|p: int| 0 <= p < part.len() implies part[p] == cut[p] by {
        assert((p + 8 * from) / 8 == p / 8 + from && (p + 8 * from) % 8 == p % 8)
            by (nonlinear_arith)
            requires
                p >= 0,
                from >= 0,
        ;
    }
    assert(part =~= cut);
}

/// The bits of one byte are the eight bits of its number.
pub proof fn lemma_bits_of_one_byte(little: bool, byte: u8)
    ensures
        bits_of_bytes(little, seq![byte]) == bits_of_value(little, byte as nat, 8),
{
    assert(bits_of_bytes(little, seq![byte]) =~= bits_of_value(little, byte as nat, 8));
}

/// The bytes that hold a run of bits hold those bits.
pub proof fn lemma_bits_of_bytes_of_bits(little: bool, bits: Seq<bool>)
    requires
        bits.len() % 8 == 0,
    ensures
        bytes_of_bits(little, bits).len() * 8 == bits.len(),
        bits_of_bytes(little, bytes_of_bits(little, bits)) == bits,
{
    let bytes = bytes_of_bits(little, bits);
    let back = bits_of_bytes(little, bytes);
    assert forall|p: int| 0 <= p < bits.len() implies back[p] == bits[p] by {
        let k = p / 8;
        let group = bits.subrange(8 * k, 8 * k + 8);
        lemma_value_bound(little, group);
        lemma2_to64();
        lemma_bits_of_value_of_bits(little, group);
    }
    assert(back =~= bits);
}

/// The bits of a run of bytes are held by those bytes and no others.
pub proof fn lemma_bytes_of_bits_of_bytes(little: bool, bytes: Seq<u8>)
    ensures
        bytes_of_bits(little, bits_of_bytes(little, bytes)) == bytes,
{
    let bits = bits_of_bytes(little, bytes);
    let back = bytes_of_bits(little, bits);
    assert forall|k: int| 0 <= k < bytes.len() implies back[k] == bytes[k] by {
        lemma_bits_of_bytes_subrange(little, bytes, k, k + 1);
        assert(bytes.subrange(k, k + 1) =~= seq![bytes[k]]);
        lemma_bits_of_one_byte(little, bytes[k]);
        lemma_value_of_bits_of_value(little, bytes[k] as nat, 8);
        lemma2_to64();
        lemma_small_mod(bytes[k] as nat, 256);
    }
    assert(back =~= bytes);
}

} // verus!
