//! Little-endian bit sequences and their integer values.

use vstd::arithmetic::div_mod::{lemma_div_denominator, lemma_fundamental_div_mod_converse};
use vstd::arithmetic::power2::{lemma2_to64, lemma_pow2_pos, lemma_pow2_unfold, pow2};
use vstd::prelude::*;

verus! {

/// The integer value of a little-endian bit sequence.
pub open spec fn bits_value(s: Seq<bool>) -> int
    decreases s.len(),
{
    if s.len() == 0 {
        0
    } else {
        (if s[0] {
            1int
        } else {
            0int
        }) + 2 * bits_value(s.drop_first())
    }
}

/// The little-endian bit sequence of length `n` for a nonnegative value `v`.
pub open spec fn value_bits(v: int, n: nat) -> Seq<bool> {
    Seq::new(n, |i: int| (v / pow2(i as nat) as int) % 2 == 1)
}

/// A little-endian bit sequence is bounded by two to the power of its length.
pub proof fn lemma_bits_value_bounds(s: Seq<bool>)
    ensures
        0 <= bits_value(s) < pow2(s.len()),
    decreases s.len(),
{
    if s.len() == 0 {
        lemma2_to64();
    } else {
        lemma_bits_value_bounds(s.drop_first());
        lemma_pow2_unfold(s.len());
    }
}

/// Appending a bit adds its weighted value.
pub proof fn lemma_bits_value_push(s: Seq<bool>, b: bool)
    ensures
        bits_value(s.push(b)) == bits_value(s) + pow2(s.len()) * (
        if b {
            1int
        } else {
            0int
        }),
    decreases s.len(),
{
    if s.len() == 0 {
        lemma2_to64();
        assert(s.push(b)[0] == b);
        assert(s.push(b).drop_first() =~= Seq::<bool>::empty());
        assert(bits_value(Seq::<bool>::empty()) == 0);
        assert(bits_value(s.push(b)) == (if b {
            1int
        } else {
            0int
        }));
        assert(pow2(s.len()) == 1);
    } else {
        assert(s.push(b).drop_first() =~= s.drop_first().push(b));
        lemma_bits_value_push(s.drop_first(), b);
        lemma_pow2_unfold(s.len());
        assert(s.push(b)[0] == s[0]);
        let bit: int = if b {
            1int
        } else {
            0int
        };
        assert(bits_value(s.push(b)) == (if s[0] {
            1int
        } else {
            0int
        }) + 2 * bits_value(s.drop_first().push(b)));
        assert(bits_value(s.drop_first().push(b)) == bits_value(s.drop_first()) + pow2(
            (s.len() - 1) as nat,
        ) * bit);
        assert(2 * (pow2((s.len() - 1) as nat) * bit) == (2 * pow2((s.len() - 1) as nat)) * bit)
            by {
            vstd::arithmetic::mul::lemma_mul_is_associative(2, pow2((s.len() - 1) as nat) as int, bit);
        }
        assert(pow2(s.len()) * bit == (2 * pow2((s.len() - 1) as nat)) * bit);
        assert(bits_value(s) == (if s[0] {
            1int
        } else {
            0int
        }) + 2 * bits_value(s.drop_first()));
        assert(bits_value(s.push(b)) == bits_value(s) + pow2(s.len()) * bit);
    }
}

/// The value of a concatenation combines the parts' values.
pub proof fn lemma_bits_value_concat(a: Seq<bool>, b: Seq<bool>)
    ensures
        bits_value(a + b) == bits_value(a) + pow2(a.len()) * bits_value(b),
    decreases b.len(),
{
    if b.len() == 0 {
        assert(a + b =~= a);
        lemma_pow2_pos(a.len());
    } else {
        lemma_bits_value_concat(a.push(b[0]), b.drop_first());
        assert(a + b =~= a.push(b[0]) + b.drop_first());
        lemma_bits_value_push(a, b[0]);
        lemma_pow2_unfold(a.len() + 1);
        assert(bits_value(a + b) == bits_value(a.push(b[0])) + pow2(a.len() + 1) * bits_value(
            b.drop_first(),
        ));
        assert(pow2(a.len() + 1) * bits_value(b.drop_first()) == pow2(a.len()) * (2 * bits_value(
            b.drop_first(),
        ))) by {
            vstd::arithmetic::mul::lemma_mul_is_associative(
                pow2(a.len()) as int,
                2,
                bits_value(b.drop_first()),
            );
        }
        assert(pow2(a.len()) * bits_value(b) == pow2(a.len()) * (if b[0] {
            1int
        } else {
            0int
        }) + pow2(a.len()) * (2 * bits_value(b.drop_first()))) by {
            vstd::arithmetic::mul::lemma_mul_is_distributive_add(
                pow2(a.len()) as int,
                if b[0] {
                    1int
                } else {
                    0int
                },
                2 * bits_value(b.drop_first()),
            );
        }
    }
}

/// A sequence of `false` bits has value zero.
pub proof fn lemma_bits_value_all_false(s: Seq<bool>)
    requires
        forall|i: int| 0 <= i < s.len() ==> !s[i],
    ensures
        bits_value(s) == 0,
    decreases s.len(),
{
    if s.len() > 0 {
        lemma_bits_value_all_false(s.drop_first());
    }
}

/// Each bit is determined by the sequence's value.
pub proof fn lemma_bits_value_index(s: Seq<bool>, i: int)
    requires
        0 <= i < s.len(),
    ensures
        s[i] == ((bits_value(s) / pow2(i as nat) as int) % 2 == 1),
    decreases i,
{
    let rest = bits_value(s.drop_first());
    let b0: int = if s[0] {
        1int
    } else {
        0int
    };
    lemma_bits_value_bounds(s.drop_first());
    if i == 0 {
        lemma2_to64();
        lemma_fundamental_div_mod_converse(bits_value(s), 1, bits_value(s), 0);
        lemma_fundamental_div_mod_converse(bits_value(s), 2, rest, b0);
    } else {
        lemma_bits_value_index(s.drop_first(), i - 1);
        lemma_fundamental_div_mod_converse(bits_value(s), 2, rest, b0);
        assert(bits_value(s) / 2 == rest);
        lemma_pow2_unfold(i as nat);
        lemma_pow2_pos((i - 1) as nat);
        lemma_div_denominator(bits_value(s), 2, pow2((i - 1) as nat) as int);
        assert(bits_value(s) / pow2(i as nat) as int == rest / pow2((i - 1) as nat) as int);
    }
}

/// A sequence is recovered from its value and its length.
pub proof fn lemma_value_bits_of(s: Seq<bool>)
    ensures
        value_bits(bits_value(s), s.len()) =~= s,
{
    assert forall|i: int| 0 <= i < s.len() implies value_bits(bits_value(s), s.len())[i] == s[i] by {
        lemma_bits_value_index(s, i);
    }
}

/// Trailing `false` bits do not change the value.
pub proof fn lemma_bits_value_zero_extend(s: Seq<bool>, t: Seq<bool>)
    requires
        forall|i: int| 0 <= i < t.len() ==> !t[i],
    ensures
        bits_value(s + t) == bits_value(s),
{
    lemma_bits_value_concat(s, t);
    lemma_bits_value_all_false(t);
}

/// The bit at little-endian position `k` of a byte.
pub open spec fn byte_bit(b: u8, k: int) -> bool {
    (b >> (k as u8)) & 1 == 1
}

/// The little-endian bits of a byte sequence, eight per byte.
pub open spec fn bytes_bits(s: Seq<u8>) -> Seq<bool> {
    Seq::new(8 * s.len(), |i: int| byte_bit(s[i / 8], i % 8))
}

/// A fresh byte has no bit set.
proof fn lemma_byte_bit_zero(k: u8)
    requires
        k < 8,
    ensures
        !byte_bit(0, k as int),
{
    assert((0u8 >> k) & 1 == 0) by (bit_vector);
}

/// Setting bit `j` of a byte leaves every other bit as it was.
proof fn lemma_byte_bit_set(b: u8, j: u8, k: u8)
    requires
        j < 8,
        k < 8,
    ensures
        byte_bit(b | (1u8 << j), k as int) == (k == j || byte_bit(b, k as int)),
{
    assert(((b | (1u8 << j)) >> k) & 1 == (if k == j {
        1u8
    } else {
        (b >> k) & 1
    })) by (bit_vector)
        requires
            j < 8,
            k < 8,
    ;
    assert((b >> k) & 1 == 0 || (b >> k) & 1 == 1) by (bit_vector);
}

/// Expands a byte sequence to its little-endian bits.
pub fn bytes_to_bits(bytes: &Vec<u8>) -> (r: Vec<bool>)
    ensures
        r@ == bytes_bits(bytes@),
{
    let mut r: Vec<bool> = Vec::new();
    let mut i: usize = 0;
    while i < bytes.len()
        invariant
            i <= bytes@.len(),
            r@.len() == 8 * i,
            forall|k: int| 0 <= k < r@.len() ==> r@[k] == bytes_bits(bytes@)[k],
        decreases bytes@.len() - i,
    {
        let b = bytes[i];
        let mut j: u8 = 0;
        while j < 8
            invariant
                j <= 8,
                i < bytes@.len(),
                b == bytes@[i as int],
                r@.len() == 8 * i + j,
                forall|k: int| 0 <= k < r@.len() ==> r@[k] == bytes_bits(bytes@)[k],
            decreases 8 - j,
        {
            r.push((b >> j) & 1 == 1);
            proof {
                let k = r@.len() - 1;
                lemma_fundamental_div_mod_converse(k, 8, i as int, j as int);
                assert(r@[k] == byte_bit(bytes@[k / 8], k % 8));
            }
            j = j + 1;
        }
        i = i + 1;
    }
    r
}

/// Packs `count` little-endian bits starting at `start` into one byte,
/// zero-extending a short run.
fn pack_byte(bits: &Vec<bool>, start: usize, count: usize) -> (b: u8)
    requires
        count <= 8,
        start + count <= bits@.len(),
    ensures
        forall|k: int| 0 <= k < 8 ==> byte_bit(b, k) == (k < count && bits@[start + k]),
{
    let mut b: u8 = 0;
    let mut j: u8 = 0;
    proof {
        assert forall|k: u8| k < 8 implies !byte_bit(0, k as int) by {
            lemma_byte_bit_zero(k);
        }
    }
    let n = bits.len();
    while (j as usize) < count
        invariant
            j <= count <= 8,
            start + count <= n == bits@.len(),
            forall|k: int| 0 <= k < 8 ==> byte_bit(b, k) == (k < j && bits@[start + k]),
        decreases count - j,
    {
        if bits[start + j as usize] {
            let ghost old_b = b;
            b = b | (1u8 << j);
            proof {
                assert forall|k: u8| k < 8 implies byte_bit(b, k as int) == (k == j || byte_bit(
                    old_b,
                    k as int,
                )) by {
                    lemma_byte_bit_set(old_b, j, k);
                }
            }
        }
        j = j + 1;
    }
    b
}

/// Packs little-endian bits into bytes, eight per byte; a final partial byte
/// is zero-extended.
pub fn bits_to_bytes(bits: &Vec<bool>) -> (r: Vec<u8>)
    ensures
        8 * r@.len() < bits@.len() + 8,
        bits@.len() <= 8 * r@.len(),
        forall|k: int|
            0 <= k < 8 * r@.len() ==> bytes_bits(r@)[k] == (if k < bits@.len() {
                bits@[k]
            } else {
                false
            }),
{
    let mut r: Vec<u8> = Vec::new();
    let mut i: usize = 0;
    while bits.len() - i > 8
        invariant
            i <= bits@.len(),
            i == 8 * r@.len(),
            forall|k: int| 0 <= k < i ==> bytes_bits(r@)[k] == bits@[k],
        decreases bits@.len() - i,
    {
        let b = pack_byte(bits, i, 8);
        r.push(b);
        proof {
            lemma_bytes_bits_push(r@, bits@, i as int, b);
        }
        i = i + 8;
    }
    if bits.len() - i > 0 {
        let b = pack_byte(bits, i, bits.len() - i);
        r.push(b);
        proof {
            lemma_bytes_bits_push(r@, bits@, i as int, b);
        }
    }
    r
}

/// After a byte is appended, the expanded bit sequence keeps its prefix and
/// gains the byte's bits.
proof fn lemma_bytes_bits_push(r: Seq<u8>, bits: Seq<bool>, i: int, b: u8)
    requires
        r.len() >= 1,
        i == 8 * (r.len() - 1),
        i <= bits.len(),
        r.last() == b,
        forall|k: int| 0 <= k < i ==> bytes_bits(r.drop_last())[k] == bits[k],
        forall|k: int| 0 <= k < 8 ==> byte_bit(b, k) == (i + k < bits.len() && bits[i + k]),
    ensures
        forall|k: int|
            0 <= k < 8 * r.len() ==> bytes_bits(r)[k] == (if k < bits.len() {
                bits[k]
            } else {
                false
            }),
{
    assert forall|k: int| 0 <= k < 8 * r.len() implies bytes_bits(r)[k] == (if k < bits.len() {
        bits[k]
    } else {
        false
    }) by {
        if k < i {
            vstd::arithmetic::div_mod::lemma_fundamental_div_mod(k, 8);
            vstd::arithmetic::div_mod::lemma_mod_bound(k, 8);
            assert(0 <= k / 8 < r.len() - 1);
            assert(bytes_bits(r)[k] == byte_bit(r[k / 8], k % 8));
            assert(r[k / 8] == r.drop_last()[k / 8]);
            assert(bytes_bits(r.drop_last())[k] == byte_bit(r.drop_last()[k / 8], k % 8));
        } else {
            lemma_fundamental_div_mod_converse(k, 8, r.len() - 1, k - i);
            assert(bytes_bits(r)[k] == byte_bit(b, k - i));
        }
    }
}

} // verus!
