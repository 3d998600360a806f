//! Helpers for the entropy coder: the bitmap of nonzero coefficients and
//! the magnitude category of each.

use vstd::arithmetic::power2::{lemma2_to64, lemma_pow2_strictly_increases, lemma_pow2_unfold, pow2};
use vstd::prelude::*;

verus! {

use crate::arch::scalar::quant::magnitude;

/// Bit `k` of `bm` is set.
pub open spec fn bit_set(bm: u64, k: u64) -> bool {
    (bm >> k) & 1 == 1
}

/// Number of bits that `m` takes in binary; zero for zero.
pub open spec fn bit_length(m: int) -> int
    decreases m,
{
    if m <= 0 {
        0
    } else {
        1 + bit_length(m / 2)
    }
}

/// Magnitude category of a coefficient: the number of bits of its
/// magnitude.
pub open spec fn category(v: int) -> int {
    bit_length(magnitude(v))
}

/// The magnitude bits that follow the category in the code stream: the
/// value itself, or for a negative value its offset in the lower half of
/// the category.
pub open spec fn magnitude_bits(v: int) -> int {
    if v >= 0 {
        v
    } else {
        v + pow2(category(v) as nat) - 1
    }
}

/// `bit_length` brackets its argument between two powers of two.
pub proof fn lemma_bit_length(m: int)
    requires
        0 <= m < 0x1_0000,
    ensures
        0 <= bit_length(m) <= 16,
        m < pow2(bit_length(m) as nat),
        m >= 1 ==> bit_length(m) >= 1 && pow2((bit_length(m) - 1) as nat) <= m,
    decreases m,
{
    lemma2_to64();
    if m >= 1 {
        lemma_bit_length(m / 2);
        let l = bit_length(m / 2);
        lemma_pow2_unfold((l + 1) as nat);
        if m >= 2 {
            lemma_pow2_unfold(l as nat);
        }
        if l == 16 {
            lemma_pow2_unfold(16);
        }
    }
}

/// Bit `k` is set exactly when `block[k]` is not zero.
pub fn nonzero_bitmap(block: &[i16; 64]) -> (bm: u64)
    ensures
        forall|k: u64| k < 64 ==> #[trigger] bit_set(bm, k) == (block[k as int] != 0),
{
    let mut bm: u64 = 0;
    assert forall|j: u64| j < 64 implies !#[trigger] bit_set(bm, j) by {
        assert(!((0u64 >> j) & 1 == 1)) by (bit_vector);
    }
    for k in 0..64u64
        invariant
            forall|j: u64|
                j < 64 ==> #[trigger] bit_set(bm, j) == (j < k && block[j as int] != 0),
    {
        if block[k as usize] != 0 {
            let next: u64 = bm | (1u64 << k);
            assert forall|j: u64| j < 64 implies #[trigger] bit_set(next, j) == (j == k || bit_set(bm, j)) by {
                assert((((bm | (1u64 << k)) >> j) & 1 == 1) == (j == k || (bm >> j) & 1 == 1)) by (bit_vector)
                    requires
                        j < 64,
                        k < 64,
                ;
            }
            bm = next;
        }
    }
    bm
}

/// Bitmaps that agree in bits `0..=n` agree once everything above bit `n`
/// is shifted out.
proof fn lemma_low_bits_agree(a: u64, b: u64, n: u64)
    requires
        n < 64,
        forall|k: u64| k < 64 ==> bit_set(a, k) == #[trigger] bit_set(b, k),
    ensures
        a << ((63 - n) as u64) == b << ((63 - n) as u64),
    decreases n,
{
    assert(bit_set(a, n) == bit_set(b, n));
    let s = (63 - n) as u64;
    if n == 0 {
        assert(a << 63u64 == b << 63u64) by (bit_vector)
            requires
                ((a >> 0u64) & 1 == 1) == ((b >> 0u64) & 1 == 1),
        ;
    } else {
        lemma_low_bits_agree(a, b, (n - 1) as u64);
        let t = (s + 1) as u64;
        assert(a << s == b << s) by (bit_vector)
            requires
                n < 64,
                s == 63 - n,
                t == s + 1,
                n > 0,
                a << t == b << t,
                ((a >> n) & 1 == 1) == ((b >> n) & 1 == 1),
        ;
    }
}

/// A bitmap is determined by its bits.
pub proof fn law_bitmap_is_its_bits(a: u64, b: u64)
    requires
        forall|k: u64| k < 64 ==> bit_set(a, k) == #[trigger] bit_set(b, k),
    ensures
        a == b,
{
    lemma_low_bits_agree(a, b, 63);
    assert(a == b) by (bit_vector)
        requires
            a << 0u64 == b << 0u64,
    ;
}

/// Number of bits of `m`.
fn count_bits(m: u32) -> (n: u8)
    requires
        m < 0x1_0000,
    ensures
        n == bit_length(m as int),
{
    let mut rest: u32 = m;
    let mut n: u8 = 0;
    proof {
        lemma_bit_length(m as int);
    }
    while rest > 0
        invariant
            rest < 0x1_0000,
            n + bit_length(rest as int) == bit_length(m as int),
            bit_length(m as int) <= 16,
        decreases rest,
    {
        proof {
            lemma_bit_length(rest as int / 2);
        }
        rest = rest / 2;
        n = n + 1;
    }
    n
}

/// The magnitude category and the magnitude bits of every coefficient.
pub fn ac_magnitudes(block: &[i16; 64], sizes: &mut [u8; 64], bits_lut: &mut [u16; 64])
    ensures
        forall|k: int| 0 <= k < 64 ==> #[trigger] final(sizes)@[k] == category(block[k] as int),
        forall|k: int| 0 <= k < 64 ==> #[trigger] final(bits_lut)@[k] == magnitude_bits(block[k] as int),
{
    for k in 0..64usize
        invariant
            forall|j: int| 0 <= j < k ==> #[trigger] sizes@[j] == category(block[j] as int),
            forall|j: int| 0 <= j < k ==> #[trigger] bits_lut@[j] == magnitude_bits(block[j] as int),
    {
        let v: i32 = block[k] as i32;
        let m: u32 = if v < 0 {
            (-v) as u32
        } else {
            v as u32
        };
        let size = count_bits(m);
        proof {
            lemma_bit_length(m as int);
            lemma2_to64();
            if size < 16 {
                lemma_pow2_strictly_increases(size as nat, 16);
            }
            vstd::bits::lemma_u32_shl_is_mul(1, size as u32);
        }
        let top: i32 = (1u32 << (size as u32)) as i32;
        sizes[k] = size;
        bits_lut[k] = if v < 0 {
            (v + top - 1) as u16
        } else {
            v as u16
        };
    }
}

} // verus!
