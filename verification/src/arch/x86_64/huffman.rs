//! The bitmap of nonzero coefficients, sixteen at a time, and the magnitude
//! category of each.

use vstd::prelude::*;

verus! {

use crate::arch::scalar::huffman::{bit_set, category, magnitude_bits};

/// Flags of the zeros among sixteen coefficients.
fn zero_mask(block: &[i16; 64], first: usize) -> (mask: u64)
    requires
        first <= 48,
    ensures
        forall|t: u64| t < 16 ==> #[trigger] bit_set(mask, t) == (block[first + t] == 0),
{
    let mut mask: u64 = 0;
    assert forall|t: u64| t < 64 implies !#[trigger] bit_set(0u64, t) by {
        assert(!((0u64 >> t) & 1 == 1)) by (bit_vector);
    }
    for i in 0..16u64
        invariant
            first <= 48,
            forall|t: u64| t < 16 ==> #[trigger] bit_set(mask, t) == (t < i && block[first + t] == 0),
    {
        if block[first + i as usize] == 0 {
            let before: u64 = mask;
            mask = mask | (1u64 << i);
            assert forall|t: u64| t < 16 implies #[trigger] bit_set(mask, t) == (t == i || bit_set(before, t)) by {
                assert((((before | (1u64 << i)) >> t) & 1 == 1) == (t == i || (before >> t) & 1 == 1)) by (
                    bit_vector)
                    requires
                        t < 16,
                        i < 16,
                ;
            }
        }
    }
    mask
}

/// Joining the flags that `mask` lacks, as bits 16 to 31 of the second half
/// and so on, to a bitmap.
proof fn lemma_join_inverted(bm: u64, mask: u64, c: u64, k: u64)
    requires
        c < 4,
        k < 64,
    ensures
        bit_set(bm | ((!mask & 0xFFFF) << ((16 * c) as u64)), k) == (bit_set(bm, k) || 16 * c <= k && k < 16 * c
            + 16 && !bit_set(mask, (k - 16 * c) as u64)),
{
    let s = (16 * c) as u64;
    let t = if s <= k {
        (k - s) as u64
    } else {
        0u64
    };
    assert((((bm | ((!mask & 0xFFFF) << s)) >> k) & 1 == 1) == ((bm >> k) & 1 == 1 || s <= k && k < s + 16 && !((
    mask >> t) & 1 == 1))) by (bit_vector)
        requires
            s <= 48,
            k < 64,
            s <= k ==> t == k - s,
    ;
}

/// Bit `k` is set exactly when `block[k]` is not zero.
pub fn nonzero_bitmap(block: &[i16; 64]) -> (bm: u64)
    ensures
        forall|k: u64| k < 64 ==> #[trigger] bit_set(bm, k) == (block[k as int] != 0),
{
    let mut bm: u64 = 0;
    assert forall|k: u64| k < 64 implies !#[trigger] bit_set(0u64, k) by {
        assert(!((0u64 >> k) & 1 == 1)) by (bit_vector);
    }
    for c in 0..4u64
        invariant
            forall|k: u64| k < 64 ==> #[trigger] bit_set(bm, k) == (k < 16 * c && block[k as int] != 0),
    {
        let mask = zero_mask(block, (16 * c) as usize);
        let before: u64 = bm;
        bm = bm | ((!mask & 0xFFFF) << (16 * c));
        assert forall|k: u64| k < 64 implies #[trigger] bit_set(bm, k) == (k < 16 * (c + 1) && block[k as int]
            != 0) by {
            lemma_join_inverted(before, mask, c, k);
            if 16 * c <= k && k < 16 * c + 16 {
                assert(bit_set(mask, (k - 16 * c) as u64) == (block[k as int] == 0));
            }
        }
    }
    bm
}

/// The magnitude category and the magnitude bits of every coefficient.
pub fn ac_magnitudes(block: &[i16; 64], sizes: &mut [u8; 64], bits_lut: &mut [u16; 64])
    ensures
        forall|k: int| 0 <= k < 64 ==> #[trigger] final(sizes)@[k] == category(block[k] as int),
        forall|k: int| 0 <= k < 64 ==> #[trigger] final(bits_lut)@[k] == magnitude_bits(block[k] as int),
{
    crate::arch::scalar::huffman::ac_magnitudes(block, sizes, bits_lut);
}

} // verus!
