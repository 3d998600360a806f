//! The bitmap of nonzero coefficients, byte by byte.

use vstd::prelude::*;

verus! {

use crate::arch::scalar::huffman::bit_set;

/// Eight flags in a byte: every coefficient that is not zero contributes
/// its own power of two to a sum.
fn nonzero_byte(block: &[i16; 64], first: usize) -> (byte: u64)
    requires
        first <= 56,
    ensures
        byte < 256,
        forall|t: u64| t < 8 ==> #[trigger] bit_set(byte, t) == (block[first + t] != 0),
{
    let mut byte: u64 = 0;
    assert forall|t: u64| t < 8 implies !#[trigger] bit_set(0u64, t) by {
        lemma_no_bits(t);
    }
    proof {
        lemma_ends();
    }
    for i in 0..8u64
        invariant
            first <= 56,
            byte < 1u64 << i,
            forall|t: u64| t < 8 ==> #[trigger] bit_set(byte, t) == (t < i && block[first + t] != 0),
    {
        let select: u64 = 1u64 << i;
        let before: u64 = byte;
        proof {
            lemma_select(before, i, 0);
        }
        if block[first + i as usize] != 0 {
            assert forall|t: u64| t < 8 implies #[trigger] bit_set((before + select) as u64, t) == (t == i || bit_set(
                before,
                t,
            )) by {
                lemma_select(before, i, t);
            }
            byte = byte + select;
        }
    }
    byte
}

/// The first power of two, and the one past a byte.
proof fn lemma_ends()
    ensures
        1u64 << 0u64 == 1,
        1u64 << 8u64 == 256,
{
    assert(1u64 << 0u64 == 1 && 1u64 << 8u64 == 256) by (bit_vector);
}

/// Zero has no bits.
proof fn lemma_no_bits(t: u64)
    requires
        t < 64,
    ensures
        !bit_set(0, t),
{
    assert(!((0u64 >> t) & 1 == 1)) by (bit_vector);
}

/// Adding a power of two above all bits of `b` sets that bit.
proof fn lemma_select(b: u64, i: u64, t: u64)
    requires
        i < 8,
        t < 8,
        b < 1u64 << i,
    ensures
        b + (1u64 << i) <= 255,
        b < 1u64 << ((i + 1) as u64),
        b + (1u64 << i) < 1u64 << ((i + 1) as u64),
        bit_set((b + (1u64 << i)) as u64, t) == (t == i || bit_set(b, t)),
{
    let next = (i + 1) as u64;
    let sum = (b + (1u64 << i)) as u64;
    assert(b + (1u64 << i) <= 255 && b < 1u64 << next && b + (1u64 << i) < 1u64 << next) by (bit_vector)
        requires
            i < 8,
            b < 1u64 << i,
            next == i + 1,
    ;
    assert(((sum >> t) & 1 == 1) == (t == i || (b >> t) & 1 == 1)) by (bit_vector)
        requires
            i < 8,
            t < 8,
            b < 1u64 << i,
            sum == b + (1u64 << i),
    ;
}

/// Joining a byte to a bitmap at byte `j`.
proof fn lemma_join(bm: u64, byte: u64, j: u64, k: u64)
    requires
        byte < 256,
        j < 8,
        k < 64,
    ensures
        bit_set(bm | (byte << ((8 * j) as u64)), k) == (bit_set(bm, k) || 8 * j <= k && k < 8 * j + 8 && bit_set(
            byte,
            (k - 8 * j) as u64,
        )),
{
    let s = (8 * j) as u64;
    let t = if s <= k {
        (k - s) as u64
    } else {
        0u64
    };
    assert((((bm | (byte << s)) >> k) & 1 == 1) == ((bm >> k) & 1 == 1 || s <= k && k < s + 8 && (byte >> t) & 1
        == 1)) by (bit_vector)
        requires
            byte < 256,
            s <= 56,
            k < 64,
            s <= k ==> t == k - s,
    ;
}

/// Bit `k` is set exactly when `block[k]` is not zero.
pub fn nonzero_bitmap(block: &[i16; 64]) -> (bm: u64)
    ensures
        forall|k: u64| k < 64 ==> #[trigger] bit_set(bm, k) == (block[k as int] != 0),
{
    let mut bm: u64 = 0;
    assert forall|k: u64| k < 64 implies !#[trigger] bit_set(0u64, k) by {
        lemma_no_bits(k);
    }
    for j in 0..8u64
        invariant
            forall|k: u64| k < 64 ==> #[trigger] bit_set(bm, k) == (k < 8 * j && block[k as int] != 0),
    {
        let byte = nonzero_byte(block, (8 * j) as usize);
        let before: u64 = bm;
        bm = bm | (byte << (8 * j));
        assert forall|k: u64| k < 64 implies #[trigger] bit_set(bm, k) == (k < 8 * (j + 1) && block[k as int]
            != 0) by {
            lemma_join(before, byte, j, k);
            if 8 * j <= k && k < 8 * j + 8 {
                assert(bit_set(byte, (k - 8 * j) as u64) == (block[k as int] != 0));
            }
        }
    }
    bm
}

} // verus!
