//! Interpolating chroma upsampling in vector lanes.

use vstd::prelude::*;

use crate::arch::scalar::sample::blend_samples;

verus! {

use crate::arch::scalar::sample::{blend, fancy_doubled};

/// Rows shorter than this are doubled by the reference kernel.
pub const MIN_LANES: usize = 34;

/// Vertical pass: blends the first `n` samples of row `cur` with its
/// neighbor row `nbr`. The rest of `out` is left alone.
pub fn h2v2_fancy_vblend(cur: &[u8], nbr: &[u8], out: &mut [u8], n: usize)
    requires
        cur@.len() >= n,
        nbr@.len() >= n,
        old(out)@.len() >= n,
    ensures
        final(out)@.len() == old(out)@.len(),
        forall|i: int|
            0 <= i < old(out)@.len() ==> #[trigger] final(out)@[i] == if i < n {
                blend(cur@[i], nbr@[i])
            } else {
                old(out)@[i]
            },
{
    let ghost before = out@;
    for i in 0..n
        invariant
            cur@.len() >= n,
            nbr@.len() >= n,
            before.len() >= n,
            out@.len() == before.len(),
            forall|k: int|
                0 <= k < before.len() ==> #[trigger] out@[k] == if k < i {
                    blend(cur@[k], nbr@[k])
                } else {
                    before[k]
                },
    {
        out[i] = blend_samples(cur[i], nbr[i]);
    }
}

/// Horizontal pass: doubles the first `n` samples of `src`. The rest of
/// `dst` is left alone.
pub fn h2_fancy_upsample(src: &[u8], dst: &mut [u8], n: usize)
    requires
        n >= 1,
        src@.len() >= n,
        old(dst)@.len() >= 2 * n,
    ensures
        final(dst)@.len() == old(dst)@.len(),
        forall|k: int|
            0 <= k < old(dst)@.len() ==> #[trigger] final(dst)@[k] == if k < 2 * n {
                fancy_doubled(src@, n as int, k)
            } else {
                old(dst)@[k]
            },
{
    if n < MIN_LANES {
        crate::arch::scalar::sample::h2_fancy_upsample(src, dst, n);
        return;
    }
    let len: usize = dst.len();
    let ghost before = dst@;
    // The first sample is its own left neighbor.
    dst[0] = src[0];
    dst[1] = blend_samples(src[0], src[1]);
    // Samples with both neighbors.
    for i in 1..n - 1
        invariant
            n >= 34,
            src@.len() >= n,
            len == before.len(),
            len >= 2 * n,
            dst@.len() == before.len(),
            forall|k: int|
                0 <= k < before.len() ==> #[trigger] dst@[k] == if k < 2 * i {
                    fancy_doubled(src@, n as int, k)
                } else {
                    before[k]
                },
    {
        dst[2 * i] = blend_samples(src[i], src[i - 1]);
        dst[2 * i + 1] = blend_samples(src[i], src[i + 1]);
    }
    // The last sample is its own right neighbor.
    dst[2 * n - 2] = blend_samples(src[n - 1], src[n - 2]);
    dst[2 * n - 1] = src[n - 1];
}

} // verus!
