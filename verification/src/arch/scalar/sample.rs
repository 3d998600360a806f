//! Interpolating ("fancy") chroma upsampling.

use vstd::prelude::*;

verus! {

/// Three parts of `cur` and one part of `nbr`, rounded.
pub open spec fn blend(cur: u8, nbr: u8) -> u8 {
    ((3 * cur + nbr + 2) / 4) as u8
}

/// Sample `k` of the doubled row of `n` samples: each source sample gives
/// two outputs, the even one leaning to the left neighbor and the odd one
/// to the right. The first and the last sample are their own neighbors at
/// the edge.
pub open spec fn fancy_doubled(src: Seq<u8>, n: int, k: int) -> u8 {
    let i = k / 2;
    if k % 2 == 0 {
        blend(src[i], src[if i == 0 { 0 } else { i - 1 }])
    } else {
        blend(src[i], src[if i + 1 >= n { i } else { i + 1 }])
    }
}

/// Exec form of [`blend`].
pub fn blend_samples(cur: u8, nbr: u8) -> (r: u8)
    ensures
        r == blend(cur, nbr),
{
    ((cur as u16 * 3 + nbr as u16 + 2) / 4) as u8
}

/// Vertical pass: blends row `cur` with its neighbor row `nbr`. As many
/// samples are written as all three rows and `n` allow.
pub fn h2v2_fancy_vblend(cur: &[u8], nbr: &[u8], out: &mut [u8], n: usize)
    ensures
        final(out)@.len() == old(out)@.len(),
        forall|i: int|
            0 <= i < old(out)@.len() ==> #[trigger] final(out)@[i] == if i < n && i < cur@.len() && i
                < nbr@.len() {
                blend(cur@[i], nbr@[i])
            } else {
                old(out)@[i]
            },
{
    let mut i: usize = 0;
    let ghost before = out@;
    while i < n && i < out.len() && i < cur.len() && i < nbr.len()
        invariant
            out@.len() == before.len(),
            i <= out@.len(),
            i <= n,
            i <= cur@.len(),
            i <= nbr@.len(),
            forall|k: int|
                0 <= k < before.len() ==> #[trigger] out@[k] == if k < i {
                    blend(cur@[k], nbr@[k])
                } else {
                    before[k]
                },
        decreases n - i,
    {
        out[i] = blend_samples(cur[i], nbr[i]);
        i = i + 1;
    }
}

/// Horizontal pass: doubles a row of `n >= 1` samples into `dst[..2 * n]`.
/// Samples of `dst` past that are left alone.
pub fn h2_fancy_upsample(src: &[u8], dst: &mut [u8], n: usize)
    requires
        n >= 1,
        src@.len() >= n,
        old(dst)@.len() >= 2 * n,
    ensures
        final(dst)@.len() == old(dst)@.len(),
        forall|k: int|
            0 <= k < old(dst)@.len() ==> #[trigger] final(dst)@[k] == if k < 2 * n {
                fancy_doubled(src@, n as int, k)
            } else {
                old(dst)@[k]
            },
{
    let ghost before = dst@;
    for i in 0..n
        invariant
            src@.len() >= n,
            dst@.len() == before.len(),
            dst@.len() >= 2 * n,
            forall|k: int|
                0 <= k < before.len() ==> #[trigger] dst@[k] == if k < 2 * i {
                    fancy_doubled(src@, n as int, k)
                } else {
                    before[k]
                },
    {
        let cur = src[i];
        let prev = if i == 0 {
            cur
        } else {
            src[i - 1]
        };
        let next = if i + 1 >= n {
            cur
        } else {
            src[i + 1]
        };
        dst[2 * i] = blend_samples(cur, prev);
        dst[2 * i + 1] = blend_samples(cur, next);
    }
}

/// A blended sample lies between the two samples it blends, and a sample
/// blended with itself is itself.
pub proof fn law_blend_is_between(cur: u8, nbr: u8)
    ensures
        cur <= nbr ==> cur <= blend(cur, nbr) <= nbr,
        nbr <= cur ==> nbr <= blend(cur, nbr) <= cur,
        blend(cur, cur) == cur,
{
}

/// Doubling a constant row gives a constant row.
pub proof fn law_fancy_keeps_constant(src: Seq<u8>, n: int, v: u8, k: int)
    requires
        n >= 1,
        src.len() >= n,
        forall|i: int| 0 <= i < n ==> #[trigger] src[i] == v,
        0 <= k < 2 * n,
    ensures
        fancy_doubled(src, n, k) == v,
{
}

/// `v` is `sum / 4`, rounded to the nearest integer, a half upwards.
pub open spec fn is_quarter_of(v: u8, sum: int) -> bool {
    -1 <= 4 * v - sum <= 2
}

/// A position that is limited to `0..n`.
pub open spec fn limited(i: int, n: int) -> int {
    if i < 0 {
        0
    } else if i >= n {
        n - 1
    } else {
        i
    }
}

/// Doubling a row is linear interpolation. With the samples in the middle of
/// their places, sample `i` of the row stands at `4 i + 2` quarters and sample
/// `k` of the doubled row at `2 k + 1`: it is the mean of the samples on its
/// left and on its right, each weighted by how near it is. The row goes on
/// with its outer samples at both ends.
pub proof fn law_doubling_interpolates(src: Seq<u8>, n: int, k: int)
    requires
        n >= 1,
        src.len() >= n,
        0 <= k < 2 * n,
    ensures
        ({
            let at = 2 * k + 1;
            let left = (at - 2) / 4;
            let near_right = at - (4 * left + 2);
            is_quarter_of(
                fancy_doubled(src, n, k),
                (4 - near_right) * src[limited(left, n)] + near_right * src[limited(left + 1, n)],
            )
        }),
{
    let at = 2 * k + 1;
    let left = (at - 2) / 4;
    let near_right = at - (4 * left + 2);
    let (a, b) = (src[limited(left, n)] as int, src[limited(left + 1, n)] as int);
    if k % 2 == 0 {
        assert(near_right == 3);
        assert((4 - near_right) * a + near_right * b == a + 3 * b) by (nonlinear_arith)
            requires
                near_right == 3,
        ;
    } else {
        assert(near_right == 1);
        assert((4 - near_right) * a + near_right * b == 3 * a + b) by (nonlinear_arith)
            requires
                near_right == 1,
        ;
    }
}

} // verus!
