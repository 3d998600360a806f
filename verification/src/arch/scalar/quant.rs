//! Reciprocal-multiply quantization and zig-zag reordering.

use vstd::arithmetic::power2::{lemma2_to64, lemma_pow2_adds, lemma_pow2_strictly_increases, pow2};
use vstd::prelude::*;

use crate::fixed::saturate16;
use crate::quant::Divisors;
use crate::tables::ZIGZAG;

verus! {

use crate::fixed::{sat16, wrap32};
use crate::quant::{encodes_division, law_reciprocal_divides, rounded_quotient};
use crate::tables::to_zigzag;

/// Magnitude of a coefficient.
pub open spec fn magnitude(x: int) -> int {
    if x < 0 {
        -x
    } else {
        x
    }
}

/// The corrected magnitude times the reciprocal.
pub open spec fn quantize_product(x: int, recip: int, corr: int) -> int {
    (magnitude(x) + corr) * recip
}

/// The product shifted right by `shift + 16` (left, when that is
/// negative), kept to 32 bits.
pub open spec fn quantize_shifted(product: int, shift: int) -> int {
    if shift + 16 >= 0 {
        wrap32(product / pow2((shift + 16) as nat) as int)
    } else {
        wrap32(product * pow2((-(shift + 16)) as nat))
    }
}

/// One quantized coefficient.
pub open spec fn quantized(x: int, recip: int, corr: int, shift: int) -> int {
    let q = quantize_shifted(quantize_product(x, recip, corr), shift);
    sat16(
        if x < 0 {
            -q
        } else {
            q
        },
    )
}

/// The product fits in `u32`, the shift is one that the machine has, and
/// the quotient can be negated.
pub open spec fn quantize_fits(x: int, recip: int, corr: int, shift: int) -> bool {
    &&& quantize_product(x, recip, corr) <= 0xffff_ffff
    &&& -64 < shift + 16 < 32
    &&& x < 0 ==> quantize_shifted(quantize_product(x, recip, corr), shift) > -0x8000_0000
}

/// A quantized block.
pub open spec fn quantized_block(block: Seq<i16>, div: Divisors) -> Seq<i16> {
    Seq::new(
        64,
        |i: int|
            quantized(block[i] as int, div.recip[i] as int, div.corr[i] as int, div.shift[i] as int) as i16,
    )
}

/// Every coefficient of the block can be quantized.
pub open spec fn block_fits(block: Seq<i16>, div: Divisors) -> bool {
    forall|i: int|
        0 <= i < 64 ==> quantize_fits(
            #[trigger] block[i] as int,
            div.recip[i] as int,
            div.corr[i] as int,
            div.shift[i] as int,
        )
}

/// Quantizes one coefficient.
pub fn quantize_one(temp: i16, recip: u16, corr: u16, shift: i16) -> (r: i16)
    requires
        quantize_fits(temp as int, recip as int, corr as int, shift as int),
    ensures
        r == quantized(temp as int, recip as int, corr as int, shift as int),
{
    let neg = temp < 0;
    let abs: u32 = if neg {
        (-(temp as i32)) as u32
    } else {
        temp as u32
    };
    assert((abs + corr) * recip == quantize_product(temp as int, recip as int, corr as int));
    assert((abs + corr) * recip >= 0) by (nonlinear_arith)
        requires
            abs >= 0,
            corr >= 0,
            recip >= 0,
    ;
    let product: u32 = (abs + corr as u32) * (recip as u32);
    let total: i32 = shift as i32 + 16;
    let q: i32 = if total >= 0 {
        proof {
            vstd::bits::lemma_u32_shr_is_div(product, total as u32);
        }
        let v: u32 = product >> (total as u32);
        assert((v as i32) == (v + 0x8000_0000) % 0x1_0000_0000 - 0x8000_0000) by (bit_vector);
        v as i32
    } else if total <= -32 {
        proof {
            lemma_high_shift_is_zero(product as int, (-total) as nat);
        }
        0
    } else {
        let k: u64 = (-total) as u64;
        proof {
            lemma2_to64();
            if k < 31 {
                lemma_pow2_strictly_increases(k as nat, 31);
            }
            assert(product * pow2(k as nat) <= 0xffff_ffff * 0x8000_0000) by (nonlinear_arith)
                requires
                    0 <= product <= 0xffff_ffff,
                    0 <= pow2(k as nat) <= 0x8000_0000,
            ;
            vstd::bits::lemma_u64_shl_is_mul(product as u64, k);
        }
        let v: u64 = (product as u64) << k;
        assert((v as i32) == (v + 0x8000_0000) % 0x1_0000_0000 - 0x8000_0000) by (bit_vector);
        v as i32
    };
    let q: i32 = if neg {
        -q
    } else {
        q
    };
    saturate16(q)
}

/// A left shift by 32 or more leaves nothing in the low 32 bits.
proof fn lemma_high_shift_is_zero(product: int, k: nat)
    requires
        k >= 32,
    ensures
        wrap32(product * pow2(k)) == 0,
{
    lemma2_to64();
    lemma_pow2_adds(32, (k - 32) as nat);
    let h = pow2((k - 32) as nat) as int;
    let t = product * h;
    assert(product * pow2(k) == 0x1_0000_0000 * t) by (nonlinear_arith)
        requires
            pow2(k) == 0x1_0000_0000 * h,
            t == product * h,
    ;
}

/// Quantizes a 64-element block in natural order.
pub fn quantize_natural(block: &[i16; 64], div: &Divisors, out: &mut [i16; 64])
    requires
        block_fits(block@, *div),
    ensures
        final(out)@ == quantized_block(block@, *div),
{
    for i in 0..64usize
        invariant
            block_fits(block@, *div),
            forall|k: int| 0 <= k < i ==> out@[k] == quantized_block(block@, *div)[k],
    {
        assert(quantize_fits(
            block@[i as int] as int,
            div.recip[i as int] as int,
            div.corr[i as int] as int,
            div.shift[i as int] as int,
        ));
        out[i] = quantize_one(block[i], div.recip[i], div.corr[i], div.shift[i]);
    }
    assert(out@ =~= quantized_block(block@, *div));
}

/// Rearranges `natural` (natural order) into `zz` (zig-zag order).
pub fn zigzag_scatter(natural: &[i16; 64], zz: &mut [i16; 64])
    ensures
        final(zz)@ == to_zigzag(natural@),
{
    for k in 0..64usize
        invariant
            forall|i: int| 0 <= i < k ==> zz@[i] == to_zigzag(natural@)[i],
    {
        proof {
            crate::tables::law_zigzag_is_permutation(k as int);
        }
        zz[k] = natural[ZIGZAG[k]];
    }
    assert(zz@ =~= to_zigzag(natural@));
}

/// With the constants of [`crate::quant::build_divisors`], quantization of
/// any coefficient is division by `8 * q`, rounded to nearest with halves
/// away from zero.
pub proof fn law_quantize_is_rounded_division(x: i16, q: u8, recip: u16, corr: u16, scale: u16, shift: i16)
    requires
        q >= 1,
        encodes_division(8 * q, recip as int, corr as int, scale as int, shift as int),
    ensures
        quantize_fits(x as int, recip as int, corr as int, shift as int),
        quantized(x as int, recip as int, corr as int, shift as int) == rounded_quotient(x as int, 8 * q),
{
    let d = 8 * q;
    let n = magnitude(x as int);
    law_reciprocal_divides(n, d, recip as int, corr as int, scale as int, shift as int);
    assert(0 <= (n + d / 2) / d <= 32767) by (nonlinear_arith)
        requires
            0 <= n <= 32768,
            8 <= d <= 2040,
    ;
}

/// The same, for a whole block.
pub proof fn law_quantized_block_is_rounded_division(block: Seq<i16>, qtab: Seq<u8>, div: Divisors)
    requires
        block.len() == 64,
        qtab.len() == 64,
        forall|i: int| 0 <= i < 64 ==> #[trigger] qtab[i] >= 1,
        div.divides_by(qtab),
    ensures
        block_fits(block, div),
        quantized_block(block, div) == Seq::new(
            64,
            |i: int| rounded_quotient(block[i] as int, 8 * qtab[i]) as i16,
        ),
{
    assert forall|i: int| 0 <= i < 64 implies quantize_fits(
        #[trigger] block[i] as int,
        div.recip[i] as int,
        div.corr[i] as int,
        div.shift[i] as int,
    ) && quantized_block(block, div)[i] == rounded_quotient(block[i] as int, 8 * qtab[i]) as i16 by {
        assert(qtab[i] >= 1);
        law_quantize_is_rounded_division(
            block[i],
            qtab[i],
            div.recip[i],
            div.corr[i],
            div.scale[i],
            div.shift[i],
        );
    }
    assert(quantized_block(block, div) =~= Seq::new(
        64,
        |i: int| rounded_quotient(block[i] as int, 8 * qtab[i]) as i16,
    ));
}

} // verus!
