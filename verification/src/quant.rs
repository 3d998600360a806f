//! Quantization by reciprocal multiplication.
//!
//! A coefficient is divided by `d = 8 * q` (the factor eight undoes the
//! scale of the forward DCT) with rounding. In place of the division the
//! kernels compute `((|x| + corr) * recip) >> (shift + 16)` over the
//! constants that [`build_divisors`] derives once per table.

use vstd::arithmetic::div_mod::{lemma_fundamental_div_mod, lemma_fundamental_div_mod_converse};
use vstd::arithmetic::power2::{
    lemma2_to64, lemma_pow2_adds, lemma_pow2_pos, lemma_pow2_strictly_increases, lemma_pow2_unfold, pow2,
};
use vstd::prelude::*;

verus! {

/// Per-coefficient constants for quantization, in natural order.
pub struct Divisors {
    /// Reciprocal of the divisor in fixed point.
    pub recip: [u16; 64],
    /// Rounding correction added before the multiplication.
    pub corr: [u16; 64],
    /// `2^(16 - shift)`: a multiplication by it stands in for the shift in
    /// kernels that only have a high-half multiply.
    pub scale: [u16; 64],
    /// Right shift that follows the high-half multiplication.
    pub shift: [i16; 64],
}

/// `recip`, `corr`, `scale` and `shift` encode division by `d`.
///
/// With `b = floor(log2(d))`, the reciprocal is `2^(16 + b) / d` rounded:
/// down, with one added to the correction, when the remainder is at most
/// half of `d`, and up otherwise. A power of two has the exact reciprocal
/// `2^15` at one bit less.
pub open spec fn encodes_division(d: int, recip: int, corr: int, scale: int, shift: int) -> bool {
    let b = floor_log2(d);
    let p = 65536 * pow2(b as nat) as int;
    if p % d == 0 {
        &&& recip == p / d / 2
        &&& corr == d / 2
        &&& scale == pow2((17 - b) as nat)
        &&& shift == b - 1
    } else if p % d <= d / 2 {
        &&& recip == p / d
        &&& corr == d / 2 + 1
        &&& scale == pow2((16 - b) as nat)
        &&& shift == b
    } else {
        &&& recip == p / d + 1
        &&& corr == d / 2
        &&& scale == pow2((16 - b) as nat)
        &&& shift == b
    }
}

/// The exponent of the largest power of two not above `d`.
pub open spec fn floor_log2(d: int) -> int
    decreases d,
{
    if d < 2 {
        0
    } else {
        1 + floor_log2(d / 2)
    }
}

impl Divisors {
    /// The constants encode division by `8 * q` for every entry `q` of a
    /// quantization table.
    pub open spec fn divides_by(&self, qtab: Seq<u8>) -> bool {
        forall|i: int|
            0 <= i < 64 ==> encodes_division(
                8 * #[trigger] qtab[i],
                self.recip[i] as int,
                self.corr[i] as int,
                self.scale[i] as int,
                self.shift[i] as int,
            )
    }
}

/// `floor_log2` brackets its argument between two powers of two.
proof fn lemma_floor_log2(d: int)
    requires
        d >= 1,
    ensures
        floor_log2(d) >= 0,
        pow2(floor_log2(d) as nat) <= d < pow2((floor_log2(d) + 1) as nat),
    decreases d,
{
    lemma2_to64();
    if d >= 2 {
        lemma_floor_log2(d / 2);
        lemma_pow2_unfold((floor_log2(d / 2) + 1) as nat);
        lemma_pow2_unfold((floor_log2(d / 2) + 2) as nat);
    }
}

/// For a divisor `8 * q` of a quantization table entry, the exponent lies
/// between 3 and 10.
proof fn lemma_divisor_exponent(d: int)
    requires
        8 <= d <= 2040,
    ensures
        3 <= floor_log2(d) <= 10,
        pow2(floor_log2(d) as nat) <= d < 2 * pow2(floor_log2(d) as nat),
{
    let b = floor_log2(d);
    lemma2_to64();
    lemma_floor_log2(d);
    lemma_pow2_unfold((b + 1) as nat);
    if b > 10 {
        if b > 11 {
            lemma_pow2_strictly_increases(11, b as nat);
        }
    }
    if b < 3 {
        lemma_pow2_strictly_increases((b + 1) as nat, 4);
        if b < 2 {
            lemma_pow2_strictly_increases((b + 1) as nat, 3);
        }
    }
}

/// Quantization constants for one divisor `8 * q`.
fn reciprocal(q: u8) -> (r: (u16, u16, u16, i16))
    requires
        q >= 1,
    ensures
        encodes_division(8 * q, r.0 as int, r.1 as int, r.2 as int, r.3 as int),
{
    let d: u32 = 8 * (q as u32);
    let mut b: u32 = 0;
    let mut rest: u32 = d;
    let mut pb: u32 = 1;
    let mut scale: u32 = 0x1_0000;
    let ghost fl = floor_log2(d as int);
    proof {
        lemma2_to64();
        lemma_divisor_exponent(d as int);
    }
    while rest >= 2
        invariant
            8 <= d <= 2040,
            fl == floor_log2(d as int),
            fl <= 10,
            1 <= rest,
            b + floor_log2(rest as int) == fl,
            pb == pow2(b as nat),
            pb <= 1024,
            scale == pow2((16 - b) as nat),
        decreases rest,
    {
        proof {
            lemma_floor_log2(rest as int / 2);
            lemma_pow2_unfold((b + 1) as nat);
            lemma_pow2_unfold((16 - b) as nat);
            lemma2_to64();
            if b + 1 < 10 {
                lemma_pow2_strictly_increases((b + 1) as nat, 10);
            }
        }
        rest = rest / 2;
        b = b + 1;
        pb = 2 * pb;
        scale = scale / 2;
    }
    let p: u32 = 65536 * pb;
    let fq: u32 = p / d;
    let fr: u32 = p % d;
    proof {
        assert(fq * d + fr == 65536 * pb) by (nonlinear_arith)
            requires
                d > 0,
                fq == (65536 * pb) / (d as int),
                fr == (65536 * pb) % (d as int),
        ;
        assert(fq <= 65536) by (nonlinear_arith)
            requires
                fq * d + fr == 65536 * pb,
                pb <= d,
                d >= 1,
                0 <= fr,
        ;
        lemma2_to64();
        lemma_pow2_unfold((17 - b) as nat);
        lemma_pow2_strictly_increases((17 - b) as nat, 15);
        lemma_pow2_strictly_increases((16 - b) as nat, 15);
    }
    if fr == 0 {
        ((fq / 2) as u16, (d / 2) as u16, (2 * scale) as u16, b as i16 - 1)
    } else if fr <= d / 2 {
        assert(fq != 65536) by (nonlinear_arith)
            requires
                fq * d + fr == 65536 * pb,
                pb <= d,
                0 < fr,
        ;
        (fq as u16, (d / 2 + 1) as u16, scale as u16, b as i16)
    } else {
        assert(fq < 65535) by (nonlinear_arith)
            requires
                fq * d + fr == 65536 * pb,
                pb <= d,
                d <= 2040,
                0 < fr < d,
        ;
        ((fq + 1) as u16, (d / 2) as u16, scale as u16, b as i16)
    }
}

/// Quantization constants for a table of divisors. Every entry of the
/// table is at least one.
pub fn build_divisors(qtab: &[u8; 64]) -> (div: Divisors)
    requires
        forall|i: int| 0 <= i < 64 ==> #[trigger] qtab[i] >= 1,
    ensures
        div.divides_by(qtab@),
{
    let mut div = Divisors { recip: [0u16; 64], corr: [0u16; 64], scale: [0u16; 64], shift: [0i16; 64] };
    for i in 0..64usize
        invariant
            forall|k: int| 0 <= k < 64 ==> #[trigger] qtab[k] >= 1,
            forall|k: int|
                0 <= k < i ==> encodes_division(
                    8 * #[trigger] qtab@[k],
                    div.recip[k] as int,
                    div.corr[k] as int,
                    div.scale[k] as int,
                    div.shift[k] as int,
                ),
    {
        let r = reciprocal(qtab[i]);
        div.recip[i] = r.0;
        div.corr[i] = r.1;
        div.scale[i] = r.2;
        div.shift[i] = r.3;
    }
    div
}

/// The rounded quotient that quantization by `d` stands for.
pub open spec fn rounded_quotient(x: int, d: int) -> int {
    if x < 0 {
        -((-x + d / 2) / d)
    } else {
        (x + d / 2) / d
    }
}

/// The reciprocal multiplication computes the rounded quotient of every
/// 16-bit coefficient by every divisor `8 * q`, and never needs more than
/// 32 bits for the product.
pub proof fn law_reciprocal_divides(n: int, d: int, recip: int, corr: int, scale: int, shift: int)
    requires
        8 <= d <= 2040,
        0 <= n <= 32768,
        encodes_division(d, recip, corr, scale, shift),
    ensures
        2 <= shift <= 10,
        0 <= recip <= 65535,
        0 <= corr <= 1021,
        0 <= (n + corr) * recip < 0x1_0000_0000,
        (n + corr) * recip / pow2((shift + 16) as nat) as int == (n + d / 2) / d,
{
    let b = floor_log2(d);
    lemma_divisor_exponent(d);
    lemma2_to64();
    let pb = pow2(b as nat) as int;
    let p = 65536 * pb;
    lemma_pow2_adds(16, b as nat);
    assert(pow2((16 + b) as nat) == p);
    let fq = p / d;
    let fr = p % d;
    let m = n + d / 2;
    let q = m / d;
    let s = m % d;
    lemma_fundamental_div_mod(p, d);
    lemma_fundamental_div_mod(m, d);
    assert(p == d * fq + fr);
    assert(m == d * q + s);
    assert(fq >= 32768) by (nonlinear_arith)
        requires
            p == d * fq + fr,
            p == 65536 * pb,
            d < 2 * pb,
            0 <= fr < d,
            pb >= 1,
    ;
    assert(fq <= 65536) by (nonlinear_arith)
        requires
            p == d * fq + fr,
            p == 65536 * pb,
            pb <= d,
            0 <= fr,
            d >= 1,
    ;
    assert(d * q <= m);
    if fr == 0 {
        // `d` is the power of two itself.
        lemma_only_power_of_two_divides(d, b as nat, fq);
        lemma_pow2_adds(15, b as nat);
        let prod = m * 32768;
        let t = pow2((15 + b) as nat) as int;
        assert(t == 32768 * pb);
        assert(prod == t * q + 32768 * s) by (nonlinear_arith)
            requires
                prod == m * 32768,
                m == d * q + s,
                t == 32768 * pb,
                d == pb,
        ;
        lemma_fundamental_div_mod_converse(prod, t, q, 32768 * s);
    } else if fr <= d / 2 {
        assert(fq != 65536) by (nonlinear_arith)
            requires
                p == d * fq + fr,
                p == 65536 * pb,
                pb <= d,
                0 < fr,
        ;
        let prod = (m + 1) * fq;
        let rem = (s + 1) * fq - q * fr;
        assert(prod == p * q + rem) by (nonlinear_arith)
            requires
                prod == (m + 1) * fq,
                rem == (s + 1) * fq - q * fr,
                m == d * q + s,
                p == d * fq + fr,
        ;
        assert(2 * (q * fr) <= m) by (nonlinear_arith)
            requires
                q >= 0,
                fr <= d / 2,
                d * q <= m,
        ;
        assert(fq <= (s + 1) * fq <= d * fq) by (nonlinear_arith)
            requires
                0 <= s < d,
                fq >= 0,
        ;
        assert(q * fr >= 0) by (nonlinear_arith)
            requires
                q >= 0,
                fr >= 0,
        ;
        lemma_fundamental_div_mod_converse(prod, p, q, rem);
        assert(prod < 33790 * 65537) by (nonlinear_arith)
            requires
                prod == (m + 1) * fq,
                0 <= m <= 33788,
                0 <= fq <= 65536,
        ;
    } else {
        let e = d - fr;
        let fq1 = fq + 1;
        let prod = m * fq1;
        let rem = s * fq1 + q * e;
        assert(d * fq1 == p + e) by (nonlinear_arith)
            requires
                p == d * fq + fr,
                e == d - fr,
                fq1 == fq + 1,
        ;
        assert(prod == p * q + rem) by (nonlinear_arith)
            requires
                prod == m * fq1,
                rem == s * fq1 + q * e,
                m == d * q + s,
                d * fq1 == p + e,
        ;
        assert(2 * (q * e) <= m) by (nonlinear_arith)
            requires
                q >= 0,
                2 * e <= d,
                d * q <= m,
        ;
        assert(0 <= s * fq1 <= (d - 1) * fq1) by (nonlinear_arith)
            requires
                0 <= s <= d - 1,
                fq1 >= 0,
        ;
        assert((d - 1) * fq1 == p + e - fq1) by (nonlinear_arith)
            requires
                d * fq1 == p + e,
        ;
        assert(q * e >= 0) by (nonlinear_arith)
            requires
                q >= 0,
                e >= 0,
        ;
        lemma_fundamental_div_mod_converse(prod, p, q, rem);
        assert(prod < 33790 * 65538) by (nonlinear_arith)
            requires
                prod == m * fq1,
                0 <= m <= 33788,
                0 <= fq1 <= 65537,
        ;
        assert(fq < 65535) by (nonlinear_arith)
            requires
                p == d * fq + fr,
                p == 65536 * pb,
                pb <= d,
                d <= 2040,
                0 < fr < d,
        ;
    }
}

/// A divisor of a power of two is itself a power of two.
proof fn lemma_divisor_of_power(d: int, f: int, k: nat) -> (j: nat)
    requires
        d >= 1,
        f >= 1,
        d * f == pow2(k),
    ensures
        d == pow2(j),
    decreases k,
{
    lemma2_to64();
    if k == 0 {
        assert(d == 1) by (nonlinear_arith)
            requires
                d >= 1,
                f >= 1,
                d * f == 1,
        ;
        0
    } else {
        let p = pow2((k - 1) as nat) as int;
        lemma_pow2_unfold(k);
        if d % 2 == 1 && f % 2 == 1 {
            let a = d / 2;
            let c = f / 2;
            let t = 2 * (a * c) + a + c;
            assert(d * f == 2 * t + 1) by (nonlinear_arith)
                requires
                    d == 2 * a + 1,
                    f == 2 * c + 1,
                    t == 2 * (a * c) + a + c,
            ;
        }
        if d % 2 == 0 {
            let h = d / 2;
            assert(h * f == p) by (nonlinear_arith)
                requires
                    d == 2 * h,
                    d * f == 2 * p,
            ;
            let j = lemma_divisor_of_power(h, f, (k - 1) as nat);
            lemma_pow2_unfold(j + 1);
            j + 1
        } else {
            let h = f / 2;
            assert(d * h == p) by (nonlinear_arith)
                requires
                    f == 2 * h,
                    d * f == 2 * p,
            ;
            lemma_divisor_of_power(d, h, (k - 1) as nat)
        }
    }
}

/// Among the divisors in `[2^b, 2^(b+1))` only `2^b` divides `2^(16+b)`.
proof fn lemma_only_power_of_two_divides(d: int, b: nat, fq: int)
    requires
        d * fq == 65536 * pow2(b),
        pow2(b) <= d < 2 * pow2(b),
    ensures
        d == pow2(b),
        fq == 65536,
{
    lemma2_to64();
    lemma_pow2_adds(16, b);
    lemma_pow2_pos(b);
    let pb = pow2(b) as int;
    assert(fq >= 1) by (nonlinear_arith)
        requires
            d * fq == 65536 * pb,
            d >= 1,
            pb >= 1,
    ;
    let j = lemma_divisor_of_power(d, fq, 16 + b);
    if j < b {
        lemma_pow2_strictly_increases(j, b);
    }
    if j > b {
        lemma_pow2_unfold(b + 1);
        if j > b + 1 {
            lemma_pow2_strictly_increases(b + 1, j);
        }
    }
    assert(fq == 65536) by (nonlinear_arith)
        requires
            d * fq == 65536 * pb,
            d == pb,
            pb >= 1,
    ;
}

/// The quotient is rounded to the nearest integer; halves go away from zero.
pub proof fn law_quotient_is_the_nearest(x: int, d: int)
    requires
        d > 0,
        d % 2 == 0,
    ensures
        ({
            let r = rounded_quotient(x, d);
            &&& x >= 0 ==> -d <= 2 * (x - d * r) < d
            &&& x < 0 ==> -d < 2 * (x - d * r) <= d
            &&& rounded_quotient(-x, d) == -r
        }),
{
    let n = if x < 0 {
        -x
    } else {
        x
    };
    let q = (n + d / 2) / d;
    lemma_fundamental_div_mod(n + d / 2, d);
    vstd::arithmetic::div_mod::lemma_mod_bound(n + d / 2, d);
    assert(d * (-q) == -(d * q)) by (nonlinear_arith);
    if x == 0 {
        lemma_fundamental_div_mod_converse(d / 2, d, 0, d / 2);
    }
}

} // verus!
