//! Progressive scan decoder.
//!
//! A progressive image spreads the 64 coefficients of each block over
//! several scans. A scan brings either the DC coefficient or a band of AC
//! coefficients, and either their leading bits or one further bit. The
//! coefficients of the whole image are kept, in zig-zag order, until the
//! last scan; they are dequantized and transformed at the end.
//!
//! | Ss      | Ah  | scan                                        |
//! |---------|-----|---------------------------------------------|
//! | 0       | 0   | DC, first bits                              |
//! | 0       | > 0 | DC, one further bit                         |
//! | 1..=63  | 0   | AC band, first bits                         |
//! | 1..=63  | > 0 | AC band, one further bit and new ones       |

use vstd::arithmetic::div_mod::{
    lemma_fundamental_div_mod, lemma_fundamental_div_mod_converse, lemma_mod_bound,
};
use vstd::arithmetic::power2::{lemma2_to64, lemma_pow2_pos, lemma_pow2_strictly_increases, pow2};
use vstd::prelude::*;

use super::baseline::{
    build_huffman_tables, clone_huffman_specs, clone_quant_tables, div_up, find_component, index_quant_tables,
    place_block, AcTablePair, DcTablePair, DecodedPlane, DecodedPlanes,
};
use super::error::{DecodeError, Result};
use super::huffman::{extend, BitReader, HuffmanDecodeTable};
use super::markers::{Component, DecoderHeaders, FrameHeader, MarkerReader, QuantTable, ScanHeader};
use crate::arch;
use crate::fixed::{mul16, saturate16, trunc16};
use crate::tables::ZIGZAG;

verus! {

use super::baseline::{
    ac_books, ac_slots_wf, dc_books, dc_slots_wf, dequantized, fill_slots, find_component_from,
    in_block, lemma_block_in_plane, lemma_geometry, lemma_next_marker_pos, lemma_next_remainder, placed, plane_samples,
    planes_fit, quant_refs, quant_slots, restart, slot,
};
use super::huffman::{extended, lemma_read_pos, read_bits, read_symbol, BitState, CodeBook};
use super::markers::{
    huffs, huffs_wf, law_walk_between_keeps_order, lemma_walk_between_advances, quants, quants_wf,
    walk_between, Between, Cursor, Frame, Quant, Scan, Tables,
};
use crate::arch::scalar::dct::idct_block;
use crate::fixed::{lemma_wrap16_mul, sat16, wrap16, wrap32};
use crate::tables::{from_zigzag, law_zigzag_is_permutation, ZIGZAG_INVERSE};

/// A block during a scan: the reader, the number of blocks that the current
/// end-of-band run still covers, the coefficients in zig-zag order, and the
/// error that stopped the scan, if one did.
pub ghost struct BandBlock {
    pub br: BitState,
    pub eobrun: int,
    pub coef: Seq<i16>,
    pub err: Option<DecodeError>,
}

/// A value moved to bit position `al`, kept to 16 bits.
pub open spec fn at_bit(v: int, al: int) -> i16 {
    wrap16(v * pow2(al as nat)) as i16
}

/// First scan of a DC coefficient: the reader, the predictor, the
/// coefficient and the error.
pub open spec fn dc_first(src: Seq<u8>, br: BitState, book: CodeBook, prev_dc: int, al: int, dc: i16) -> (
    BitState,
    int,
    i16,
    Option<DecodeError>,
) {
    let (br1, sym) = read_symbol(src, br, book);
    match sym {
        Err(e) => (br1, prev_dc, dc, Some(e)),
        Ok(size) => if size == 0 {
            let next = wrap32(prev_dc + 0);
            (br1, next, at_bit(next, al), None)
        } else if size > 16 {
            (br1, prev_dc, dc, Some(DecodeError::Malformed("DC magnitude category > 16")))
        } else {
            let (br2, bits) = read_bits(src, br1, size as int);
            match bits {
                Err(e) => (br2, prev_dc, dc, Some(e)),
                Ok(b) => {
                    let next = wrap32(prev_dc + extended(b as int, size as int));
                    (br2, next, at_bit(next, al), None)
                },
            }
        },
    }
}

/// Further scan of a DC coefficient: one bit, which sets bit `al`.
pub open spec fn dc_refine(src: Seq<u8>, br: BitState, al: u8, dc: i16) -> (BitState, i16, Option<DecodeError>) {
    let (br1, bit) = read_bits(src, br, 1);
    match bit {
        Err(e) => (br1, dc, Some(e)),
        Ok(b) => (
            br1,
            if b != 0 {
                dc | (1i16 << al)
            } else {
                dc
            },
            None,
        ),
    }
}

/// Length of the end-of-band run that symbol run `run` announces, less the
/// block it begins with.
pub open spec fn read_eobrun(src: Seq<u8>, br: BitState, run: int) -> (BitState, Result<int>) {
    if run == 0 {
        (br, Ok(0))
    } else {
        let (br1, extra) = read_bits(src, br, run);
        match extra {
            Err(e) => (br1, Err(e)),
            Ok(x) => (br1, Ok(pow2(run as nat) + x - 1)),
        }
    }
}

/// First scan of an AC band from position `k` on.
pub open spec fn ac_first_terms(src: Seq<u8>, b: BandBlock, book: CodeBook, se: int, al: int, k: int) -> BandBlock
    decreases se + 17 - k,
{
    if k > se {
        b
    } else {
        let (br, sym) = read_symbol(src, b.br, book);
        match sym {
            Err(e) => BandBlock { br, err: Some(e), ..b },
            Ok(rs) => {
                let run = rs as int / 16;
                let size = rs as int % 16;
                if size == 0 {
                    if run == 15 {
                        ac_first_terms(src, BandBlock { br, ..b }, book, se, al, k + 16)
                    } else {
                        let (br1, n) = read_eobrun(src, br, run);
                        match n {
                            Err(e) => BandBlock { br: br1, err: Some(e), ..b },
                            Ok(n) => BandBlock { br: br1, eobrun: n, ..b },
                        }
                    }
                } else if k + run > se {
                    BandBlock {
                        br,
                        err: Some(DecodeError::Malformed("AC first scan run exceeded band")),
                        ..b
                    }
                } else {
                    let (br1, bits) = read_bits(src, br, size);
                    match bits {
                        Err(e) => BandBlock { br: br1, err: Some(e), ..b },
                        Ok(v) => ac_first_terms(
                            src,
                            BandBlock {
                                br: br1,
                                coef: b.coef.update(k + run, at_bit(extended(v as int, size), al)),
                                ..b
                            },
                            book,
                            se,
                            al,
                            k + run + 1,
                        ),
                    }
                }
            },
        }
    }
}

/// First scan of the AC band `ss..=se` of a block. Within an end-of-band
/// run there is nothing to read.
pub open spec fn ac_first(src: Seq<u8>, b: BandBlock, book: CodeBook, ss: int, se: int, al: int) -> BandBlock {
    if b.eobrun > 0 {
        BandBlock { eobrun: b.eobrun - 1, ..b }
    } else {
        ac_first_terms(src, b, book, se, al, ss)
    }
}

/// A coefficient that is not zero after its correction: `2^al` further from
/// zero.
pub open spec fn corrected(v: i16, al: int) -> i16 {
    if v > 0 {
        sat16(v + pow2(al as nat)) as i16
    } else {
        sat16(v - pow2(al as nat)) as i16
    }
}

/// Reads the correction bit of coefficient `k`.
pub open spec fn refine_one(src: Seq<u8>, b: BandBlock, al: int, k: int) -> BandBlock {
    let (br, bit) = read_bits(src, b.br, 1);
    match bit {
        Err(e) => BandBlock { br, err: Some(e), ..b },
        Ok(v) => if v != 0 {
            BandBlock { br, coef: b.coef.update(k, corrected(b.coef[k], al)), ..b }
        } else {
            BandBlock { br, ..b }
        },
    }
}

/// Corrects the coefficients of `k..=se` that are not zero.
pub open spec fn refine_band(src: Seq<u8>, b: BandBlock, se: int, al: int, k: int) -> BandBlock
    decreases se + 1 - k,
{
    if b.err is Some || k > se {
        b
    } else if b.coef[k] != 0 {
        refine_band(src, refine_one(src, b, al, k), se, al, k + 1)
    } else {
        refine_band(src, b, se, al, k + 1)
    }
}

/// Passes `n` zero coefficients from position `k` on, and corrects the
/// others on the way. The position past them comes back.
pub open spec fn skip_zeros(src: Seq<u8>, b: BandBlock, se: int, al: int, k: int, n: int) -> (BandBlock, int)
    decreases se + 1 - k,
{
    if b.err is Some || n <= 0 {
        (b, k)
    } else if k > se {
        (BandBlock { err: Some(DecodeError::Malformed("AC refine ZRL exceeded band")), ..b }, k)
    } else if b.coef[k] != 0 {
        skip_zeros(src, refine_one(src, b, al, k), se, al, k + 1, n)
    } else {
        skip_zeros(src, b, se, al, k + 1, n - 1)
    }
}

/// Passes `n` zero coefficients from position `k` on, correcting the others
/// on the way, and puts `v` in the place of the next zero, if the band has
/// one. The position past it comes back.
pub open spec fn insert_new(src: Seq<u8>, b: BandBlock, se: int, al: int, k: int, n: int, v: i16) -> (BandBlock, int)
    decreases se + 1 - k,
{
    if b.err is Some {
        (b, k)
    } else if k > se {
        if n > 0 {
            (BandBlock { err: Some(DecodeError::Malformed("AC refine run exceeded band")), ..b }, k)
        } else {
            (b, k)
        }
    } else if b.coef[k] != 0 {
        insert_new(src, refine_one(src, b, al, k), se, al, k + 1, n, v)
    } else if n > 0 {
        insert_new(src, b, se, al, k + 1, n - 1, v)
    } else {
        (BandBlock { coef: b.coef.update(k, v), ..b }, k + 1)
    }
}

/// Both walks go forward.
pub proof fn lemma_walks_advance(src: Seq<u8>, b: BandBlock, se: int, al: int, k: int, n: int, v: i16)
    ensures
        skip_zeros(src, b, se, al, k, n).1 >= k,
        skip_zeros(src, b, se, al, k, n).0.err is None && n > 0 ==> skip_zeros(src, b, se, al, k, n).1 > k,
        insert_new(src, b, se, al, k, n, v).1 >= k,
        insert_new(src, b, se, al, k, n, v).0.err is None && k <= se ==> insert_new(
            src,
            b,
            se,
            al,
            k,
            n,
            v,
        ).1 > k,
    decreases se + 1 - k,
{
    if k <= se {
        lemma_walks_advance(src, refine_one(src, b, al, k), se, al, k + 1, n, v);
        lemma_walks_advance(src, b, se, al, k + 1, n - 1, v);
    }
}

/// Further scan of an AC band from position `k` on.
pub open spec fn ac_refine_terms(src: Seq<u8>, b: BandBlock, book: CodeBook, se: int, al: int, k: int) -> BandBlock
    decreases se + 17 - k,
{
    if b.err is Some || k > se {
        b
    } else {
        let (br, sym) = read_symbol(src, b.br, book);
        match sym {
            Err(e) => BandBlock { br, err: Some(e), ..b },
            Ok(rs) => {
                let run = rs as int / 16;
                let size = rs as int % 16;
                let b1 = BandBlock { br, ..b };
                if size > 1 {
                    BandBlock {
                        err: Some(DecodeError::Malformed("AC refine: new-nonzero size must be 0 or 1")),
                        ..b1
                    }
                } else if size == 0 && run != 15 {
                    let (br1, n) = read_eobrun(src, br, run);
                    match n {
                        Err(e) => BandBlock { br: br1, err: Some(e), ..b },
                        Ok(n) => refine_band(src, BandBlock { br: br1, eobrun: n, ..b }, se, al, k),
                    }
                } else if size == 0 {
                    let (b2, k2) = skip_zeros(src, b1, se, al, k, 16);
                    proof {
                        lemma_walks_advance(src, b1, se, al, k, 16, 0);
                        lemma_skip_bound(src, b1, se, al, k, 16);
                    }
                    if b2.err is Some {
                        b2
                    } else {
                        ac_refine_terms(src, b2, book, se, al, k2)
                    }
                } else {
                    let (br1, sign) = read_bits(src, br, 1);
                    match sign {
                        Err(e) => BandBlock { br: br1, err: Some(e), ..b },
                        Ok(s) => {
                            let v = if s != 0 {
                                at_bit(1, al)
                            } else {
                                at_bit(-1, al)
                            };
                            let b2 = BandBlock { br: br1, ..b };
                            let (b3, k3) = insert_new(src, b2, se, al, k, run, v);
                            proof {
                                lemma_walks_advance(src, b2, se, al, k, run, v);
                                lemma_insert_bound(src, b2, se, al, k, run, v);
                            }
                            if b3.err is Some {
                                b3
                            } else {
                                ac_refine_terms(src, b3, book, se, al, k3)
                            }
                        },
                    }
                }
            },
        }
    }
}

/// A skip ends at most one past the band.
pub proof fn lemma_skip_bound(src: Seq<u8>, b: BandBlock, se: int, al: int, k: int, n: int)
    requires
        k <= se + 1,
    ensures
        skip_zeros(src, b, se, al, k, n).1 <= se + 1,
    decreases se + 1 - k,
{
    if k <= se {
        lemma_skip_bound(src, refine_one(src, b, al, k), se, al, k + 1, n);
        lemma_skip_bound(src, b, se, al, k + 1, n - 1);
    }
}

/// So does an insertion.
pub proof fn lemma_insert_bound(src: Seq<u8>, b: BandBlock, se: int, al: int, k: int, n: int, v: i16)
    requires
        k <= se + 1,
    ensures
        insert_new(src, b, se, al, k, n, v).1 <= se + 1,
    decreases se + 1 - k,
{
    if k <= se {
        lemma_insert_bound(src, refine_one(src, b, al, k), se, al, k + 1, n, v);
        lemma_insert_bound(src, b, se, al, k + 1, n - 1, v);
    }
}

/// Further scan of the AC band `ss..=se` of a block. Within an end-of-band
/// run only corrections are read.
pub open spec fn ac_refine(src: Seq<u8>, b: BandBlock, book: CodeBook, ss: int, se: int, al: int) -> BandBlock {
    if b.eobrun > 0 {
        let r = refine_band(src, b, se, al, ss);
        if r.err is Some {
            r
        } else {
            BandBlock { eobrun: r.eobrun - 1, ..r }
        }
    } else {
        ac_refine_terms(src, b, book, se, al, ss)
    }
}

/// `2^al` as a coefficient.
fn bit_value(al: u8) -> (r: i16)
    requires
        al <= 13,
    ensures
        r == pow2(al as nat),
        1 <= r <= 8192,
{
    proof {
        lemma2_to64();
        lemma_pow2_pos(al as nat);
        if al < 13 {
            lemma_pow2_strictly_increases(al as nat, 13);
        }
        vstd::bits::lemma_u32_shl_is_mul(1, al as u32);
    }
    (1u32 << (al as u32)) as i16
}

/// Exec form of [`at_bit`].
fn shift_to_bit(v: i32, al: u8) -> (r: i16)
    requires
        al <= 13,
    ensures
        r == at_bit(v as int, al as int),
{
    let unit = bit_value(al);
    proof {
        lemma_wrap16_mul(v as int, unit as int);
        assert(wrap16(unit as int) == unit);
    }
    mul16(trunc16(v), unit)
}

fn decode_dc_first_block(
    br: &mut BitReader,
    dc_tbl: &HuffmanDecodeTable,
    prev_dc: &mut i32,
    al: u8,
    coef: &mut [i16; 64],
) -> (r: Result<()>)
    requires
        old(br).inv(),
        dc_tbl.wf(),
        al <= 13,
    ensures
        final(br).inv(),
        final(br).data() == old(br).data(),
        ({
            let (s, p, dc, err) = dc_first(
                old(br).data(),
                old(br)@,
                dc_tbl.book(),
                *old(prev_dc) as int,
                al as int,
                old(coef)@[0],
            );
            &&& final(br)@ == s
            &&& *final(prev_dc) == p
            &&& final(coef)@ == old(coef)@.update(0, dc)
            &&& r == match err {
                Some(e) => Err(e),
                None => Ok(()),
            }
        }),
{
    assert(coef@ =~= coef@.update(0, coef@[0]));
    let size = match br.decode_symbol(dc_tbl) {
        Ok(v) => v,
        Err(e) => {
            return Err(e);
        },
    };
    let diff: i32 = if size == 0 {
        0
    } else if size > 16 {
        return Err(DecodeError::Malformed("DC magnitude category > 16"));
    } else {
        proof {
            lemma2_to64();
            if size < 16 {
                lemma_pow2_strictly_increases(size as nat, 16);
            }
        }
        match br.get_bits(size as u32) {
            Ok(bits) => extend(bits, size as u32),
            Err(e) => {
                return Err(e);
            },
        }
    };
    *prev_dc = prev_dc.wrapping_add(diff);
    coef[0] = shift_to_bit(*prev_dc, al);
    Ok(())
}

fn decode_dc_refine_block(br: &mut BitReader, al: u8, coef: &mut [i16; 64]) -> (r: Result<()>)
    requires
        old(br).inv(),
        al <= 13,
    ensures
        final(br).inv(),
        final(br).data() == old(br).data(),
        ({
            let (s, dc, err) = dc_refine(old(br).data(), old(br)@, al, old(coef)@[0]);
            &&& final(br)@ == s
            &&& final(coef)@ == old(coef)@.update(0, dc)
            &&& r == match err {
                Some(e) => Err(e),
                None => Ok(()),
            }
        }),
{
    assert(coef@ =~= coef@.update(0, coef@[0]));
    let bit = match br.get_bit() {
        Ok(b) => b,
        Err(e) => {
            return Err(e);
        },
    };
    if bit != 0 {
        coef[0] = coef[0] | (1i16 << al);
    }
    Ok(())
}

/// Reads the length of an end-of-band run.
fn next_eobrun(br: &mut BitReader, run: u8) -> (r: Result<u32>)
    requires
        old(br).inv(),
        run < 15,
    ensures
        final(br).inv(),
        final(br).data() == old(br).data(),
        ({
            let (s, n) = read_eobrun(old(br).data(), old(br)@, run as int);
            &&& final(br)@ == s
            &&& match n {
                Err(e) => r == Err::<u32, DecodeError>(e),
                Ok(n) => r matches Ok(v) && v == n,
            }
        }),
{
    if run == 0 {
        return Ok(0);
    }
    proof {
        lemma2_to64();
        lemma_pow2_strictly_increases(run as nat, 15);
        lemma_pow2_pos(run as nat);
        vstd::bits::lemma_u32_shl_is_mul(1, run as u32);
    }
    match br.get_bits(run as u32) {
        Ok(extra) => Ok((1u32 << (run as u32)) + extra - 1),
        Err(e) => Err(e),
    }
}

fn decode_ac_first_block(
    br: &mut BitReader,
    ac_tbl: &HuffmanDecodeTable,
    ss: u8,
    se: u8,
    al: u8,
    eobrun: &mut u32,
    coef: &mut [i16; 64],
) -> (r: Result<()>)
    requires
        old(br).inv(),
        ac_tbl.wf(),
        se <= 63,
        al <= 13,
    ensures
        final(br).inv(),
        final(br).data() == old(br).data(),
        ({
            let b = ac_first(
                old(br).data(),
                BandBlock { br: old(br)@, eobrun: *old(eobrun) as int, coef: old(coef)@, err: None },
                ac_tbl.book(),
                ss as int,
                se as int,
                al as int,
            );
            &&& final(br)@ == b.br
            &&& *final(eobrun) == b.eobrun
            &&& final(coef)@ == b.coef
            &&& r == match b.err {
                Some(e) => Err(e),
                None => Ok(()),
            }
        }),
{
    let ghost src = br.data();
    let ghost target = ac_first(
        src,
        BandBlock { br: br@, eobrun: *eobrun as int, coef: coef@, err: None },
        ac_tbl.book(),
        ss as int,
        se as int,
        al as int,
    );
    if *eobrun > 0 {
        *eobrun = *eobrun - 1;
        return Ok(());
    }
    let mut k: usize = ss as usize;
    let last: usize = se as usize;
    while k <= last
        invariant
            br.inv(),
            br.data() == src,
            src == old(br).data(),
            ac_tbl.wf(),
            last == se,
            se <= 63,
            al <= 13,
            k <= 300,
            *eobrun == 0,
            target == ac_first(
                old(br).data(),
                BandBlock { br: old(br)@, eobrun: *old(eobrun) as int, coef: old(coef)@, err: None },
                ac_tbl.book(),
                ss as int,
                se as int,
                al as int,
            ),
            target == ac_first_terms(
                src,
                BandBlock { br: br@, eobrun: *eobrun as int, coef: coef@, err: None },
                ac_tbl.book(),
                se as int,
                al as int,
                k as int,
            ),
        decreases last + 17 - k,
    {
        let rs = match br.decode_symbol(ac_tbl) {
            Ok(v) => v,
            Err(e) => {
                return Err(e);
            },
        };
        let run: u8 = rs / 16;
        let size: u8 = rs % 16;
        if size == 0 {
            if run != 15 {
                match next_eobrun(br, run) {
                    Ok(n) => {
                        *eobrun = n;
                    },
                    Err(e) => {
                        return Err(e);
                    },
                }
                return Ok(());
            }
            k = k + 16;
            continue;
        }
        k = k + run as usize;
        if k > last {
            return Err(DecodeError::Malformed("AC first scan run exceeded band"));
        }
        proof {
            lemma2_to64();
            lemma_pow2_strictly_increases(size as nat, 16);
        }
        let bits = match br.get_bits(size as u32) {
            Ok(v) => v,
            Err(e) => {
                return Err(e);
            },
        };
        coef[k] = shift_to_bit(extend(bits, size as u32), al);
        k = k + 1;
    }
    Ok(())
}

/// Reads the correction bit of coefficient `k`, which is not zero.
fn refine_one_existing(br: &mut BitReader, coef: &mut [i16; 64], k: usize, al: u8, Ghost(eobrun): Ghost<int>) -> (r: Result<()>)
    requires
        old(br).inv(),
        k < 64,
        al <= 13,
    ensures
        final(br).inv(),
        final(br).data() == old(br).data(),
        ({
            let b = refine_one(
                old(br).data(),
                BandBlock { br: old(br)@, eobrun, coef: old(coef)@, err: None },
                al as int,
                k as int,
            );
            &&& final(br)@ == b.br
            &&& final(coef)@ == b.coef
            &&& b.eobrun == eobrun
            &&& r == match b.err {
                Some(e) => Err(e),
                None => Ok(()),
            }
        }),
{
    let bit = match br.get_bit() {
        Ok(b) => b,
        Err(e) => {
            return Err(e);
        },
    };
    if bit != 0 {
        let unit: i32 = bit_value(al) as i32;
        let v: i32 = coef[k] as i32;
        coef[k] = if v > 0 {
            saturate16(v + unit)
        } else {
            saturate16(v - unit)
        };
    }
    Ok(())
}

/// Corrects the coefficients of `k_lo..=k_hi` that are not zero.
fn refine_existing_band(
    br: &mut BitReader,
    coef: &mut [i16; 64],
    k_lo: usize,
    k_hi: usize,
    al: u8,
    Ghost(eobrun): Ghost<int>,
) -> (r: Result<()>)
    requires
        old(br).inv(),
        k_hi < 64,
        k_lo <= 255,
        al <= 13,
    ensures
        final(br).inv(),
        final(br).data() == old(br).data(),
        ({
            let b = refine_band(
                old(br).data(),
                BandBlock { br: old(br)@, eobrun, coef: old(coef)@, err: None },
                k_hi as int,
                al as int,
                k_lo as int,
            );
            &&& final(br)@ == b.br
            &&& final(coef)@ == b.coef
            &&& b.eobrun == eobrun
            &&& r == match b.err {
                Some(e) => Err(e),
                None => Ok(()),
            }
        }),
{
    let ghost src = br.data();
    let ghost target = refine_band(
        src,
        BandBlock { br: br@, eobrun, coef: coef@, err: None },
        k_hi as int,
        al as int,
        k_lo as int,
    );
    let mut k: usize = k_lo;
    while k <= k_hi
        invariant
            br.inv(),
            br.data() == src,
            src == old(br).data(),
            k_hi < 64,
            al <= 13,
            target == refine_band(
                old(br).data(),
                BandBlock { br: old(br)@, eobrun, coef: old(coef)@, err: None },
                k_hi as int,
                al as int,
                k_lo as int,
            ),
            target == refine_band(
                src,
                BandBlock { br: br@, eobrun, coef: coef@, err: None },
                k_hi as int,
                al as int,
                k as int,
            ),
        decreases k_hi + 1 - k,
    {
        proof {
            reveal_with_fuel(refine_band, 2);
        }
        if coef[k] != 0 {
            match refine_one_existing(br, coef, k, al, Ghost(eobrun)) {
                Ok(_) => {},
                Err(e) => {
                    return Err(e);
                },
            }
        }
        k = k + 1;
    }
    Ok(())
}

/// Passes 16 zero coefficients from position `k` on.
fn skip_zero_run(
    br: &mut BitReader,
    coef: &mut [i16; 64],
    k: usize,
    se: usize,
    al: u8,
    Ghost(eobrun): Ghost<int>,
) -> (r: Result<usize>)
    requires
        old(br).inv(),
        se < 64,
        k <= se,
        al <= 13,
    ensures
        final(br).inv(),
        final(br).data() == old(br).data(),
        ({
            let (b, k2) = skip_zeros(
                old(br).data(),
                BandBlock { br: old(br)@, eobrun, coef: old(coef)@, err: None },
                se as int,
                al as int,
                k as int,
                16,
            );
            &&& final(br)@ == b.br
            &&& final(coef)@ == b.coef
            &&& b.eobrun == eobrun
            &&& match b.err {
                Some(e) => r == Err::<usize, DecodeError>(e),
                None => r matches Ok(p) && p == k2,
            }
        }),
{
    let ghost src = br.data();
    let ghost target = skip_zeros(
        src,
        BandBlock { br: br@, eobrun, coef: coef@, err: None },
        se as int,
        al as int,
        k as int,
        16,
    );
    let mut p: usize = k;
    let mut left: u8 = 16;
    while left > 0
        invariant
            br.inv(),
            br.data() == src,
            src == old(br).data(),
            se < 64,
            p <= se + 1,
            left <= 16,
            al <= 13,
            target == skip_zeros(
                old(br).data(),
                BandBlock { br: old(br)@, eobrun, coef: old(coef)@, err: None },
                se as int,
                al as int,
                k as int,
                16,
            ),
            target == skip_zeros(
                src,
                BandBlock { br: br@, eobrun, coef: coef@, err: None },
                se as int,
                al as int,
                p as int,
                left as int,
            ),
        decreases se + 2 - p,
    {
        proof {
            reveal_with_fuel(skip_zeros, 2);
        }
        if p > se {
            return Err(DecodeError::Malformed("AC refine ZRL exceeded band"));
        }
        if coef[p] != 0 {
            match refine_one_existing(br, coef, p, al, Ghost(eobrun)) {
                Ok(_) => {},
                Err(e) => {
                    return Err(e);
                },
            }
        } else {
            left = left - 1;
        }
        p = p + 1;
    }
    Ok(p)
}

/// Inserts the new coefficient `v` after `run` zero coefficients.
fn insert_new_value(
    br: &mut BitReader,
    coef: &mut [i16; 64],
    k: usize,
    se: usize,
    al: u8,
    run: u8,
    v: i16,
    Ghost(eobrun): Ghost<int>,
) -> (r: Result<usize>)
    requires
        old(br).inv(),
        se < 64,
        k <= se,
        al <= 13,
    ensures
        final(br).inv(),
        final(br).data() == old(br).data(),
        ({
            let (b, k2) = insert_new(
                old(br).data(),
                BandBlock { br: old(br)@, eobrun, coef: old(coef)@, err: None },
                se as int,
                al as int,
                k as int,
                run as int,
                v,
            );
            &&& final(br)@ == b.br
            &&& final(coef)@ == b.coef
            &&& b.eobrun == eobrun
            &&& match b.err {
                Some(e) => r == Err::<usize, DecodeError>(e),
                None => r matches Ok(p) && p == k2,
            }
        }),
{
    let ghost src = br.data();
    let ghost target = insert_new(
        src,
        BandBlock { br: br@, eobrun, coef: coef@, err: None },
        se as int,
        al as int,
        k as int,
        run as int,
        v,
    );
    let mut p: usize = k;
    let mut zeros: u8 = run;
    while p <= se
        invariant
            br.inv(),
            br.data() == src,
            src == old(br).data(),
            se < 64,
            p <= se + 1,
            al <= 13,
            target == insert_new(
                old(br).data(),
                BandBlock { br: old(br)@, eobrun, coef: old(coef)@, err: None },
                se as int,
                al as int,
                k as int,
                run as int,
                v,
            ),
            target == insert_new(
                src,
                BandBlock { br: br@, eobrun, coef: coef@, err: None },
                se as int,
                al as int,
                p as int,
                zeros as int,
                v,
            ),
        decreases se + 1 - p,
    {
        proof {
            reveal_with_fuel(insert_new, 2);
        }
        if coef[p] != 0 {
            match refine_one_existing(br, coef, p, al, Ghost(eobrun)) {
                Ok(_) => {},
                Err(e) => {
                    return Err(e);
                },
            }
        } else if zeros > 0 {
            zeros = zeros - 1;
        } else {
            coef[p] = v;
            return Ok(p + 1);
        }
        p = p + 1;
    }
    if zeros > 0 {
        return Err(DecodeError::Malformed("AC refine run exceeded band"));
    }
    Ok(p)
}

fn decode_ac_refine_block(
    br: &mut BitReader,
    ac_tbl: &HuffmanDecodeTable,
    ss: u8,
    se: u8,
    al: u8,
    eobrun: &mut u32,
    coef: &mut [i16; 64],
) -> (r: Result<()>)
    requires
        old(br).inv(),
        ac_tbl.wf(),
        se <= 63,
        al <= 13,
    ensures
        final(br).inv(),
        final(br).data() == old(br).data(),
        ({
            let b = ac_refine(
                old(br).data(),
                BandBlock { br: old(br)@, eobrun: *old(eobrun) as int, coef: old(coef)@, err: None },
                ac_tbl.book(),
                ss as int,
                se as int,
                al as int,
            );
            &&& final(br)@ == b.br
            &&& *final(eobrun) == b.eobrun
            &&& final(coef)@ == b.coef
            &&& r == match b.err {
                Some(e) => Err(e),
                None => Ok(()),
            }
        }),
{
    let ghost src = br.data();
    let ghost target = ac_refine(
        src,
        BandBlock { br: br@, eobrun: *eobrun as int, coef: coef@, err: None },
        ac_tbl.book(),
        ss as int,
        se as int,
        al as int,
    );
    let last: usize = se as usize;
    let p1: i16 = shift_to_bit(1, al);
    let m1: i16 = shift_to_bit(-1, al);
    if *eobrun > 0 {
        match refine_existing_band(br, coef, ss as usize, last, al, Ghost(*eobrun as int)) {
            Ok(_) => {},
            Err(e) => {
                return Err(e);
            },
        }
        *eobrun = *eobrun - 1;
        return Ok(());
    }
    let mut k: usize = ss as usize;
    while k <= last
        invariant
            br.inv(),
            br.data() == src,
            src == old(br).data(),
            ac_tbl.wf(),
            last == se,
            se <= 63,
            al <= 13,
            k <= 255,
            *eobrun == 0,
            p1 == at_bit(1, al as int),
            m1 == at_bit(-1, al as int),
            target == ac_refine(
                old(br).data(),
                BandBlock { br: old(br)@, eobrun: *old(eobrun) as int, coef: old(coef)@, err: None },
                ac_tbl.book(),
                ss as int,
                se as int,
                al as int,
            ),
            target == ac_refine_terms(
                src,
                BandBlock { br: br@, eobrun: *eobrun as int, coef: coef@, err: None },
                ac_tbl.book(),
                se as int,
                al as int,
                k as int,
            ),
        decreases last + 17 - k,
    {
        let ghost b0 = BandBlock { br: br@, eobrun: 0, coef: coef@, err: None };
        let rs = match br.decode_symbol(ac_tbl) {
            Ok(v) => v,
            Err(e) => {
                return Err(e);
            },
        };
        let run: u8 = rs / 16;
        let size: u8 = rs % 16;
        if size > 1 {
            return Err(DecodeError::Malformed("AC refine: new-nonzero size must be 0 or 1"));
        }
        if size == 0 {
            if run != 15 {
                match next_eobrun(br, run) {
                    Ok(n) => {
                        *eobrun = n;
                    },
                    Err(e) => {
                        return Err(e);
                    },
                }
                return refine_existing_band(br, coef, k, last, al, Ghost(*eobrun as int));
            }
            let ghost b1 = BandBlock { br: br@, ..b0 };
            proof {
                lemma_walks_advance(src, b1, se as int, al as int, k as int, 16, 0);
                lemma_skip_bound(src, b1, se as int, al as int, k as int, 16);
            }
            k = match skip_zero_run(br, coef, k, last, al, Ghost(0)) {
                Ok(p) => p,
                Err(e) => {
                    return Err(e);
                },
            };
            continue;
        }
        let sign = match br.get_bit() {
            Ok(b) => b,
            Err(e) => {
                return Err(e);
            },
        };
        let new_val: i16 = if sign != 0 {
            p1
        } else {
            m1
        };
        let ghost b2 = BandBlock { br: br@, ..b0 };
        proof {
            lemma_walks_advance(src, b2, se as int, al as int, k as int, run as int, new_val);
            lemma_insert_bound(src, b2, se as int, al as int, k as int, run as int, new_val);
        }
        k = match insert_new_value(br, coef, k, last, al, run, new_val, Ghost(0)) {
            Ok(p) => p,
            Err(e) => {
                return Err(e);
            },
        };
    }
    Ok(())
}

/// Everything that a progressive scan is decoded with.
pub ghost struct BandContext {
    pub src: Seq<u8>,
    pub frame: Frame,
    pub scan: Scan,
    pub interval: int,
    pub dc: Seq<Option<CodeBook>>,
    pub ac: Seq<Option<CodeBook>>,
}

/// How far a progressive scan has got: the reader, the DC predictors by
/// component, the end-of-band run, the number of MCUs since the last
/// restart, the coefficients by component and block, and the error that
/// stopped the scan, if one did.
pub ghost struct BandState {
    pub br: BitState,
    pub prev_dc: Seq<i32>,
    pub eobrun: int,
    pub since: int,
    pub coefs: Seq<Seq<Seq<i16>>>,
    pub err: Option<DecodeError>,
}

/// What is wrong with the parameters of a scan, if anything.
pub open spec fn scan_error(scan: Scan) -> Option<DecodeError> {
    if scan.ss > 63 || scan.se > 63 || scan.ss > scan.se {
        Some(DecodeError::Malformed("invalid SOS spectral selection"))
    } else if scan.ss == 0 && scan.se != 0 {
        Some(DecodeError::Malformed("DC scan must have Se == 0"))
    } else if scan.ss != 0 && scan.components.len() != 1 {
        Some(DecodeError::Malformed("progressive AC scan must be non-interleaved"))
    } else if scan.al > 13 || scan.ah > 13 {
        Some(DecodeError::Malformed("Ah/Al out of range"))
    } else if scan.ah != 0 && scan.al >= scan.ah {
        Some(DecodeError::Malformed("Al must be < Ah for refinement"))
    } else {
        None
    }
}

/// Before an MCU, a restart if one is due. It ends any end-of-band run.
pub open spec fn band_restart_if_due(ctx: BandContext, s: BandState) -> BandState {
    if s.err is None && ctx.interval > 0 && s.since == ctx.interval {
        let (br, err) = restart(ctx.src, s.br);
        if err is Some {
            BandState { br, err, ..s }
        } else {
            BandState { br, prev_dc: seq![0i32, 0i32, 0i32, 0i32], eobrun: 0, since: 0, ..s }
        }
    } else {
        s
    }
}

/// Decodes the DC coefficient `dc` of a block of component `i`, by the DC
/// table in slot `table`.
pub open spec fn dc_coefficient(ctx: BandContext, s: BandState, i: int, table: int, dc: i16) -> (BandState, i16) {
    if ctx.scan.ah == 0 {
        match slot(ctx.dc, table) {
            None => (
                BandState { err: Some(DecodeError::Malformed("scan refers to undefined DC table")), ..s },
                dc,
            ),
            Some(book) => {
                let (br, prev, v, err) = dc_first(
                    ctx.src,
                    s.br,
                    book,
                    s.prev_dc[i] as int,
                    ctx.scan.al as int,
                    dc,
                );
                (BandState { br, prev_dc: s.prev_dc.update(i, prev as i32), err, ..s }, v)
            },
        }
    } else {
        let (br, v, err) = dc_refine(ctx.src, s.br, ctx.scan.al, dc);
        (BandState { br, err, ..s }, v)
    }
}

/// One block of a DC scan of component `i`. A block that pads the MCU past
/// the blocks of the component is decoded, and then dropped.
pub open spec fn dc_block_step(ctx: BandContext, s: BandState, i: int, table: int, bx: int, by: int) -> BandState {
    if s.err is Some {
        s
    } else if bx >= ctx.frame.blocks_x(i) || by >= ctx.frame.blocks_y(i) {
        dc_coefficient(ctx, s, i, table, 0).0
    } else {
        let at = by * ctx.frame.blocks_x(i) + bx;
        let (t, v) = dc_coefficient(ctx, s, i, table, s.coefs[i][at][0]);
        BandState { coefs: t.coefs.update(i, t.coefs[i].update(at, t.coefs[i][at].update(0, v))), ..t }
    }
}

/// Blocks per MCU of a component across and down.
pub open spec fn mcu_shape(ctx: BandContext, i: int) -> (int, int) {
    if ctx.scan.components.len() == 1 {
        (1, 1)
    } else {
        (ctx.frame.components[i].h as int, ctx.frame.components[i].v as int)
    }
}

/// The first `n` blocks of component `i` in a MCU of a DC scan.
pub open spec fn dc_blocks(ctx: BandContext, s: BandState, i: int, table: int, mx: int, my: int, n: nat) -> BandState
    decreases n,
{
    if n == 0 {
        s
    } else {
        let t = dc_blocks(ctx, s, i, table, mx, my, (n - 1) as nat);
        let (h, v) = mcu_shape(ctx, i);
        dc_block_step(ctx, t, i, table, mx * h + (n - 1) % h, my * v + (n - 1) / h)
    }
}

/// Index of the component of entry `e` of the scan.
pub open spec fn entry_component(ctx: BandContext, e: int) -> Option<int> {
    find_component_from(ctx.frame.components, ctx.scan.components[e].component_id, 0)
}

/// The first `n` entries of the scan in a MCU of a DC scan.
pub open spec fn dc_entries(ctx: BandContext, s: BandState, mx: int, my: int, n: nat) -> BandState
    decreases n,
{
    if n == 0 {
        s
    } else {
        let t = dc_entries(ctx, s, mx, my, (n - 1) as nat);
        let i = entry_component(ctx, n - 1)->0;
        let (h, v) = mcu_shape(ctx, i);
        dc_blocks(ctx, t, i, ctx.scan.components[n - 1].dc_table as int, mx, my, (h * v) as nat)
    }
}

/// Number of MCUs in a row and number of rows of MCUs of a DC scan.
pub open spec fn dc_grid(ctx: BandContext) -> (int, int) {
    if ctx.scan.components.len() == 1 {
        let i = entry_component(ctx, 0)->0;
        (ctx.frame.blocks_x(i), ctx.frame.blocks_y(i))
    } else {
        (ctx.frame.mcus_x(), ctx.frame.mcus_y())
    }
}

/// The first `n` MCUs of a DC scan.
pub open spec fn dc_mcus(ctx: BandContext, s: BandState, n: nat) -> BandState
    decreases n,
{
    if n == 0 {
        s
    } else {
        let t = dc_mcus(ctx, s, (n - 1) as nat);
        if t.err is Some {
            t
        } else {
            let w = dc_grid(ctx).0;
            let u = dc_entries(
                ctx,
                band_restart_if_due(ctx, t),
                (n - 1) % w,
                (n - 1) / w,
                ctx.scan.components.len(),
            );
            if u.err is Some {
                u
            } else {
                BandState { since: u.since + 1, ..u }
            }
        }
    }
}

/// One block of an AC scan of component `i`.
pub open spec fn ac_block_step(ctx: BandContext, s: BandState, i: int, book: CodeBook, at: int) -> BandState {
    if s.err is Some {
        s
    } else {
        let b = BandBlock { br: s.br, eobrun: s.eobrun, coef: s.coefs[i][at], err: None };
        let r = if ctx.scan.ah == 0 {
            ac_first(ctx.src, b, book, ctx.scan.ss as int, ctx.scan.se as int, ctx.scan.al as int)
        } else {
            ac_refine(ctx.src, b, book, ctx.scan.ss as int, ctx.scan.se as int, ctx.scan.al as int)
        };
        BandState {
            br: r.br,
            eobrun: r.eobrun,
            coefs: s.coefs.update(i, s.coefs[i].update(at, r.coef)),
            err: r.err,
            ..s
        }
    }
}

/// The first `n` blocks of an AC scan of component `i`.
pub open spec fn ac_blocks(ctx: BandContext, s: BandState, i: int, book: CodeBook, n: nat) -> BandState
    decreases n,
{
    if n == 0 {
        s
    } else {
        let t = ac_blocks(ctx, s, i, book, (n - 1) as nat);
        if t.err is Some {
            t
        } else {
            let u = ac_block_step(ctx, band_restart_if_due(ctx, t), i, book, n - 1);
            if u.err is Some {
                u
            } else {
                BandState { since: u.since + 1, ..u }
            }
        }
    }
}

/// Some entry of the scan refers to no component of the frame.
pub open spec fn has_unknown_component(ctx: BandContext) -> bool {
    exists|e: int| 0 <= e < ctx.scan.components.len() && #[trigger] entry_component(ctx, e) is None
}

/// A whole progressive scan from byte `start` on.
#[verifier::opaque]
pub open spec fn progressive_scan(ctx: BandContext, start: int, coefs: Seq<Seq<Seq<i16>>>) -> BandState {
    let s = BandState {
        br: BitState { pos: start, buf: 0, nbits: 0, marker: None },
        prev_dc: seq![0i32, 0i32, 0i32, 0i32],
        eobrun: 0,
        since: 0,
        coefs,
        err: None,
    };
    if scan_error(ctx.scan) is Some {
        BandState { err: scan_error(ctx.scan), ..s }
    } else if has_unknown_component(ctx) {
        BandState { err: Some(DecodeError::Malformed("scan refers to unknown component")), ..s }
    } else if ctx.scan.ss == 0 {
        let (w, h) = dc_grid(ctx);
        dc_mcus(ctx, s, (w * h) as nat)
    } else {
        let i = entry_component(ctx, 0)->0;
        match slot(ctx.ac, ctx.scan.components[0].ac_table as int) {
            None => BandState {
                err: Some(DecodeError::Malformed("scan refers to undefined AC table")),
                ..s
            },
            Some(book) => ac_blocks(
                ctx,
                s,
                i,
                book,
                (ctx.frame.blocks_x(i) * ctx.frame.blocks_y(i)) as nat,
            ),
        }
    }
}

/// The coefficients of one component, block by block.
struct CoeffComponent {
    component: Component,
    blocks_x: usize,
    blocks_y: usize,
    /// Blocks in raster order, each in zig-zag order.
    blocks: Vec<[i16; 64]>,
}

impl CoeffComponent {
    /// The coefficients of all blocks.
    spec fn model(&self) -> Seq<Seq<i16>> {
        self.blocks@.map_values(|b: [i16; 64]| b@)
    }

    /// The grid has the measures of component `i` of the frame.
    spec fn fits(&self, frame: Frame, i: int) -> bool {
        &&& self.component == frame.components[i]
        &&& self.blocks_x == frame.blocks_x(i)
        &&& self.blocks_y == frame.blocks_y(i)
        &&& self.blocks@.len() == frame.blocks_x(i) * frame.blocks_y(i)
    }

    /// Replaces the block at index `at`.
    fn set_block(&mut self, at: usize, coef: [i16; 64])
        requires
            at < old(self).blocks@.len(),
        ensures
            final(self).component == old(self).component,
            final(self).blocks_x == old(self).blocks_x,
            final(self).blocks_y == old(self).blocks_y,
            final(self).blocks@.len() == old(self).blocks@.len(),
            final(self).model() == old(self).model().update(at as int, coef@),
    {
        self.blocks[at] = coef;
        assert(self.model() =~= old(self).model().update(at as int, coef@));
    }
}

/// The coefficients of all components.
spec fn all_coefs(comps: Seq<CoeffComponent>) -> Seq<Seq<Seq<i16>>> {
    comps.map_values(|c: CoeffComponent| c.model())
}

/// There is a grid for every component of the frame, with its measures.
spec fn comps_fit(comps: Seq<CoeffComponent>, frame: Frame) -> bool {
    &&& comps.len() == frame.components.len()
    &&& forall|i: int| 0 <= i < comps.len() ==> (#[trigger] comps[i]).fits(frame, i)
}

/// Coefficient grids of a frame before the first scan.
pub open spec fn blank_coefs(frame: Frame) -> Seq<Seq<Seq<i16>>> {
    Seq::new(
        frame.components.len(),
        |i: int|
            Seq::new(
                (frame.blocks_x(i) * frame.blocks_y(i)) as nat,
                |b: int| Seq::new(64, |k: int| 0i16),
            ),
    )
}

/// Size of a component's grid.
proof fn lemma_grid(frame: Frame, i: int)
    requires
        frame.wf(),
        0 <= i < frame.components.len(),
    ensures
        1 <= frame.blocks_x(i) <= 8192,
        1 <= frame.blocks_y(i) <= 8192,
        1 <= frame.blocks_x(i) * frame.blocks_y(i) <= 8192 * 8192,
        frame.width * frame.components[i].h <= 16384 * 4,
        frame.height * frame.components[i].v <= 16384 * 4,
{
    lemma_geometry(frame, i);
    let c = frame.components[i];
    let wx = frame.mcus_x();
    let wy = frame.mcus_y();
    let h = c.h as int;
    let v = c.v as int;
    let w = frame.width as int;
    let t = frame.height as int;
    assert(wx * h <= 8192 && wy * v <= 8192 && w * h <= 16384 * 4 && t * v <= 16384 * 4) by (nonlinear_arith)
        requires
            0 <= wx <= 2048,
            0 <= wy <= 2048,
            0 <= w <= 16384,
            0 <= t <= 16384,
            0 < h <= 4,
            0 < v <= 4,
    ;
    let bx = frame.blocks_x(i);
    let by = frame.blocks_y(i);
    assert(1 <= bx * by <= 8192 * 8192) by (nonlinear_arith)
        requires
            1 <= bx <= 8192,
            1 <= by <= 8192,
    ;
}

/// Allocates cleared coefficient grids.
fn allocate_coefs(frame: &FrameHeader) -> (comps: Vec<CoeffComponent>)
    requires
        frame@.wf(),
    ensures
        comps_fit(comps@, frame@),
        all_coefs(comps@) == blank_coefs(frame@),
{
    proof {
        lemma_geometry(frame@, 0);
    }
    let h_max: u32 = frame.h_max() as u32;
    let v_max: u32 = frame.v_max() as u32;
    let mut comps: Vec<CoeffComponent> = Vec::new();
    let n: usize = frame.components.len();
    for i in 0..n
        invariant
            n == frame.components@.len(),
            frame@.wf(),
            h_max == frame@.h_max(),
            v_max == frame@.v_max(),
            1 <= h_max <= 4,
            1 <= v_max <= 4,
            comps@.len() == i,
            forall|k: int| 0 <= k < i ==> (#[trigger] comps@[k]).fits(frame@, k),
            forall|k: int| 0 <= k < i ==> (#[trigger] comps@[k]).model() == blank_coefs(frame@)[k],
    {
        let component = frame.components[i];
        proof {
            lemma_grid(frame@, i as int);
        }
        let blocks_x: usize = div_up(frame.width as u32 * component.h as u32, h_max * 8) as usize;
        let blocks_y: usize = div_up(frame.height as u32 * component.v as u32, v_max * 8) as usize;
        let total: usize = blocks_x * blocks_y;
        let mut blocks: Vec<[i16; 64]> = Vec::new();
        for b in 0..total
            invariant
                blocks@.len() == b,
                forall|k: int| 0 <= k < b ==> (#[trigger] blocks@[k])@ == Seq::new(64, |j: int| 0i16),
        {
            let zero: [i16; 64] = [0i16; 64];
            assert(zero@ =~= Seq::new(64, |j: int| 0i16));
            blocks.push(zero);
        }
        let c = CoeffComponent { component, blocks_x, blocks_y, blocks };
        assert(c.model() =~= blank_coefs(frame@)[i as int]);
        comps.push(c);
    }
    assert(all_coefs(comps@) =~= blank_coefs(frame@));
    comps
}

/// Discards everything up to the restart marker that is due, consumes it,
/// resets the DC predictors and ends the end-of-band run.
fn handle_restart(br: &mut BitReader, prev_dc: &mut [i32; 4], eobrun: &mut u32) -> (r: Result<()>)
    requires
        old(br).inv(),
    ensures
        final(br).inv(),
        final(br).data() == old(br).data(),
        ({
            let (s, err) = restart(old(br).data(), old(br)@);
            &&& final(br)@ == s
            &&& match err {
                Some(e) => r == Err::<(), DecodeError>(e) && final(prev_dc)@ == old(prev_dc)@ && *final(eobrun)
                    == *old(eobrun),
                None => r == Ok::<(), DecodeError>(()) && final(prev_dc)@ == seq![0i32, 0i32, 0i32, 0i32]
                    && *final(eobrun) == 0,
            }
        }),
{
    let mut expected: u8 = 0;
    match super::baseline::handle_restart(br, prev_dc, &mut expected) {
        Ok(_) => {},
        Err(e) => {
            return Err(e);
        },
    }
    *eobrun = 0;
    Ok(())
}

/// The reader and the counters of a progressive scan.
struct BandReader<'a> {
    br: BitReader<'a>,
    prev_dc: [i32; 4],
    eobrun: u32,
    since: u32,
}

impl<'a> BandReader<'a> {
    /// The state of a scan, with coefficients `coefs`.
    spec fn state(&self, coefs: Seq<Seq<Seq<i16>>>) -> BandState {
        BandState {
            br: self.br@,
            prev_dc: self.prev_dc@,
            eobrun: self.eobrun as int,
            since: self.since as int,
            coefs,
            err: None,
        }
    }

    /// The state matches `s`, but for an error.
    spec fn matches(&self, s: BandState) -> bool {
        &&& self.br@ == s.br
        &&& self.prev_dc@ == s.prev_dc
        &&& self.eobrun == s.eobrun
        &&& self.since == s.since
    }

    /// The reader is in order and reads `src`.
    spec fn reads(&self, src: Seq<u8>) -> bool {
        &&& self.br.inv()
        &&& self.br.data() == src
    }

    /// Restarts if a restart is due.
    fn restart_when_due(
        &mut self,
        interval: u32,
        Ghost(ctx): Ghost<BandContext>,
        Ghost(coefs): Ghost<Seq<Seq<Seq<i16>>>>,
    ) -> (r: Result<()>)
        requires
            old(self).reads(ctx.src),
            ctx.interval == interval,
        ensures
            final(self).reads(ctx.src),
            ({
                let t = band_restart_if_due(ctx, old(self).state(coefs));
                &&& final(self).matches(t)
                &&& t.coefs == coefs
                &&& t.since <= old(self).since
                &&& r == match t.err {
                    Some(e) => Err(e),
                    None => Ok(()),
                }
            }),
    {
        if interval > 0 && self.since == interval {
            match handle_restart(&mut self.br, &mut self.prev_dc, &mut self.eobrun) {
                Ok(_) => {},
                Err(e) => {
                    return Err(e);
                },
            }
            self.since = 0;
        }
        Ok(())
    }

    /// Decodes the DC coefficient of one block of component `i`.
    fn dc_coefficient(
        &mut self,
        scan: &ScanHeader,
        dc_tables: &[Option<DcTablePair>; 4],
        i: usize,
        table: u8,
        coef: &mut [i16; 64],
        Ghost(ctx): Ghost<BandContext>,
        Ghost(coefs): Ghost<Seq<Seq<Seq<i16>>>>,
    ) -> (r: Result<()>)
        requires
            old(self).reads(ctx.src),
            ctx.scan == scan@,
            ctx.scan.al <= 13,
            dc_slots_wf(dc_tables@),
            dc_books(dc_tables@) == ctx.dc,
            i < 4,
        ensures
            final(self).reads(ctx.src),
            ({
                let (t, v) = dc_coefficient(
                    ctx,
                    old(self).state(coefs),
                    i as int,
                    table as int,
                    old(coef)@[0],
                );
                &&& final(self).matches(t)
                &&& t.coefs == coefs
                &&& final(coef)@ == old(coef)@.update(0, v)
                &&& r == match t.err {
                    Some(e) => Err(e),
                    None => Ok(()),
                }
            }),
    {
        assert(coef@ =~= coef@.update(0, coef@[0]));
        if scan.ah == 0 {
            if table > 3 {
                return Err(DecodeError::Malformed("scan refers to undefined DC table"));
            }
            assert(ctx.dc[table as int] == dc_books(dc_tables@)[table as int]);
            let pair = match &dc_tables[table as usize] {
                Some(p) => p,
                None => {
                    return Err(DecodeError::Malformed("scan refers to undefined DC table"));
                },
            };
            let mut prev: i32 = self.prev_dc[i];
            let ghost before = self.prev_dc@;
            let done = decode_dc_first_block(&mut self.br, &pair.slow, &mut prev, scan.al, coef);
            self.prev_dc[i] = prev;
            done
        } else {
            decode_dc_refine_block(&mut self.br, scan.al, coef)
        }
    }

    /// Decodes one block of a DC scan of component `i`.
    fn dc_block(
        &mut self,
        scan: &ScanHeader,
        dc_tables: &[Option<DcTablePair>; 4],
        comps: &mut [CoeffComponent],
        i: usize,
        table: u8,
        bx: usize,
        by: usize,
        Ghost(ctx): Ghost<BandContext>,
    ) -> (r: Result<()>)
        requires
            old(self).reads(ctx.src),
            ctx.scan == scan@,
            ctx.scan.al <= 13,
            dc_slots_wf(dc_tables@),
            dc_books(dc_tables@) == ctx.dc,
            ctx.frame.wf(),
            comps_fit(old(comps)@, ctx.frame),
            i < ctx.frame.components.len(),
        ensures
            final(self).reads(ctx.src),
            comps_fit(final(comps)@, ctx.frame),
            ({
                let t = dc_block_step(
                    ctx,
                    old(self).state(all_coefs(old(comps)@)),
                    i as int,
                    table as int,
                    bx as int,
                    by as int,
                );
                &&& final(self).matches(t)
                &&& all_coefs(final(comps)@) == t.coefs
                &&& t.since == old(self).since
                &&& r == match t.err {
                    Some(e) => Err(e),
                    None => Ok(()),
                }
            }),
    {
        let ghost coefs = all_coefs(comps@);
        proof {
            lemma_grid(ctx.frame, i as int);
            assert(comps@[i as int].fits(ctx.frame, i as int));
        }
        if bx >= comps[i].blocks_x || by >= comps[i].blocks_y {
            let mut dummy: [i16; 64] = [0i16; 64];
            return self.dc_coefficient(scan, dc_tables, i, table, &mut dummy, Ghost(ctx), Ghost(coefs));
        }
        proof {
            let w = ctx.frame.blocks_x(i as int);
            let h = ctx.frame.blocks_y(i as int);
            assert(0 <= by * w + bx < w * h && 0 <= by * w) by (nonlinear_arith)
                requires
                    0 <= bx < w,
                    0 <= by < h,
            ;
        }
        let at: usize = by * comps[i].blocks_x + bx;
        let mut coef: [i16; 64] = comps[i].blocks[at];
        let ghost before = comps@;
        assert(coefs[i as int][at as int] == coef@);
        let done = self.dc_coefficient(scan, dc_tables, i, table, &mut coef, Ghost(ctx), Ghost(coefs));
        comps[i].set_block(at, coef);
        proof {
            assert(all_coefs(comps@) =~= coefs.update(
                i as int,
                coefs[i as int].update(at as int, coef@),
            ));
            assert forall|k: int| 0 <= k < comps@.len() implies (#[trigger] comps@[k]).fits(ctx.frame, k) by {
                assert(before[k].fits(ctx.frame, k));
            }
        }
        done
    }

    /// Decodes one block of an AC scan of component `i`.
    fn ac_block(
        &mut self,
        scan: &ScanHeader,
        ac_tbl: &HuffmanDecodeTable,
        comps: &mut [CoeffComponent],
        i: usize,
        at: usize,
        Ghost(ctx): Ghost<BandContext>,
    ) -> (r: Result<()>)
        requires
            old(self).reads(ctx.src),
            ctx.scan == scan@,
            scan_error(ctx.scan) is None,
            ac_tbl.wf(),
            ctx.frame.wf(),
            comps_fit(old(comps)@, ctx.frame),
            i < ctx.frame.components.len(),
            at < ctx.frame.blocks_x(i as int) * ctx.frame.blocks_y(i as int),
        ensures
            final(self).reads(ctx.src),
            comps_fit(final(comps)@, ctx.frame),
            ({
                let t = ac_block_step(
                    ctx,
                    old(self).state(all_coefs(old(comps)@)),
                    i as int,
                    ac_tbl.book(),
                    at as int,
                );
                &&& final(self).matches(t)
                &&& all_coefs(final(comps)@) == t.coefs
                &&& t.since == old(self).since
                &&& r == match t.err {
                    Some(e) => Err(e),
                    None => Ok(()),
                }
            }),
    {
        let ghost coefs = all_coefs(comps@);
        assert(comps@[i as int].fits(ctx.frame, i as int));
        let mut coef: [i16; 64] = comps[i].blocks[at];
        let ghost before = comps@;
        assert(coefs[i as int][at as int] == coef@);
        let done = if scan.ah == 0 {
            decode_ac_first_block(
                &mut self.br,
                ac_tbl,
                scan.ss,
                scan.se,
                scan.al,
                &mut self.eobrun,
                &mut coef,
            )
        } else {
            decode_ac_refine_block(
                &mut self.br,
                ac_tbl,
                scan.ss,
                scan.se,
                scan.al,
                &mut self.eobrun,
                &mut coef,
            )
        };
        comps[i].set_block(at, coef);
        proof {
            assert(all_coefs(comps@) =~= coefs.update(
                i as int,
                coefs[i as int].update(at as int, coef@),
            ));
            assert forall|k: int| 0 <= k < comps@.len() implies (#[trigger] comps@[k]).fits(ctx.frame, k) by {
                assert(before[k].fits(ctx.frame, k));
            }
        }
        done
    }
}

fn validate_scan(scan: &ScanHeader) -> (r: Result<()>)
    ensures
        r == match scan_error(scan@) {
            Some(e) => Err(e),
            None => Ok(()),
        },
{
    if scan.ss > 63 || scan.se > 63 || scan.ss > scan.se {
        return Err(DecodeError::Malformed("invalid SOS spectral selection"));
    }
    if scan.ss == 0 && scan.se != 0 {
        return Err(DecodeError::Malformed("DC scan must have Se == 0"));
    }
    if scan.ss != 0 && scan.components.len() != 1 {
        return Err(DecodeError::Malformed("progressive AC scan must be non-interleaved"));
    }
    if scan.al > 13 || scan.ah > 13 {
        return Err(DecodeError::Malformed("Ah/Al out of range"));
    }
    if scan.ah != 0 && scan.al >= scan.ah {
        return Err(DecodeError::Malformed("Al must be < Ah for refinement"));
    }
    Ok(())
}

/// A component's part in the MCUs of a DC scan.
struct McuEntry {
    comp_idx: usize,
    dc_table: u8,
    h_blocks: usize,
    v_blocks: usize,
}

/// The MCUs of a DC scan.
struct McuLayout {
    mcus_x: usize,
    mcus_y: usize,
    entries: Vec<McuEntry>,
}

impl McuLayout {
    /// The layout is that of the scan.
    spec fn fits(&self, ctx: BandContext) -> bool {
        &&& self.mcus_x == dc_grid(ctx).0
        &&& self.mcus_y == dc_grid(ctx).1
        &&& self.entries@.len() == ctx.scan.components.len()
        &&& forall|e: int|
            0 <= e < self.entries@.len() ==> entry_fits(#[trigger] self.entries@[e], ctx, e)
    }
}

/// An entry of the layout is that of the scan.
spec fn entry_fits(entry: McuEntry, ctx: BandContext, e: int) -> bool {
    &&& entry_component(ctx, e) == Some(entry.comp_idx as int)
    &&& entry.comp_idx < ctx.frame.components.len()
    &&& entry.dc_table == ctx.scan.components[e].dc_table
    &&& entry.h_blocks == mcu_shape(ctx, entry.comp_idx as int).0
    &&& entry.v_blocks == mcu_shape(ctx, entry.comp_idx as int).1
}

fn interleaved_mcu_layout(
    scan: &ScanHeader,
    frame: &FrameHeader,
    comps: &[CoeffComponent],
    Ghost(ctx): Ghost<BandContext>,
) -> (r: Result<McuLayout>)
    requires
        ctx.frame == frame@,
        ctx.scan == scan@,
        frame@.wf(),
        comps_fit(comps@, frame@),
        1 <= scan@.components.len(),
    ensures
        if has_unknown_component(ctx) {
            r == Err::<McuLayout, DecodeError>(DecodeError::Malformed("scan refers to unknown component"))
        } else {
            r matches Ok(l) && l.fits(ctx)
        },
{
    let mut entries: Vec<McuEntry> = Vec::new();
    let n: usize = scan.components.len();
    for e in 0..n
        invariant
            ctx.frame == frame@,
            ctx.scan == scan@,
            n == scan@.components.len(),
            frame@.wf(),
            entries@.len() == e,
            forall|k: int| 0 <= k < e ==> entry_fits(#[trigger] entries@[k], ctx, k),
    {
        let sc = scan.components[e];
        let (comp_idx, comp) = match find_component(frame, sc.component_id) {
            Ok(t) => t,
            Err(err) => {
                assert(entry_component(ctx, e as int) is None);
                return Err(err);
            },
        };
        let (h_blocks, v_blocks): (usize, usize) = if n == 1 {
            (1, 1)
        } else {
            (comp.h as usize, comp.v as usize)
        };
        entries.push(McuEntry { comp_idx, dc_table: sc.dc_table, h_blocks, v_blocks });
    }
    proof {
        assert forall|e: int| 0 <= e < n implies !(#[trigger] entry_component(ctx, e) is None) by {
            assert(entry_fits(entries@[e], ctx, e));
        }
        lemma_geometry(frame@, 0);
    }
    let (mcus_x, mcus_y): (usize, usize) = if n == 1 {
        let i = entries[0].comp_idx;
        assert(entry_fits(entries@[0], ctx, 0));
        assert(comps@[i as int].fits(frame@, i as int));
        (comps[i].blocks_x, comps[i].blocks_y)
    } else {
        let h_max: u32 = frame.h_max() as u32;
        let v_max: u32 = frame.v_max() as u32;
        (
            div_up(frame.width as u32, h_max * 8) as usize,
            div_up(frame.height as u32, v_max * 8) as usize,
        )
    };
    Ok(McuLayout { mcus_x, mcus_y, entries })
}

/// An error stops the blocks of a DC scan entry.
proof fn lemma_dc_blocks_stop(ctx: BandContext, s: BandState, i: int, table: int, mx: int, my: int, a: nat, b: nat)
    requires
        a <= b,
        dc_blocks(ctx, s, i, table, mx, my, a).err is Some,
    ensures
        dc_blocks(ctx, s, i, table, mx, my, b) == dc_blocks(ctx, s, i, table, mx, my, a),
    decreases b,
{
    if a < b {
        lemma_dc_blocks_stop(ctx, s, i, table, mx, my, a, (b - 1) as nat);
    }
}

/// An error stops the entries of a MCU of a DC scan.
proof fn lemma_dc_entries_stop(ctx: BandContext, s: BandState, mx: int, my: int, a: nat, b: nat)
    requires
        a <= b,
        dc_entries(ctx, s, mx, my, a).err is Some,
    ensures
        dc_entries(ctx, s, mx, my, b) == dc_entries(ctx, s, mx, my, a),
    decreases b,
{
    if a < b {
        lemma_dc_entries_stop(ctx, s, mx, my, a, (b - 1) as nat);
        let t = dc_entries(ctx, s, mx, my, (b - 1) as nat);
        let i = entry_component(ctx, b - 1)->0;
        let (h, v) = mcu_shape(ctx, i);
        lemma_dc_blocks_stop(
            ctx,
            t,
            i,
            ctx.scan.components[b - 1].dc_table as int,
            mx,
            my,
            0,
            (h * v) as nat,
        );
    }
}

/// An error stops the MCUs of a DC scan.
proof fn lemma_dc_mcus_stop(ctx: BandContext, s: BandState, a: nat, b: nat)
    requires
        a <= b,
        dc_mcus(ctx, s, a).err is Some,
    ensures
        dc_mcus(ctx, s, b) == dc_mcus(ctx, s, a),
    decreases b,
{
    if a < b {
        lemma_dc_mcus_stop(ctx, s, a, (b - 1) as nat);
    }
}

/// An error stops the blocks of an AC scan.
proof fn lemma_ac_blocks_stop(ctx: BandContext, s: BandState, i: int, book: CodeBook, a: nat, b: nat)
    requires
        a <= b,
        ac_blocks(ctx, s, i, book, a).err is Some,
    ensures
        ac_blocks(ctx, s, i, book, b) == ac_blocks(ctx, s, i, book, a),
    decreases b,
{
    if a < b {
        lemma_ac_blocks_stop(ctx, s, i, book, a, (b - 1) as nat);
    }
}

/// Decodes one MCU of a DC scan.
fn decode_dc_mcu(
    rd: &mut BandReader,
    scan: &ScanHeader,
    layout: &McuLayout,
    dc_tables: &[Option<DcTablePair>; 4],
    comps: &mut [CoeffComponent],
    mx: usize,
    my: usize,
    Ghost(ctx): Ghost<BandContext>,
) -> (r: Result<()>)
    requires
        old(rd).reads(ctx.src),
        ctx.scan == scan@,
        ctx.scan.al <= 13,
        layout.fits(ctx),
        dc_slots_wf(dc_tables@),
        dc_books(dc_tables@) == ctx.dc,
        ctx.frame.wf(),
        comps_fit(old(comps)@, ctx.frame),
        mx <= 8192,
        my <= 8192,
    ensures
        final(rd).reads(ctx.src),
        comps_fit(final(comps)@, ctx.frame),
        ({
            let t = dc_entries(
                ctx,
                old(rd).state(all_coefs(old(comps)@)),
                mx as int,
                my as int,
                ctx.scan.components.len(),
            );
            &&& final(rd).matches(t)
            &&& all_coefs(final(comps)@) == t.coefs
            &&& t.since == old(rd).since
            &&& r == match t.err {
                Some(e) => Err(e),
                None => Ok(()),
            }
        }),
{
    let ghost s = rd.state(all_coefs(comps@));
    let n: usize = layout.entries.len();
    let ghost target = dc_entries(ctx, s, mx as int, my as int, n as nat);
    for e in 0..n
        invariant
            rd.reads(ctx.src),
            ctx.scan == scan@,
            ctx.scan.al <= 13,
            layout.fits(ctx),
            n == layout.entries@.len(),
            dc_slots_wf(dc_tables@),
            dc_books(dc_tables@) == ctx.dc,
            ctx.frame.wf(),
            comps_fit(comps@, ctx.frame),
            mx <= 8192,
            my <= 8192,
            s == old(rd).state(all_coefs(old(comps)@)),
            target == dc_entries(ctx, s, mx as int, my as int, n as nat),
            ({
                let t = dc_entries(ctx, s, mx as int, my as int, e as nat);
                &&& rd.state(all_coefs(comps@)) == t
                &&& t.since == s.since
            }),
    {
        let entry = &layout.entries[e];
        assert(entry_fits(*entry, ctx, e as int));
        let i = entry.comp_idx;
        let h = entry.h_blocks;
        let v = entry.v_blocks;
        let ghost t0 = dc_entries(ctx, s, mx as int, my as int, e as nat);
        let ghost next = dc_entries(ctx, s, mx as int, my as int, (e + 1) as nat);
        proof {
            lemma_geometry(ctx.frame, i as int);
            assert(h * v <= 16) by (nonlinear_arith)
                requires
                    h <= 4,
                    v <= 4,
            ;
            assert(next == dc_blocks(
                ctx,
                t0,
                i as int,
                entry.dc_table as int,
                mx as int,
                my as int,
                (h * v) as nat,
            ));
            if next.err is Some {
                lemma_dc_entries_stop(ctx, s, mx as int, my as int, (e + 1) as nat, n as nat);
            }
        }
        let count: usize = h * v;
        for b in 0..count
            invariant
                rd.reads(ctx.src),
                ctx.scan == scan@,
                ctx.scan.al <= 13,
                dc_slots_wf(dc_tables@),
                dc_books(dc_tables@) == ctx.dc,
                ctx.frame.wf(),
                comps_fit(comps@, ctx.frame),
                mx <= 8192,
                my <= 8192,
                1 <= h <= 4,
                1 <= v <= 4,
                (h as int, v as int) == mcu_shape(ctx, i as int),
                i == entry.comp_idx,
                i < ctx.frame.components.len(),
                count == h * v,
                count <= 16,
                s == old(rd).state(all_coefs(old(comps)@)),
                target == dc_entries(ctx, s, mx as int, my as int, ctx.scan.components.len()),
                next == dc_blocks(
                    ctx,
                    t0,
                    i as int,
                    entry.dc_table as int,
                    mx as int,
                    my as int,
                    count as nat,
                ),
                next.err is Some ==> target == next,
                ({
                    let t = dc_blocks(ctx, t0, i as int, entry.dc_table as int, mx as int, my as int, b as nat);
                    &&& rd.state(all_coefs(comps@)) == t
                    &&& t.since == s.since
                }),
        {
            proof {
                let u = dc_blocks(
                    ctx,
                    t0,
                    i as int,
                    entry.dc_table as int,
                    mx as int,
                    my as int,
                    (b + 1) as nat,
                );
                if u.err is Some {
                    lemma_dc_blocks_stop(
                        ctx,
                        t0,
                        i as int,
                        entry.dc_table as int,
                        mx as int,
                        my as int,
                        (b + 1) as nat,
                        count as nat,
                    );
                }
                assert(mx * h <= 8192 * 4 && my * v <= 8192 * 4) by (nonlinear_arith)
                    requires
                        mx <= 8192,
                        my <= 8192,
                        h <= 4,
                        v <= 4,
                ;
            }
            let bx: usize = mx * h + b % h;
            let by: usize = my * v + b / h;
            match rd.dc_block(scan, dc_tables, comps, i, entry.dc_table, bx, by, Ghost(ctx)) {
                Ok(_) => {},
                Err(err) => {
                    return Err(err);
                },
            }
        }
    }
    Ok(())
}

/// Runs one progressive scan from byte `entropy_start` on. Returns the
/// position past the marker that ended the data, and that marker.
#[verifier::rlimit(60)]
#[verifier::spinoff_prover]
fn run_progressive_scan(
    src: &[u8],
    entropy_start: usize,
    frame: &FrameHeader,
    scan: &ScanHeader,
    dc_tables: &[Option<DcTablePair>; 4],
    ac_tables: &[Option<AcTablePair>; 4],
    restart_interval: u16,
    comps: &mut [CoeffComponent],
) -> (r: Result<(usize, Option<u8>)>)
    requires
        frame@.wf(),
        1 <= scan@.components.len() <= 4,
        dc_slots_wf(dc_tables@),
        ac_slots_wf(ac_tables@),
        comps_fit(old(comps)@, frame@),
    ensures
        comps_fit(final(comps)@, frame@),
        ({
            let ctx = BandContext {
                src: src@,
                frame: frame@,
                scan: scan@,
                interval: restart_interval as int,
                dc: dc_books(dc_tables@),
                ac: ac_books(ac_tables@),
            };
            let s = progressive_scan(ctx, entropy_start as int, all_coefs(old(comps)@));
            &&& all_coefs(final(comps)@) == s.coefs
            &&& match s.err {
                Some(e) => r == Err::<(usize, Option<u8>), DecodeError>(e),
                None => r matches Ok(p) && p.0 == s.br.pos && p.1 == s.br.marker,
            }
        }),
{
    reveal(progressive_scan);
    let ghost ctx = BandContext {
        src: src@,
        frame: frame@,
        scan: scan@,
        interval: restart_interval as int,
        dc: dc_books(dc_tables@),
        ac: ac_books(ac_tables@),
    };
    let ghost target = progressive_scan(ctx, entropy_start as int, all_coefs(comps@));
    match validate_scan(scan) {
        Ok(_) => {},
        Err(e) => {
            return Err(e);
        },
    }
    let mut rd = BandReader {
        br: BitReader::new(src, entropy_start),
        prev_dc: [0i32, 0i32, 0i32, 0i32],
        eobrun: 0,
        since: 0,
    };
    let ghost s0 = BandState {
        br: BitState { pos: entropy_start as int, buf: 0, nbits: 0, marker: None },
        prev_dc: seq![0i32, 0i32, 0i32, 0i32],
        eobrun: 0,
        since: 0,
        coefs: all_coefs(comps@),
        err: None,
    };
    assert(rd.prev_dc@ =~= s0.prev_dc);
    let interval: u32 = restart_interval as u32;
    let layout = match interleaved_mcu_layout(scan, frame, comps, Ghost(ctx)) {
        Ok(l) => l,
        Err(e) => {
            return Err(e);
        },
    };
    proof {
        lemma_geometry(frame@, 0);
        assert(entry_fits(layout.entries@[0], ctx, 0));
        lemma_grid(frame@, layout.entries@[0].comp_idx as int);
    }
    if scan.ss == 0 {
        let w: usize = layout.mcus_x;
        let h: usize = layout.mcus_y;
        assert(w * h <= 8192 * 8192) by (nonlinear_arith)
            requires
                w <= 8192,
                h <= 8192,
        ;
        let total: usize = w * h;
        for m in 0..total
            invariant
                rd.reads(ctx.src),
                ctx.frame == frame@,
                ctx.scan == scan@,
                ctx.scan.al <= 13,
                ctx.interval == interval,
                interval == restart_interval,
                layout.fits(ctx),
                dc_slots_wf(dc_tables@),
                dc_books(dc_tables@) == ctx.dc,
                ctx.frame.wf(),
                comps_fit(comps@, ctx.frame),
                (w as int, h as int) == dc_grid(ctx),
                1 <= w <= 8192,
                1 <= h <= 8192,
                total == w * h,
                total <= 8192 * 8192,
                target == dc_mcus(ctx, s0, total as nat),
                target == progressive_scan(ctx, entropy_start as int, all_coefs(old(comps)@)),
                ctx == (BandContext {
                    src: src@,
                    frame: frame@,
                    scan: scan@,
                    interval: restart_interval as int,
                    dc: dc_books(dc_tables@),
                    ac: ac_books(ac_tables@),
                }),
                rd.state(all_coefs(comps@)) == dc_mcus(ctx, s0, m as nat),
                rd.since <= m,
        {
            let ghost t = dc_mcus(ctx, s0, m as nat);
            let ghost t1 = band_restart_if_due(ctx, t);
            let ghost next = dc_mcus(ctx, s0, (m + 1) as nat);
            proof {
                if next.err is Some {
                    lemma_dc_mcus_stop(ctx, s0, (m + 1) as nat, total as nat);
                }
                if t1.err is Some {
                    lemma_dc_entries_stop(
                        ctx,
                        t1,
                        m as int % w as int,
                        m as int / w as int,
                        0,
                        ctx.scan.components.len(),
                    );
                }
                lemma_fundamental_div_mod(m as int, w as int);
                let q = m as int / w as int;
                assert(q < h) by (nonlinear_arith)
                    requires
                        m == w * q + m as int % w as int,
                        m as int % w as int >= 0,
                        m < w * h,
                        w > 0,
                ;
            }
            match rd.restart_when_due(interval, Ghost(ctx), Ghost(all_coefs(comps@))) {
                Ok(_) => {},
                Err(e) => {
                    return Err(e);
                },
            }
            let mx: usize = m % w;
            let my: usize = m / w;
            match decode_dc_mcu(&mut rd, scan, &layout, dc_tables, comps, mx, my, Ghost(ctx)) {
                Ok(_) => {},
                Err(e) => {
                    return Err(e);
                },
            }
            rd.since = rd.since + 1;
        }
    } else {
        let i = layout.entries[0].comp_idx;
        let sc = scan.components[0];
        if sc.ac_table > 3 {
            return Err(DecodeError::Malformed("scan refers to undefined AC table"));
        }
        assert(ctx.ac[sc.ac_table as int] == ac_books(ac_tables@)[sc.ac_table as int]);
        let pair = match &ac_tables[sc.ac_table as usize] {
            Some(p) => p,
            None => {
                return Err(DecodeError::Malformed("scan refers to undefined AC table"));
            },
        };
        let ghost book = pair.slow.book();
        assert(comps@[i as int].fits(frame@, i as int));
        let total: usize = comps[i].blocks_x * comps[i].blocks_y;
        for b in 0..total
            invariant
                rd.reads(ctx.src),
                ctx.frame == frame@,
                ctx.scan == scan@,
                scan_error(ctx.scan) is None,
                ctx.interval == interval,
                interval == restart_interval,
                pair.slow.wf(),
                book == pair.slow.book(),
                ctx.frame.wf(),
                comps_fit(comps@, ctx.frame),
                i < ctx.frame.components.len(),
                total == ctx.frame.blocks_x(i as int) * ctx.frame.blocks_y(i as int),
                total <= 8192 * 8192,
                target == ac_blocks(ctx, s0, i as int, book, total as nat),
                target == progressive_scan(ctx, entropy_start as int, all_coefs(old(comps)@)),
                ctx == (BandContext {
                    src: src@,
                    frame: frame@,
                    scan: scan@,
                    interval: restart_interval as int,
                    dc: dc_books(dc_tables@),
                    ac: ac_books(ac_tables@),
                }),
                rd.state(all_coefs(comps@)) == ac_blocks(ctx, s0, i as int, book, b as nat),
                rd.since <= b,
        {
            let ghost t = ac_blocks(ctx, s0, i as int, book, b as nat);
            let ghost next = ac_blocks(ctx, s0, i as int, book, (b + 1) as nat);
            proof {
                if next.err is Some {
                    lemma_ac_blocks_stop(ctx, s0, i as int, book, (b + 1) as nat, total as nat);
                }
            }
            match rd.restart_when_due(interval, Ghost(ctx), Ghost(all_coefs(comps@))) {
                Ok(_) => {},
                Err(e) => {
                    return Err(e);
                },
            }
            match rd.ac_block(scan, &pair.slow, comps, i, b, Ghost(ctx)) {
                Ok(_) => {},
                Err(e) => {
                    return Err(e);
                },
            }
            rd.since = rd.since + 1;
        }
    }
    Ok((rd.br.pos(), rd.br.marker()))
}

/// Coefficients of a block in natural order, dequantized.
pub open spec fn natural_block(zz: Seq<i16>, qt: Seq<u16>) -> Seq<i16> {
    Seq::new(64, |i: int| dequantized(from_zigzag(zz)[i] as int, qt[i]))
}

/// Sample `k` of a plane with rows of `stride` samples, out of a grid of
/// `w` by `h` blocks of coefficients. Samples past the grid are zero.
pub open spec fn transformed_sample(
    blocks: Seq<Seq<i16>>,
    qt: Seq<u16>,
    w: int,
    h: int,
    stride: int,
    k: int,
) -> u8 {
    let x = k % stride;
    let y = k / stride;
    if x / 8 < w && y / 8 < h {
        idct_block(natural_block(blocks[(y / 8) * w + x / 8], qt))[8 * (y % 8) + x % 8]
    } else {
        0
    }
}

/// The samples of the first `n` components, out of their coefficients, or
/// the error for a component without quantization table.
pub open spec fn transformed_planes(
    frame: Frame,
    coefs: Seq<Seq<Seq<i16>>>,
    quant: Seq<Option<Seq<u16>>>,
    n: nat,
) -> std::result::Result<Seq<Seq<u8>>, DecodeError>
    decreases n,
{
    if n == 0 {
        Ok(Seq::empty())
    } else {
        match transformed_planes(frame, coefs, quant, (n - 1) as nat) {
            Err(e) => Err(e),
            Ok(done) => {
                let i = n - 1;
                match slot(quant, frame.components[i].qt as int) {
                    None => Err(
                        DecodeError::Malformed("frame component refers to undefined quant table"),
                    ),
                    Some(qt) => Ok(
                        done.push(
                            Seq::new(
                                (frame.stride(i) * frame.padded_height(i)) as nat,
                                |k: int|
                                    transformed_sample(
                                        coefs[i],
                                        qt,
                                        frame.blocks_x(i),
                                        frame.blocks_y(i),
                                        frame.stride(i),
                                        k,
                                    ),
                            ),
                        ),
                    ),
                }
            },
        }
    }
}

/// Dequantizes a block and puts it in natural order.
#[verifier::rlimit(40)]
#[verifier::spinoff_prover]
fn dequantize_block(zz: &[i16; 64], qt: &[u16; 64]) -> (nat_coef: [i16; 64])
    ensures
        nat_coef@ == natural_block(zz@, qt@),
{
    let mut nat_coef: [i16; 64] = [0i16; 64];
    for k in 0..64usize
        invariant
            forall|i: int|
                0 <= i < 64 && ZIGZAG_INVERSE[i] < k ==> #[trigger] nat_coef@[i] == natural_block(zz@, qt@)[i],
    {
        proof {
            law_zigzag_is_permutation(k as int);
        }
        let at = ZIGZAG[k];
        let q = qt[at];
        assert((q as i16) == (q + 32768) % 65536 - 32768) by (bit_vector);
        proof {
            lemma_wrap16_mul(zz@[k as int] as int, q as int);
            assert(wrap16(zz@[k as int] as int) == zz@[k as int]);
        }
        nat_coef[at] = mul16(zz[k], q as i16);
        assert(nat_coef@[at as int] == natural_block(zz@, qt@)[at as int]);
        assert forall|i: int| 0 <= i < 64 && ZIGZAG_INVERSE[i] < k + 1 implies #[trigger] nat_coef@[i]
            == natural_block(zz@, qt@)[i] by {
            law_zigzag_is_permutation(i);
        }
    }
    assert forall|i: int| 0 <= i < 64 implies #[trigger] nat_coef@[i] == natural_block(zz@, qt@)[i] by {
        law_zigzag_is_permutation(i);
    }
    assert(nat_coef@ =~= natural_block(zz@, qt@));
    nat_coef
}

/// Sample `k` comes from a block of a grid of `w` by `h` blocks before the
/// `n`-th.
spec fn from_earlier_block(w: int, h: int, stride: int, n: int, k: int) -> bool {
    let x = (k % stride) / 8;
    let y = (k / stride) / 8;
    &&& x < w
    &&& y < h
    &&& y * w + x < n
}

/// Transforms all blocks of a component into samples.
fn transform_component(
    frame: &FrameHeader,
    cc: &CoeffComponent,
    qt: &QuantTable,
    i: usize,
) -> (plane: DecodedPlane)
    requires
        frame@.wf(),
        i < frame@.components.len(),
        cc.fits(frame@, i as int),
    ensures
        plane.fits(frame@, i as int),
        plane.samples@ == Seq::new(
            (frame@.stride(i as int) * frame@.padded_height(i as int)) as nat,
            |k: int|
                transformed_sample(
                    cc.model(),
                    qt.values@,
                    frame@.blocks_x(i as int),
                    frame@.blocks_y(i as int),
                    frame@.stride(i as int),
                    k,
                ),
        ),
{
    let comp = cc.component;
    proof {
        lemma_geometry(frame@, i as int);
        lemma_grid(frame@, i as int);
        assert(frame@.mcus_x() * comp.h <= 2048 * 4 && frame@.mcus_y() * comp.v <= 2048 * 4) by (nonlinear_arith)
            requires
                0 <= frame@.mcus_x() <= 2048,
                0 <= frame@.mcus_y() <= 2048,
                comp.h <= 4,
                comp.v <= 4,
        ;
    }
    let h_max: u32 = frame.h_max() as u32;
    let v_max: u32 = frame.v_max() as u32;
    let mcus_x: usize = div_up(frame.width as u32, h_max * 8) as usize;
    let mcus_y: usize = div_up(frame.height as u32, v_max * 8) as usize;
    let plane_width: usize = div_up(frame.width as u32 * comp.h as u32, h_max) as usize;
    let plane_height: usize = div_up(frame.height as u32 * comp.v as u32, v_max) as usize;
    let stride: usize = mcus_x * comp.h as usize * 8;
    let padded_height: usize = mcus_y * comp.v as usize * 8;
    let samples: Vec<u8> = vec![0u8; stride * padded_height];
    let mut plane = DecodedPlane {
        component: comp,
        stride,
        padded_height,
        plane_width,
        plane_height,
        samples,
    };
    let w: usize = cc.blocks_x;
    let h: usize = cc.blocks_y;
    let total: usize = w * h;
    let ghost blocks = cc.model();
    let ghost len = stride * padded_height;
    assert(plane.fits(frame@, i as int));
    proof {
        assert forall|k: int| 0 <= k < len implies !from_earlier_block(w as int, h as int, stride as int, 0, k) by {
            lemma_sample_block(w as int, h as int, stride as int, 0, k);
        }
    }
    for b in 0..total
        invariant
            frame@.wf(),
            i < frame@.components.len(),
            cc.fits(frame@, i as int),
            plane.fits(frame@, i as int),
            stride == frame@.stride(i as int),
            stride >= 8,
            w == frame@.blocks_x(i as int),
            h == frame@.blocks_y(i as int),
            1 <= w <= frame@.mcus_x() * frame@.components[i as int].h,
            1 <= h <= frame@.mcus_y() * frame@.components[i as int].v,
            total == w * h,
            blocks == cc.model(),
            len == plane.samples@.len(),
            forall|k: int|
                0 <= k < len ==> #[trigger] plane.samples@[k] == if from_earlier_block(
                    w as int,
                    h as int,
                    stride as int,
                    b as int,
                    k,
                ) {
                    transformed_sample(blocks, qt.values@, w as int, h as int, stride as int, k)
                } else {
                    0
                },
    {
        proof {
            lemma_fundamental_div_mod(b as int, w as int);
            let q = b as int / w as int;
            assert(q < h) by (nonlinear_arith)
                requires
                    b == w * q + b as int % w as int,
                    b as int % w as int >= 0,
                    b < w * h,
                    w > 0,
            ;
            lemma_block_in_plane(frame@, i as int, b as int % w as int, b as int / w as int);
        }
        let bx: usize = b % w;
        let by: usize = b / w;
        let nat_coef = dequantize_block(&cc.blocks[b], &qt.values);
        let mut block: [u8; 64] = [0u8; 64];
        arch::backend::dct::idct_islow(&nat_coef, &mut block);
        let ghost before = plane.samples@;
        place_block(&mut plane, bx * 8, by * 8, &block);
        proof {
            assert(blocks[b as int] == cc.blocks@[b as int]@);
            assert forall|k: int| 0 <= k < len implies #[trigger] plane.samples@[k] == if from_earlier_block(
                w as int,
                h as int,
                stride as int,
                b + 1,
                k,
            ) {
                transformed_sample(blocks, qt.values@, w as int, h as int, stride as int, k)
            } else {
                0
            } by {
                lemma_sample_block(w as int, h as int, stride as int, b as int, k);
                assert(plane.samples@[k] == placed(
                    before,
                    stride as int,
                    bx * 8,
                    by * 8,
                    block@,
                )[k]);
            }
        }
    }
    proof {
        assert forall|k: int| 0 <= k < len implies #[trigger] plane.samples@[k] == transformed_sample(
            blocks,
            qt.values@,
            w as int,
            h as int,
            stride as int,
            k,
        ) by {
            lemma_sample_block(w as int, h as int, stride as int, total as int, k);
        }
        assert(plane.samples@ =~= Seq::new(
            (frame@.stride(i as int) * frame@.padded_height(i as int)) as nat,
            |k: int|
                transformed_sample(
                    cc.model(),
                    qt.values@,
                    frame@.blocks_x(i as int),
                    frame@.blocks_y(i as int),
                    frame@.stride(i as int),
                    k,
                ),
        ));
    }
    plane
}

/// Which block of a grid a sample belongs to.
proof fn lemma_sample_block(w: int, h: int, stride: int, n: int, k: int)
    requires
        w >= 1,
        h >= 1,
        stride >= 8,
        0 <= k,
        0 <= n,
    ensures
        !from_earlier_block(w, h, stride, 0, k),
        in_block(k, stride, (n % w) * 8, (n / w) * 8) == ((k % stride) / 8 == n % w && (k / stride) / 8 == n / w),
        (k % stride) / 8 < w && (k / stride) / 8 < h ==> (((k / stride) / 8) * w + (k % stride) / 8 == n) == ((k
            % stride) / 8 == n % w && (k / stride) / 8 == n / w),
        (k % stride) / 8 < w && (k / stride) / 8 < h ==> ((k / stride) / 8) * w + (k % stride) / 8 < w * h,
        in_block(k, stride, (n % w) * 8, (n / w) * 8) ==> 8 * (k / stride - (n / w) * 8) + k % stride - (n % w) * 8
            == 8 * ((k / stride) % 8) + (k % stride) % 8,
        n < w * h && in_block(k, stride, (n % w) * 8, (n / w) * 8) ==> (k % stride) / 8 < w && (k / stride) / 8
            < h,
{
    lemma_fundamental_div_mod(n, w);
    lemma_mod_bound(n, w);
    lemma_fundamental_div_mod(k, stride);
    lemma_mod_bound(k, stride);
    let x = k % stride;
    let y = k / stride;
    assert(y >= 0) by (nonlinear_arith)
        requires
            k == stride * y + x,
            x < stride,
            k >= 0,
            stride > 0,
    ;
    let xb = x / 8;
    let yb = y / 8;
    let q = n / w;
    assert(q >= 0) by (nonlinear_arith)
        requires
            n == w * q + n % w,
            n % w < w,
            n >= 0,
            w > 0,
    ;
    assert(yb * w >= 0) by (nonlinear_arith)
        requires
            yb >= 0,
            w >= 0,
    ;
    if xb < w {
        if yb * w + xb == n {
            assert(n == w * yb + xb) by (nonlinear_arith)
                requires
                    yb * w + xb == n,
            ;
            lemma_fundamental_div_mod_converse(n, w, yb, xb);
        }
        if xb == n % w && yb == q {
            assert(yb * w + xb == n) by (nonlinear_arith)
                requires
                    n == w * q + n % w,
                    xb == n % w,
                    yb == q,
            ;
        }
        if yb < h {
            assert(yb * w + xb < w * h) by (nonlinear_arith)
                requires
                    0 <= yb <= h - 1,
                    xb < w,
                    w > 0,
            ;
        }
    }
    if n < w * h {
        assert(q < h) by (nonlinear_arith)
            requires
                n == w * q + n % w,
                n % w >= 0,
                n < w * h,
                w > 0,
        ;
    }
}

/// Transforms the coefficients of all components into samples.
fn finalize_to_planes(frame: &FrameHeader, comps: &[CoeffComponent], quant: &[QuantTable]) -> (r: Result<
    DecodedPlanes,
>)
    requires
        frame@.wf(),
        comps_fit(comps@, frame@),
        forall|i: int| 0 <= i < quant@.len() ==> (#[trigger] quant@[i]).id <= 3,
    ensures
        match transformed_planes(
            frame@,
            all_coefs(comps@),
            quant_slots(quants(quant@)),
            frame@.components.len(),
        ) {
            Err(e) => r == Err::<DecodedPlanes, DecodeError>(e),
            Ok(samples) => r matches Ok(d) && d.width == frame@.width && d.height == frame@.height && planes_fit(
                d.components@,
                frame@,
            ) && plane_samples(d.components@) == samples,
        },
{
    let qt_by_id = index_quant_tables(quant);
    let ghost slots = quant_slots(quants(quant@));
    let ghost coefs = all_coefs(comps@);
    let n: usize = comps.len();
    let mut planes: Vec<DecodedPlane> = Vec::new();
    assert(plane_samples(planes@) =~= Seq::empty());
    for i in 0..n
        invariant
            frame@.wf(),
            comps_fit(comps@, frame@),
            n == comps@.len(),
            coefs == all_coefs(comps@),
            slots == quant_slots(quants(quant@)),
            quant_refs(qt_by_id@) == slots,
            planes@.len() == i,
            forall|k: int| 0 <= k < i ==> (#[trigger] planes@[k]).fits(frame@, k),
            transformed_planes(frame@, coefs, slots, i as nat) == Ok::<Seq<Seq<u8>>, DecodeError>(
                plane_samples(planes@),
            ),
    {
        assert(comps@[i as int].fits(frame@, i as int));
        proof {
            lemma_geometry(frame@, i as int);
            assert(quant_refs(qt_by_id@)[frame@.components[i as int].qt as int]
                == slots[frame@.components[i as int].qt as int]);
        }
        let qt = match qt_by_id[comps[i].component.qt as usize] {
            Some(q) => q,
            None => {
                proof {
                    lemma_transformed_planes_stop(frame@, coefs, slots, (i + 1) as nat, n as nat);
                }
                return Err(DecodeError::Malformed("frame component refers to undefined quant table"));
            },
        };
        let plane = transform_component(frame, &comps[i], qt, i);
        let ghost before = planes@;
        let ghost ps = plane.samples@;
        planes.push(plane);
        assert(plane_samples(planes@) =~= plane_samples(before).push(ps));
        assert(coefs[i as int] == comps@[i as int].model());
    }
    Ok(DecodedPlanes { width: frame.width as u32, height: frame.height as u32, components: planes })
}

/// An error stops the transformation.
proof fn lemma_transformed_planes_stop(
    frame: Frame,
    coefs: Seq<Seq<Seq<i16>>>,
    quant: Seq<Option<Seq<u16>>>,
    a: nat,
    b: nat,
)
    requires
        a <= b,
        transformed_planes(frame, coefs, quant, a) is Err,
    ensures
        transformed_planes(frame, coefs, quant, b) == transformed_planes(frame, coefs, quant, a),
    decreases b,
{
    if a < b {
        lemma_transformed_planes_stop(frame, coefs, quant, a, (b - 1) as nat);
    }
}

/// Reading the terms of a first AC scan does not move the reader back.
proof fn lemma_ac_first_pos(src: Seq<u8>, b: BandBlock, book: CodeBook, se: int, al: int, k: int)
    ensures
        ac_first_terms(src, b, book, se, al, k).br.pos >= b.br.pos,
    decreases se + 17 - k,
{
    if k <= se {
        lemma_read_pos(src, b.br, book, 1);
        let (br, sym) = read_symbol(src, b.br, book);
        match sym {
            Err(e) => {},
            Ok(rs) => {
                let run = rs as int / 16;
                let size = rs as int % 16;
                lemma_read_pos(src, br, book, run);
                lemma_read_pos(src, br, book, size);
                if size == 0 {
                    if run == 15 {
                        lemma_ac_first_pos(src, BandBlock { br, ..b }, book, se, al, k + 16);
                    }
                } else if k + run <= se {
                    let (br1, bits) = read_bits(src, br, size);
                    match bits {
                        Err(e) => {},
                        Ok(v) => {
                            lemma_ac_first_pos(
                                src,
                                BandBlock {
                                    br: br1,
                                    coef: b.coef.update(k + run, at_bit(extended(v as int, size), al)),
                                    ..b
                                },
                                book,
                                se,
                                al,
                                k + run + 1,
                            );
                        },
                    }
                }
            },
        }
    }
}

/// Neither do corrections.
proof fn lemma_refine_pos(src: Seq<u8>, b: BandBlock, book: CodeBook, se: int, al: int, k: int, n: int, v: i16)
    ensures
        refine_band(src, b, se, al, k).br.pos >= b.br.pos,
        skip_zeros(src, b, se, al, k, n).0.br.pos >= b.br.pos,
        insert_new(src, b, se, al, k, n, v).0.br.pos >= b.br.pos,
    decreases se + 1 - k,
{
    if k <= se {
        lemma_read_pos(src, b.br, book, 1);
        lemma_refine_pos(src, refine_one(src, b, al, k), book, se, al, k + 1, n, v);
        lemma_refine_pos(src, b, book, se, al, k + 1, n, v);
        lemma_refine_pos(src, b, book, se, al, k + 1, n - 1, v);
    }
}

/// Nor do the terms of a further AC scan.
proof fn lemma_ac_refine_pos(src: Seq<u8>, b: BandBlock, book: CodeBook, se: int, al: int, k: int)
    ensures
        ac_refine_terms(src, b, book, se, al, k).br.pos >= b.br.pos,
    decreases se + 17 - k,
{
    if b.err is None && k <= se {
        lemma_read_pos(src, b.br, book, 1);
        let (br, sym) = read_symbol(src, b.br, book);
        match sym {
            Err(e) => {},
            Ok(rs) => {
                let run = rs as int / 16;
                let size = rs as int % 16;
                let b1 = BandBlock { br, ..b };
                lemma_read_pos(src, br, book, run);
                lemma_read_pos(src, br, book, 1);
                if size > 1 {
                } else if size == 0 && run != 15 {
                    let (br1, n) = read_eobrun(src, br, run);
                    match n {
                        Err(e) => {},
                        Ok(n) => {
                            lemma_refine_pos(
                                src,
                                BandBlock { br: br1, eobrun: n, ..b },
                                book,
                                se,
                                al,
                                k,
                                0,
                                0,
                            );
                        },
                    }
                } else if size == 0 {
                    let (b2, k2) = skip_zeros(src, b1, se, al, k, 16);
                    lemma_refine_pos(src, b1, book, se, al, k, 16, 0);
                    lemma_walks_advance(src, b1, se, al, k, 16, 0);
                    lemma_skip_bound(src, b1, se, al, k, 16);
                    if b2.err is None {
                        lemma_ac_refine_pos(src, b2, book, se, al, k2);
                    }
                } else {
                    let (br1, sign) = read_bits(src, br, 1);
                    match sign {
                        Err(e) => {},
                        Ok(s) => {
                            let v = if s != 0 {
                                at_bit(1, al)
                            } else {
                                at_bit(-1, al)
                            };
                            let b2 = BandBlock { br: br1, ..b };
                            let (b3, k3) = insert_new(src, b2, se, al, k, run, v);
                            lemma_refine_pos(src, b2, book, se, al, k, run, v);
                            lemma_walks_advance(src, b2, se, al, k, run, v);
                            lemma_insert_bound(src, b2, se, al, k, run, v);
                            if b3.err is None {
                                lemma_ac_refine_pos(src, b3, book, se, al, k3);
                            }
                        },
                    }
                }
            },
        }
    }
}

/// Nor does a block of a DC scan.
proof fn lemma_dc_step_pos(ctx: BandContext, s: BandState, i: int, table: int, bx: int, by: int)
    ensures
        dc_block_step(ctx, s, i, table, bx, by).br.pos >= s.br.pos,
{
    let book = CodeBook { bits: Seq::empty(), values: Seq::empty() };
    lemma_read_pos(ctx.src, s.br, book, 1);
    match slot(ctx.dc, table) {
        None => {},
        Some(bk) => {
            lemma_read_pos(ctx.src, s.br, bk, 1);
            let (br1, sym) = read_symbol(ctx.src, s.br, bk);
            match sym {
                Err(e) => {},
                Ok(size) => {
                    lemma_read_pos(ctx.src, br1, bk, size as int);
                },
            }
        },
    }
}

/// Nor do the blocks of a component in a MCU.
proof fn lemma_dc_blocks_pos(ctx: BandContext, s: BandState, i: int, table: int, mx: int, my: int, n: nat)
    ensures
        dc_blocks(ctx, s, i, table, mx, my, n).br.pos >= s.br.pos,
    decreases n,
{
    if n > 0 {
        lemma_dc_blocks_pos(ctx, s, i, table, mx, my, (n - 1) as nat);
        let t = dc_blocks(ctx, s, i, table, mx, my, (n - 1) as nat);
        let (h, v) = mcu_shape(ctx, i);
        lemma_dc_step_pos(ctx, t, i, table, mx * h + (n - 1) % h, my * v + (n - 1) / h);
    }
}

/// Nor do the entries of a MCU.
proof fn lemma_dc_entries_pos(ctx: BandContext, s: BandState, mx: int, my: int, n: nat)
    ensures
        dc_entries(ctx, s, mx, my, n).br.pos >= s.br.pos,
    decreases n,
{
    if n > 0 {
        lemma_dc_entries_pos(ctx, s, mx, my, (n - 1) as nat);
        let t = dc_entries(ctx, s, mx, my, (n - 1) as nat);
        let i = entry_component(ctx, n - 1)->0;
        let (h, v) = mcu_shape(ctx, i);
        lemma_dc_blocks_pos(
            ctx,
            t,
            i,
            ctx.scan.components[n - 1].dc_table as int,
            mx,
            my,
            (h * v) as nat,
        );
    }
}

/// Nor do the MCUs of a DC scan.
proof fn lemma_dc_mcus_pos(ctx: BandContext, s: BandState, n: nat)
    ensures
        dc_mcus(ctx, s, n).br.pos >= s.br.pos,
    decreases n,
{
    if n > 0 {
        lemma_dc_mcus_pos(ctx, s, (n - 1) as nat);
        let t = dc_mcus(ctx, s, (n - 1) as nat);
        let w = dc_grid(ctx).0;
        lemma_next_marker_pos(ctx.src, t.br.pos);
        lemma_dc_entries_pos(
            ctx,
            band_restart_if_due(ctx, t),
            (n - 1) % w,
            (n - 1) / w,
            ctx.scan.components.len(),
        );
    }
}

/// Nor do the blocks of an AC scan.
proof fn lemma_ac_blocks_pos(ctx: BandContext, s: BandState, i: int, book: CodeBook, n: nat)
    ensures
        ac_blocks(ctx, s, i, book, n).br.pos >= s.br.pos,
    decreases n,
{
    if n > 0 {
        lemma_ac_blocks_pos(ctx, s, i, book, (n - 1) as nat);
        let t = ac_blocks(ctx, s, i, book, (n - 1) as nat);
        lemma_next_marker_pos(ctx.src, t.br.pos);
        let u = band_restart_if_due(ctx, t);
        let b = BandBlock { br: u.br, eobrun: u.eobrun, coef: u.coefs[i][n - 1], err: None };
        let ss = ctx.scan.ss as int;
        let se = ctx.scan.se as int;
        let al = ctx.scan.al as int;
        lemma_ac_first_pos(ctx.src, b, book, se, al, ss);
        lemma_ac_refine_pos(ctx.src, b, book, se, al, ss);
        lemma_refine_pos(ctx.src, b, book, se, al, ss, 0, 0);
    }
}

/// A progressive scan ends at or past where it began.
pub proof fn lemma_progressive_scan_pos(ctx: BandContext, start: int, coefs: Seq<Seq<Seq<i16>>>)
    ensures
        progressive_scan(ctx, start, coefs).br.pos >= start,
{
    reveal(progressive_scan);
    let s = BandState {
        br: BitState { pos: start, buf: 0, nbits: 0, marker: None },
        prev_dc: seq![0i32, 0i32, 0i32, 0i32],
        eobrun: 0,
        since: 0,
        coefs,
        err: None,
    };
    let (w, h) = dc_grid(ctx);
    lemma_dc_mcus_pos(ctx, s, (w * h) as nat);
    let i = entry_component(ctx, 0)->0;
    match slot(ctx.ac, ctx.scan.components[0].ac_table as int) {
        None => {},
        Some(book) => {
            lemma_ac_blocks_pos(
                ctx,
                s,
                i,
                book,
                (ctx.frame.blocks_x(i) * ctx.frame.blocks_y(i)) as nat,
            );
        },
    }
}

/// Decodes the scan `scan` of a progressive image, and after it all further
/// scans, with the tables that stand between them. The coefficients and the
/// quantization tables at the end come back, or the first error.
pub open spec fn progressive_scans(
    src: Seq<u8>,
    frame: Frame,
    t: Tables,
    scan: Scan,
    coefs: Seq<Seq<Seq<i16>>>,
) -> std::result::Result<(Seq<Seq<Seq<i16>>>, Seq<Quant>), DecodeError>
    decreases src.len() - t.c.pos,
{
    let slots = fill_slots(t.huffman, t.huffman.len());
    if t.c.pos < 0 || slots.err is Some {
        Err(slots.err->0)
    } else {
        let ctx = BandContext {
            src,
            frame,
            scan,
            interval: t.restart_interval as int,
            dc: slots.dc,
            ac: slots.ac,
        };
        let s = progressive_scan(ctx, t.c.pos, coefs);
        if s.err is Some {
            Err(s.err->0)
        } else {
            let t1 = Tables { c: Cursor::at(s.br.pos), ..t };
            let (t2, b) = walk_between(src, t1, frame, s.br.marker);
            if t2.c.err is Some {
                Err(t2.c.err->0)
            } else {
                match b {
                    Between::Next(next) => {
                        proof {
                            lemma_progressive_scan_pos(ctx, t.c.pos, coefs);
                            lemma_walk_between_advances(src, t1, frame, s.br.marker);
                        }
                        progressive_scans(src, frame, t2, next, s.coefs)
                    },
                    _ => Ok((s.coefs, t2.quant)),
                }
            }
        }
    }
}

/// The samples of a progressive image.
pub open spec fn progressive_samples(
    src: Seq<u8>,
    frame: Frame,
    t: Tables,
    scan: Scan,
) -> std::result::Result<Seq<Seq<u8>>, DecodeError> {
    match progressive_scans(src, frame, t, scan, blank_coefs(frame)) {
        Err(e) => Err(e),
        Ok((coefs, quant)) => transformed_planes(
            frame,
            coefs,
            quant_slots(quant),
            frame.components.len(),
        ),
    }
}

/// Decodes all scans of a progressive image, from `first_scan`, whose data
/// begin at byte `entropy_start`, to the end of the image, and transforms
/// the coefficients into samples.
#[verifier::rlimit(60)]
#[verifier::spinoff_prover]
pub fn decode_progressive(
    src: &[u8],
    entropy_start: usize,
    headers: &DecoderHeaders,
    first_scan: ScanHeader,
) -> (r: Result<DecodedPlanes>)
    requires
        headers@.wf(),
        first_scan@.wf(headers@.frame),
    ensures
        match progressive_samples(
            src@,
            headers@.frame,
            Tables {
                c: Cursor::at(entropy_start as int),
                quant: headers@.quant,
                huffman: headers@.huffman,
                restart_interval: headers@.restart_interval,
            },
            first_scan@,
        ) {
            Err(e) => r == Err::<DecodedPlanes, DecodeError>(e),
            Ok(samples) => r matches Ok(d) && d.width == headers@.frame.width && d.height
                == headers@.frame.height && planes_fit(d.components@, headers@.frame) && plane_samples(
                d.components@,
            ) == samples,
        },
{
    let frame = &headers.frame;
    let mut comps = allocate_coefs(frame);
    let mut huffman_specs = clone_huffman_specs(&headers.huffman);
    let mut quant_tables = clone_quant_tables(&headers.quant);
    let mut restart_interval: u16 = headers.restart_interval;
    let mut scan = first_scan;
    let mut pos: usize = entropy_start;
    let ghost target = progressive_scans(
        src@,
        frame@,
        Tables {
            c: Cursor::at(pos as int),
            quant: headers@.quant,
            huffman: headers@.huffman,
            restart_interval,
        },
        scan@,
        blank_coefs(frame@),
    );
    loop
        invariant
            frame == &headers.frame,
            headers@.wf(),
            comps_fit(comps@, frame@),
            scan@.wf(frame@),
            huffs_wf(huffs(huffman_specs@)),
            quants_wf(quants(quant_tables@)),
            target == progressive_scans(
                src@,
                headers@.frame,
                Tables {
                    c: Cursor::at(entropy_start as int),
                    quant: headers@.quant,
                    huffman: headers@.huffman,
                    restart_interval: headers@.restart_interval,
                },
                first_scan@,
                blank_coefs(headers@.frame),
            ),
            target == progressive_scans(
                src@,
                frame@,
                Tables {
                    c: Cursor::at(pos as int),
                    quant: quants(quant_tables@),
                    huffman: huffs(huffman_specs@),
                    restart_interval,
                },
                scan@,
                all_coefs(comps@),
            ),
        decreases src@.len() - pos,
    {
        let ghost t0 = Tables {
            c: Cursor::at(pos as int),
            quant: quants(quant_tables@),
            huffman: huffs(huffman_specs@),
            restart_interval,
        };
        proof {
            assert forall|i: int| 0 <= i < huffman_specs@.len() implies (#[trigger] huffman_specs@[i]).id
                <= 3 by {
                assert(huffs(huffman_specs@)[i].wf());
            }
        }
        let (dc_tables, ac_tables) = match build_huffman_tables(huffman_specs.as_slice()) {
            Ok(t) => t,
            Err(e) => {
                return Err(e);
            },
        };
        let ghost before = all_coefs(comps@);
        let (after_pos, pending) = match run_progressive_scan(
            src,
            pos,
            frame,
            &scan,
            &dc_tables,
            &ac_tables,
            restart_interval,
            comps.as_mut_slice(),
        ) {
            Ok(t) => t,
            Err(e) => {
                return Err(e);
            },
        };
        let ghost ctx = BandContext {
            src: src@,
            frame: frame@,
            scan: scan@,
            interval: restart_interval as int,
            dc: dc_books(dc_tables@),
            ac: ac_books(ac_tables@),
        };
        let ghost s = progressive_scan(ctx, pos as int, before);
        let ghost t1 = Tables { c: Cursor::at(s.br.pos), ..t0 };
        proof {
            lemma_progressive_scan_pos(ctx, pos as int, before);
            lemma_walk_between_advances(src@, t1, frame@, s.br.marker);
            law_walk_between_keeps_order(src@, t1, frame@, s.br.marker);
        }
        let mut mr = MarkerReader::resume_at(src, after_pos);
        let next = match mr.next_scan_or_end(
            frame,
            &mut huffman_specs,
            &mut quant_tables,
            &mut restart_interval,
            pending,
        ) {
            Ok(n) => n,
            Err(e) => {
                return Err(e);
            },
        };
        match next {
            Some(sh) => {
                scan = sh;
                pos = mr.pos();
            },
            None => {
                proof {
                    assert forall|i: int| 0 <= i < quant_tables@.len() implies (#[trigger] quant_tables@[i]).id
                        <= 3 by {
                        assert(quants(quant_tables@)[i].wf());
                    }
                }
                return finalize_to_planes(frame, comps.as_slice(), quant_tables.as_slice());
            },
        }
    }
}

/// Coefficients outside `ss..=se` are the same.
pub open spec fn same_outside(a: Seq<i16>, b: Seq<i16>, ss: int, se: int) -> bool {
    &&& a.len() == b.len()
    &&& forall|i: int| 0 <= i < a.len() && (i < ss || i > se) ==> #[trigger] b[i] == a[i]
}

/// Coefficients outside `ss..=se` are the same, and coefficients that are
/// not zero have kept their sign and not come closer to zero.
pub open spec fn refines(a: Seq<i16>, b: Seq<i16>, ss: int, se: int) -> bool {
    &&& same_outside(a, b, ss, se)
    &&& forall|i: int|
        0 <= i < a.len() ==> (a[i] > 0 ==> #[trigger] b[i] >= a[i]) && (a[i] < 0 ==> b[i] <= a[i])
}

proof fn lemma_ac_first_band(src: Seq<u8>, b: BandBlock, book: CodeBook, ss: int, se: int, al: int, k: int)
    requires
        0 <= ss <= k,
        se < b.coef.len(),
    ensures
        same_outside(b.coef, ac_first_terms(src, b, book, se, al, k).coef, ss, se),
    decreases se + 17 - k,
{
    if k <= se {
        let (br, sym) = read_symbol(src, b.br, book);
        if let Ok(rs) = sym {
            let run = rs as int / 16;
            let size = rs as int % 16;
            if size == 0 {
                if run == 15 {
                    lemma_ac_first_band(src, BandBlock { br, ..b }, book, ss, se, al, k + 16);
                }
            } else if k + run <= se {
                let (br1, bits) = read_bits(src, br, size);
                if let Ok(v) = bits {
                    let next = BandBlock {
                        br: br1,
                        coef: b.coef.update(k + run, at_bit(extended(v as int, size), al)),
                        ..b
                    };
                    lemma_ac_first_band(src, next, book, ss, se, al, k + run + 1);
                }
            }
        }
    }
}

/// The first scan of an AC band leaves all coefficients outside the band
/// alone.
pub proof fn law_ac_first_keeps_to_its_band(
    src: Seq<u8>,
    b: BandBlock,
    book: CodeBook,
    ss: int,
    se: int,
    al: int,
)
    requires
        0 <= ss <= se < b.coef.len(),
    ensures
        same_outside(b.coef, ac_first(src, b, book, ss, se, al).coef, ss, se),
{
    if b.eobrun <= 0 {
        lemma_ac_first_band(src, b, book, ss, se, al, ss);
    }
}

proof fn lemma_refine_one(src: Seq<u8>, b: BandBlock, ss: int, se: int, al: int, k: int)
    requires
        0 <= ss <= k <= se < b.coef.len(),
        b.coef[k] != 0,
    ensures
        refines(b.coef, refine_one(src, b, al, k).coef, ss, se),
{
    lemma_pow2_pos(al as nat);
}

proof fn lemma_walks_refine(
    src: Seq<u8>,
    b: BandBlock,
    ss: int,
    se: int,
    al: int,
    k: int,
    n: int,
    v: i16,
)
    requires
        0 <= ss <= k,
        se < b.coef.len(),
    ensures
        refines(b.coef, refine_band(src, b, se, al, k).coef, ss, se),
        refines(b.coef, skip_zeros(src, b, se, al, k, n).0.coef, ss, se),
        refines(b.coef, insert_new(src, b, se, al, k, n, v).0.coef, ss, se),
    decreases se + 1 - k,
{
    if k <= se {
        if b.coef[k] != 0 {
            lemma_refine_one(src, b, ss, se, al, k);
            let c = refine_one(src, b, al, k);
            lemma_walks_refine(src, c, ss, se, al, k + 1, n, v);
        } else {
            lemma_walks_refine(src, b, ss, se, al, k + 1, n, v);
            lemma_walks_refine(src, b, ss, se, al, k + 1, n - 1, v);
        }
    }
}

proof fn lemma_ac_refine_band(src: Seq<u8>, b: BandBlock, book: CodeBook, ss: int, se: int, al: int, k: int)
    requires
        0 <= ss <= k <= se + 1,
        se < b.coef.len(),
    ensures
        refines(b.coef, ac_refine_terms(src, b, book, se, al, k).coef, ss, se),
    decreases se + 17 - k,
{
    if b.err is None && k <= se {
        let (br, sym) = read_symbol(src, b.br, book);
        if let Ok(rs) = sym {
            let run = rs as int / 16;
            let size = rs as int % 16;
            let b1 = BandBlock { br, ..b };
            if size == 0 && run != 15 {
                let (br1, n) = read_eobrun(src, br, run);
                if let Ok(n) = n {
                    lemma_walks_refine(src, BandBlock { br: br1, eobrun: n, ..b }, ss, se, al, k, 0, 0);
                }
            } else if size == 0 {
                let (b2, k2) = skip_zeros(src, b1, se, al, k, 16);
                lemma_walks_refine(src, b1, ss, se, al, k, 16, 0);
                lemma_walks_advance(src, b1, se, al, k, 16, 0);
                lemma_skip_bound(src, b1, se, al, k, 16);
                if b2.err is None {
                    lemma_ac_refine_band(src, b2, book, ss, se, al, k2);
                }
            } else if size == 1 {
                let (br1, sign) = read_bits(src, br, 1);
                if let Ok(s) = sign {
                    let v = if s != 0 {
                        at_bit(1, al)
                    } else {
                        at_bit(-1, al)
                    };
                    let b2 = BandBlock { br: br1, ..b };
                    let (b3, k3) = insert_new(src, b2, se, al, k, run, v);
                    lemma_walks_refine(src, b2, ss, se, al, k, run, v);
                    lemma_walks_advance(src, b2, se, al, k, run, v);
                    lemma_insert_bound(src, b2, se, al, k, run, v);
                    if b3.err is None {
                        lemma_ac_refine_band(src, b3, book, ss, se, al, k3);
                    }
                }
            }
        }
    }
}

/// A further scan of an AC band leaves all coefficients outside the band
/// alone, and moves those that are not zero only away from zero.
pub proof fn law_ac_refine_keeps_to_its_band(
    src: Seq<u8>,
    b: BandBlock,
    book: CodeBook,
    ss: int,
    se: int,
    al: int,
)
    requires
        0 <= ss <= se < b.coef.len(),
    ensures
        refines(b.coef, ac_refine(src, b, book, ss, se, al).coef, ss, se),
{
    if b.eobrun > 0 {
        lemma_walks_refine(src, b, ss, se, al, ss, 0, 0);
    } else {
        lemma_ac_refine_band(src, b, book, ss, se, al, ss);
    }
}

/// The samples of a component come from its blocks, row by row of blocks:
/// the sample in column `col` and row `row` is that of the block in column
/// `col / 8` and row `row / 8`, transformed back.
pub proof fn law_transformed_samples_are_in_place(
    blocks: Seq<Seq<i16>>,
    qt: Seq<u16>,
    w: int,
    h: int,
    stride: int,
    col: int,
    row: int,
)
    requires
        0 <= col < stride,
        0 <= row,
        col < 8 * w,
        row < 8 * h,
    ensures
        transformed_sample(blocks, qt, w, h, stride, row * stride + col) == idct_block(
            natural_block(blocks[(row / 8) * w + col / 8], qt),
        )[8 * (row % 8) + col % 8],
{
    lemma_fundamental_div_mod_converse(row * stride + col, stride, row, col);
}

/// In an MCU of a DC scan the blocks of a component come row by row: the
/// block in column `dx` and row `dy` is the `(dy * h + dx)`-th, and stands that
/// far from the corner of the MCU.
pub proof fn law_dc_blocks_come_in_raster_order(
    ctx: BandContext,
    s: BandState,
    i: int,
    table: int,
    mx: int,
    my: int,
    dx: int,
    dy: int,
)
    requires
        ctx.scan.components.len() > 1,
        0 <= dx < ctx.frame.components[i].h,
        0 <= dy,
    ensures
        ({
            let (h, v) = (ctx.frame.components[i].h as int, ctx.frame.components[i].v as int);
            dc_blocks(ctx, s, i, table, mx, my, (dy * h + dx + 1) as nat) == dc_block_step(
                ctx,
                dc_blocks(ctx, s, i, table, mx, my, (dy * h + dx) as nat),
                i,
                table,
                mx * h + dx,
                my * v + dy,
            )
        }),
{
    let h = ctx.frame.components[i].h as int;
    assert(dy * h >= 0) by (nonlinear_arith)
        requires
            dy >= 0,
            h >= 0,
    ;
    lemma_fundamental_div_mod_converse(dy * h + dx, h, dy, dx);
}

/// A block of a DC scan changes the DC coefficient at its own place and
/// nothing else. A block outside the component changes no coefficient.
pub proof fn law_dc_blocks_are_in_place(
    ctx: BandContext,
    s: BandState,
    i: int,
    table: int,
    bx: int,
    by: int,
    at: int,
    k: int,
)
    requires
        0 <= i < s.coefs.len(),
        0 <= bx,
        0 <= by,
        s.coefs[i].len() == ctx.frame.blocks_x(i) * ctx.frame.blocks_y(i),
        0 <= at < s.coefs[i].len(),
        0 <= k < s.coefs[i][at].len(),
        at != by * ctx.frame.blocks_x(i) + bx || k != 0 || bx >= ctx.frame.blocks_x(i) || by
            >= ctx.frame.blocks_y(i),
    ensures
        dc_block_step(ctx, s, i, table, bx, by).coefs[i][at][k] == s.coefs[i][at][k],
{
    let (w, h) = (ctx.frame.blocks_x(i), ctx.frame.blocks_y(i));
    if bx < w && by < h {
        assert(0 <= by * w + bx < w * h) by (nonlinear_arith)
            requires
                0 <= bx < w,
                0 <= by < h,
        ;
    }
}

/// Restarts come every `interval` MCUs: the number of MCUs since the last
/// one runs from one to `interval` and starts again.
pub proof fn law_band_restarts_come_every_interval(ctx: BandContext, s: BandState, i: int, book: CodeBook, n: nat)
    requires
        ctx.interval > 0,
        s.since == 0,
        ac_blocks(ctx, s, i, book, n).err is None,
    ensures
        ac_blocks(ctx, s, i, book, n).since == if n == 0 {
            0
        } else {
            (n - 1) % ctx.interval + 1
        },
    decreases n,
{
    if n > 0 {
        let m = (n - 1) as nat;
        law_band_restarts_come_every_interval(ctx, s, i, book, m);
        if m > 0 {
            lemma_next_remainder(m - 1, ctx.interval);
        } else {
            vstd::arithmetic::div_mod::lemma_small_mod(0, ctx.interval as nat);
        }
    }
}

/// MCUs of a DC scan come row by row: the MCU in column `mx` and row `my` is
/// the one with `my` rows and `mx` MCUs before it.
pub proof fn law_dc_mcus_come_in_raster_order(ctx: BandContext, s: BandState, mx: int, my: int)
    requires
        0 <= mx < dc_grid(ctx).0,
        0 <= my,
    ensures
        ({
            let w = dc_grid(ctx).0;
            let t = dc_mcus(ctx, s, (my * w + mx) as nat);
            let u = dc_entries(ctx, band_restart_if_due(ctx, t), mx, my, ctx.scan.components.len());
            t.err is None ==> dc_mcus(ctx, s, (my * w + mx + 1) as nat) == if u.err is Some {
                u
            } else {
                BandState { since: u.since + 1, ..u }
            }
        }),
{
    let w = dc_grid(ctx).0;
    assert(my * w >= 0) by (nonlinear_arith)
        requires
            my >= 0,
            w >= 0,
    ;
    lemma_fundamental_div_mod_converse(my * w + mx, w, my, mx);
}

/// A restart in a progressive scan that is due resets every predictor to
/// zero, ends the end-of-band run and resets the count of MCUs; no
/// coefficient changes. One that is not due changes nothing.
pub proof fn law_band_restart_resets(ctx: BandContext, s: BandState)
    requires
        s.err is None,
    ensures
        ({
            let t = band_restart_if_due(ctx, s);
            let due = ctx.interval > 0 && s.since == ctx.interval;
            &&& due && t.err is None ==> t.since == 0 && t.eobrun == 0 && t.prev_dc.len() == 4 && forall|c: int|
                0 <= c < 4 ==> #[trigger] t.prev_dc[c] == 0
            &&& t.coefs == s.coefs
            &&& !due ==> t == s
        }),
{
}

} // verus!
