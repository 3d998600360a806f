//! Baseline scan decoder.
//!
//! For each MCU in raster order the blocks of every component of the scan
//! are decoded (DC difference, AC run lengths and magnitudes, zig-zag
//! order, dequantization, inverse DCT) and written into the component's
//! sample plane.

use vstd::arithmetic::div_mod::{lemma_fundamental_div_mod, lemma_fundamental_div_mod_converse, lemma_mod_bound};
use vstd::arithmetic::power2::{lemma2_to64, lemma_pow2_strictly_increases, pow2};
use vstd::prelude::*;

use super::error::{DecodeError, Result};
use super::huffman::{
    clone_bytes, decode_ac_fast, decode_dc_fast, extend, BitReader, FastAcHuffmanTable, FastDcHuffmanTable,
    HuffmanDecodeTable,
};
use super::markers::{
    Component, DecoderHeaders, FrameHeader, HuffmanTableSpec, MarkerReader, QuantTable, ScanHeader,
};
use crate::arch;
use crate::fixed::{mul16, trunc16};
use crate::tables::ZIGZAG;

verus! {

use super::huffman::{
    decode_table_error, extended, fast_table_error, lemma_fast_ac_is_read_ac, lemma_fast_dc_is_read_dc,
    fetch_until, lemma_ensure_bits_settles, lemma_read_ac_pos, lemma_read_dc_pos, read_ac, read_bits, read_dc, BitState, CodeBook,
};
use super::markers::{
    huffs, huffs_wf, law_walk_between_keeps_order, lemma_walk_between_advances, max_h, max_v, quants,
    quants_wf, walk_between, Between, Cursor, Frame, Huff, Quant, Scan, Tables,
};
use crate::arch::scalar::dct::idct_block;
use crate::fixed::{lemma_wrap16_mul, wrap16, wrap32};
use crate::tables::law_zigzag_is_permutation;

/// AC decoding tables of one slot: the code walked bit by bit, and the
/// combined lookup for short terms.
pub struct AcTablePair {
    pub slow: HuffmanDecodeTable,
    pub fast: FastAcHuffmanTable,
}

/// DC decoding tables of one slot.
pub struct DcTablePair {
    pub slow: HuffmanDecodeTable,
    pub fast: FastDcHuffmanTable,
}

impl AcTablePair {
    /// Both tables decode the same code.
    pub open spec fn wf(&self) -> bool {
        &&& self.slow.wf()
        &&& self.fast.wf()
        &&& self.fast.book() == self.slow.book()
    }
}

impl DcTablePair {
    /// Both tables decode the same code.
    pub open spec fn wf(&self) -> bool {
        &&& self.slow.wf()
        &&& self.fast.wf()
        &&& self.fast.book() == self.slow.book()
    }
}

/// The DC tables of the four slots.
pub type DcTableSlots = [Option<DcTablePair>; 4];

/// The AC tables of the four slots.
pub type AcTableSlots = [Option<AcTablePair>; 4];

/// The codes of the DC slots.
pub open spec fn dc_books(slots: Seq<Option<DcTablePair>>) -> Seq<Option<CodeBook>> {
    slots.map_values(
        |o: Option<DcTablePair>|
            match o {
                Some(p) => Some(p.slow.book()),
                None => None,
            },
    )
}

/// The codes of the AC slots.
pub open spec fn ac_books(slots: Seq<Option<AcTablePair>>) -> Seq<Option<CodeBook>> {
    slots.map_values(
        |o: Option<AcTablePair>|
            match o {
                Some(p) => Some(p.slow.book()),
                None => None,
            },
    )
}

/// Every DC slot is empty or in order.
pub open spec fn dc_slots_wf(slots: Seq<Option<DcTablePair>>) -> bool {
    forall|i: int| 0 <= i < slots.len() ==> (#[trigger] slots[i] matches Some(p) ==> p.wf())
}

/// Every AC slot is empty or in order.
pub open spec fn ac_slots_wf(slots: Seq<Option<AcTablePair>>) -> bool {
    forall|i: int| 0 <= i < slots.len() ==> (#[trigger] slots[i] matches Some(p) ==> p.wf())
}

/// The tables of all slots, or the error that building them ended in.
pub ghost struct Slots {
    pub dc: Seq<Option<CodeBook>>,
    pub ac: Seq<Option<CodeBook>>,
    pub err: Option<DecodeError>,
}

/// What is wrong with a Huffman table, if anything.
pub open spec fn huff_error(h: Huff) -> Option<DecodeError> {
    if h.class > 1 {
        Some(DecodeError::Malformed("DHT class > 1"))
    } else {
        match decode_table_error(h.book) {
            Some(e) => Some(e),
            None => fast_table_error(h.book, h.class == 1),
        }
    }
}

/// The slots after the first `n` tables: each table goes into its slot, in
/// place of an earlier one.
pub open spec fn fill_slots(huffman: Seq<Huff>, n: nat) -> Slots
    decreases n,
{
    if n == 0 {
        Slots { dc: seq![None, None, None, None], ac: seq![None, None, None, None], err: None }
    } else {
        let s = fill_slots(huffman, (n - 1) as nat);
        let h = huffman[n - 1];
        if s.err is Some {
            s
        } else if huff_error(h) is Some {
            Slots { err: huff_error(h), ..s }
        } else if h.class == 0 {
            Slots { dc: s.dc.update(h.id as int, Some(h.book)), ..s }
        } else {
            Slots { ac: s.ac.update(h.id as int, Some(h.book)), ..s }
        }
    }
}

/// An error stops the filling of the slots.
proof fn lemma_fill_slots_stops(huffman: Seq<Huff>, a: nat, b: nat)
    requires
        a <= b,
        fill_slots(huffman, a).err is Some,
    ensures
        fill_slots(huffman, b) == fill_slots(huffman, a),
    decreases b,
{
    if a < b {
        lemma_fill_slots_stops(huffman, a, (b - 1) as nat);
    }
}

/// Builds the decoding tables of all slots.
pub fn build_huffman_tables(specs: &[HuffmanTableSpec]) -> (r: Result<(DcTableSlots, AcTableSlots)>)
    requires
        forall|i: int| 0 <= i < specs@.len() ==> (#[trigger] specs@[i]).id <= 3,
    ensures
        ({
            let s = fill_slots(huffs(specs@), specs@.len());
            match s.err {
                Some(e) => r == Err::<(DcTableSlots, AcTableSlots), DecodeError>(e),
                None => r matches Ok((dc, ac)) && dc_slots_wf(dc@) && ac_slots_wf(ac@) && dc_books(dc@) == s.dc
                    && ac_books(ac@) == s.ac,
            }
        }),
{
    let mut dc: DcTableSlots = [None, None, None, None];
    let mut ac: AcTableSlots = [None, None, None, None];
    let ghost hs = huffs(specs@);
    let n: usize = specs.len();
    assert(dc_books(dc@) =~= seq![None, None, None, None]);
    assert(ac_books(ac@) =~= seq![None, None, None, None]);
    for i in 0..n
        invariant
            n == specs@.len(),
            hs == huffs(specs@),
            forall|k: int| 0 <= k < specs@.len() ==> (#[trigger] specs@[k]).id <= 3,
            fill_slots(hs, i as nat).err is None,
            dc_slots_wf(dc@),
            ac_slots_wf(ac@),
            dc_books(dc@) == fill_slots(hs, i as nat).dc,
            ac_books(ac@) == fill_slots(hs, i as nat).ac,
    {
        let spec = &specs[i];
        assert(spec.id <= 3);
        proof {
            if fill_slots(hs, (i + 1) as nat).err is Some {
                lemma_fill_slots_stops(hs, (i + 1) as nat, n as nat);
            }
        }
        let ghost dc0 = dc@;
        let ghost ac0 = ac@;
        if spec.class == 0 {
            let slow = match HuffmanDecodeTable::from_spec(spec) {
                Ok(t) => t,
                Err(e) => {
                    return Err(e);
                },
            };
            let fast = match FastDcHuffmanTable::from_spec(spec) {
                Ok(t) => t,
                Err(e) => {
                    return Err(e);
                },
            };
            let pair = DcTablePair { slow, fast };
            dc[spec.id as usize] = Some(pair);
            assert(dc_books(dc@) =~= dc_books(dc0).update(spec.id as int, Some(spec.book())));
        } else if spec.class == 1 {
            let slow = match HuffmanDecodeTable::from_spec(spec) {
                Ok(t) => t,
                Err(e) => {
                    return Err(e);
                },
            };
            let fast = match FastAcHuffmanTable::from_spec(spec) {
                Ok(t) => t,
                Err(e) => {
                    return Err(e);
                },
            };
            let pair = AcTablePair { slow, fast };
            ac[spec.id as usize] = Some(pair);
            assert(ac_books(ac@) =~= ac_books(ac0).update(spec.id as int, Some(spec.book())));
        } else {
            return Err(DecodeError::Malformed("DHT class > 1"));
        }
    }
    Ok((dc, ac))
}

/// The entries of the last of the first `n` quantization tables for slot
/// `id`.
pub open spec fn quant_slot(quant: Seq<Quant>, n: nat, id: int) -> Option<Seq<u16>>
    decreases n,
{
    if n == 0 {
        None
    } else if quant[n - 1].id == id {
        Some(quant[n - 1].values)
    } else {
        quant_slot(quant, (n - 1) as nat, id)
    }
}

/// The quantization tables of the four slots.
pub open spec fn quant_slots(quant: Seq<Quant>) -> Seq<Option<Seq<u16>>> {
    Seq::new(4, |id: int| quant_slot(quant, quant.len(), id))
}

/// The model of a slot that refers to a table.
pub open spec fn quant_refs(slots: Seq<Option<&QuantTable>>) -> Seq<Option<Seq<u16>>> {
    slots.map_values(
        |o: Option<&QuantTable>|
            match o {
                Some(q) => Some(q.values@),
                None => None,
            },
    )
}

/// The last of the first `n` tables for slot `id`.
pub open spec fn last_table(qts: Seq<QuantTable>, n: nat, id: int) -> Option<QuantTable>
    decreases n,
{
    if n == 0 {
        None
    } else if qts[n - 1].id == id {
        Some(qts[n - 1])
    } else {
        last_table(qts, (n - 1) as nat, id)
    }
}

/// Arranges quantization tables by their slots. A later table for a slot
/// replaces an earlier one.
pub fn index_quant_tables<'a>(qts: &'a [QuantTable]) -> (out: [Option<&'a QuantTable>; 4])
    requires
        forall|i: int| 0 <= i < qts@.len() ==> (#[trigger] qts@[i]).id <= 3,
    ensures
        forall|id: int|
            0 <= id < 4 ==> match #[trigger] out@[id] {
                Some(q) => last_table(qts@, qts@.len(), id) == Some(*q),
                None => last_table(qts@, qts@.len(), id) is None,
            },
        forall|id: int| 0 <= id < 4 ==> (#[trigger] out@[id] matches Some(q) ==> q.id == id),
        quant_refs(out@) == quant_slots(quants(qts@)),
{
    let mut out: [Option<&'a QuantTable>; 4] = [None, None, None, None];
    let n: usize = qts.len();
    for i in 0..n
        invariant
            n == qts@.len(),
            forall|k: int| 0 <= k < qts@.len() ==> (#[trigger] qts@[k]).id <= 3,
            forall|id: int|
                0 <= id < 4 ==> match #[trigger] out@[id] {
                    Some(q) => last_table(qts@, i as nat, id) == Some(*q),
                    None => last_table(qts@, i as nat, id) is None,
                },
            forall|id: int| 0 <= id < 4 ==> (#[trigger] out@[id] matches Some(q) ==> q.id == id),
            forall|id: int|
                0 <= id < 4 ==> #[trigger] quant_refs(out@)[id] == quant_slot(quants(qts@), i as nat, id),
    {
        let qt = &qts[i];
        assert(qt.id <= 3);
        let ghost before = out@;
        out[qt.id as usize] = Some(qt);
        assert(quant_refs(out@) =~= quant_refs(before).update(qt.id as int, Some(qt.values@)));
    }
    assert(quant_refs(out@) =~= quant_slots(quants(qts@)));
    out
}

/// The coefficients of a block so far, where its decoding has got to, and
/// the error that stopped it, if one did.
pub ghost struct Block {
    pub br: BitState,
    pub prev_dc: int,
    pub coef: Seq<i16>,
    pub err: Option<DecodeError>,
}

/// A dequantized coefficient, kept to 16 bits.
pub open spec fn dequantized(v: int, q: u16) -> i16 {
    wrap16(v * q) as i16
}

/// Decodes AC terms from zig-zag position `k` on.
pub open spec fn read_ac_terms(src: Seq<u8>, b: Block, book: CodeBook, qt: Seq<u16>, k: int) -> Block
    decreases 80 - k,
{
    if k >= 64 {
        b
    } else {
        let (br, r) = read_ac(src, b.br, book);
        match r {
            Err(e) => Block { br, err: Some(e), ..b },
            Ok((run, size, bits)) => {
                if size == 0 {
                    if run == 15 {
                        read_ac_terms(src, Block { br, ..b }, book, qt, k + 16)
                    } else {
                        Block { br, ..b }
                    }
                } else if k + run >= 64 {
                    Block { br, err: Some(DecodeError::Malformed("AC run exceeded block")), ..b }
                } else {
                    let at = ZIGZAG[k + run] as int;
                    let coef = b.coef.update(at, dequantized(extended(bits, size), qt[at]));
                    read_ac_terms(src, Block { br, coef, ..b }, book, qt, k + run + 1)
                }
            },
        }
    }
}

/// Decodes a block into dequantized coefficients in natural order. `coef`
/// holds what stands there before.
pub open spec fn read_block(
    src: Seq<u8>,
    br: BitState,
    dc: CodeBook,
    ac: CodeBook,
    qt: Seq<u16>,
    prev_dc: int,
    coef: Seq<i16>,
) -> Block {
    let (br1, r) = read_dc(src, br, dc);
    match r {
        Err(e) => Block { br: br1, prev_dc, coef, err: Some(e) },
        Ok((size, bits)) => {
            let diff = if size == 0 {
                0
            } else {
                extended(bits, size)
            };
            let next = wrap32(prev_dc + diff);
            read_ac_terms(
                src,
                Block { br: br1, prev_dc: next, coef: coef.update(0, dequantized(next, qt[0])), err: None },
                ac,
                qt,
                1,
            )
        },
    }
}

/// Reads an AC term through the tables of a slot.
fn next_ac(br: &mut BitReader, tbl: &AcTablePair) -> (r: Result<(u8, u8, u32)>)
    requires
        old(br).inv(),
        tbl.wf(),
    ensures
        final(br).inv(),
        final(br).data() == old(br).data(),
        ({
            let (s, v) = read_ac(old(br).data(), old(br)@, tbl.slow.book());
            &&& final(br)@ == s
            &&& match v {
                Ok((run, size, bits)) => r matches Ok(t) && t.0 == run && t.1 == size && t.2 == bits && run
                    <= 15 && size <= 15 && bits < 0x1_0000,
                Err(e) => r == Err::<(u8, u8, u32), DecodeError>(e),
            }
        }),
{
    proof {
        lemma_fast_ac_is_read_ac(br.data(), br@, tbl.slow.book());
        lemma_ensure_bits_settles(br.data(), br@, 10);
    }
    let fast = match decode_ac_fast(br, &tbl.fast) {
        Ok(f) => f,
        Err(e) => {
            return Err(e);
        },
    };
    proof {
        lemma_small_bits();
    }
    match fast {
        Some(f) => Ok((f.run, f.size, f.magnitude_raw)),
        None => {
            let rs = match br.decode_symbol(&tbl.slow) {
                Ok(v) => v,
                Err(e) => {
                    return Err(e);
                },
            };
            let size: u8 = rs % 16;
            if size > 0 {
                let bits = match br.get_bits(size as u32) {
                    Ok(v) => v,
                    Err(e) => {
                        return Err(e);
                    },
                };
                Ok((rs / 16, size, bits))
            } else {
                Ok((rs / 16, 0, 0))
            }
        },
    }
}

/// Reads a DC term through the tables of a slot.
fn next_dc(br: &mut BitReader, tbl: &DcTablePair) -> (r: Result<(u8, u32)>)
    requires
        old(br).inv(),
        tbl.wf(),
    ensures
        final(br).inv(),
        final(br).data() == old(br).data(),
        ({
            let (s, v) = read_dc(old(br).data(), old(br)@, tbl.slow.book());
            &&& final(br)@ == s
            &&& match v {
                Ok((size, bits)) => r matches Ok(t) && t.0 == size && t.1 == bits && size <= 16 && bits < 0x1_0000,
                Err(e) => r == Err::<(u8, u32), DecodeError>(e),
            }
        }),
{
    proof {
        lemma_fast_dc_is_read_dc(br.data(), br@, tbl.slow.book());
        lemma_ensure_bits_settles(br.data(), br@, 10);
    }
    let fast = match decode_dc_fast(br, &tbl.fast) {
        Ok(f) => f,
        Err(e) => {
            return Err(e);
        },
    };
    proof {
        lemma_small_bits();
    }
    match fast {
        Some(f) => Ok((f.size, f.magnitude_raw)),
        None => {
            let size = match br.decode_symbol(&tbl.slow) {
                Ok(v) => v,
                Err(e) => {
                    return Err(e);
                },
            };
            if size == 0 {
                Ok((0, 0))
            } else if size > 16 {
                Err(DecodeError::Malformed("DC magnitude category > 16"))
            } else {
                match br.get_bits(size as u32) {
                    Ok(v) => Ok((size, v)),
                    Err(e) => Err(e),
                }
            }
        },
    }
}

/// Sixteen bits or fewer hold less than 65536.
proof fn lemma_small_bits()
    ensures
        forall|n: nat| n <= 16 ==> #[trigger] pow2(n) <= 0x1_0000,
{
    lemma2_to64();
    assert forall|n: nat| n <= 16 implies #[trigger] pow2(n) <= 0x1_0000 by {
        if n < 16 {
            lemma_pow2_strictly_increases(n, 16);
        }
    }
}

/// Decodes the next block and writes its dequantized coefficients, in
/// natural order, into `nat_coef`, which the caller has cleared. The DC
/// predictor is brought up to date.
pub fn decode_block_baseline(
    br: &mut BitReader,
    dc_tbl: &DcTablePair,
    ac_tbl: &AcTablePair,
    qt: &QuantTable,
    prev_dc: &mut i32,
    nat_coef: &mut [i16; 64],
) -> (r: Result<()>)
    requires
        old(br).inv(),
        dc_tbl.wf(),
        ac_tbl.wf(),
    ensures
        final(br).inv(),
        final(br).data() == old(br).data(),
        ({
            let b = read_block(
                old(br).data(),
                old(br)@,
                dc_tbl.slow.book(),
                ac_tbl.slow.book(),
                qt.values@,
                *old(prev_dc) as int,
                old(nat_coef)@,
            );
            &&& final(br)@ == b.br
            &&& *final(prev_dc) == b.prev_dc
            &&& final(nat_coef)@ == b.coef
            &&& r == match b.err {
                Some(e) => Err(e),
                None => Ok(()),
            }
        }),
{
    let ghost src = br.data();
    let ghost acb = ac_tbl.slow.book();
    let ghost target = read_block(
        src,
        br@,
        dc_tbl.slow.book(),
        acb,
        qt.values@,
        *prev_dc as int,
        nat_coef@,
    );
    let dc = match next_dc(br, dc_tbl) {
        Ok(t) => t,
        Err(e) => {
            return Err(e);
        },
    };
    let diff: i32 = if dc.0 == 0 {
        0
    } else {
        extend(dc.1, dc.0 as u32)
    };
    *prev_dc = prev_dc.wrapping_add(diff);
    nat_coef[0] = dequantize(*prev_dc, qt.values[0]);
    let mut k: usize = 1;
    while k < 64
        invariant
            1 <= k <= 80,
            br.inv(),
            br.data() == src,
            src == old(br).data(),
            ac_tbl.wf(),
            acb == ac_tbl.slow.book(),
            target == read_block(
                old(br).data(),
                old(br)@,
                dc_tbl.slow.book(),
                acb,
                qt.values@,
                *old(prev_dc) as int,
                old(nat_coef)@,
            ),
            target == read_ac_terms(
                src,
                Block { br: br@, prev_dc: *prev_dc as int, coef: nat_coef@, err: None },
                acb,
                qt.values@,
                k as int,
            ),
        decreases 80 - k,
    {
        let (run, size, bits) = match next_ac(br, ac_tbl) {
            Ok(t) => t,
            Err(e) => {
                return Err(e);
            },
        };
        if size == 0 {
            if run == 15 {
                k = k + 16;
                continue;
            }
            return Ok(());
        }
        k = k + run as usize;
        if k >= 64 {
            return Err(DecodeError::Malformed("AC run exceeded block"));
        }
        proof {
            law_zigzag_is_permutation(k as int);
        }
        let at = ZIGZAG[k];
        nat_coef[at] = dequantize(extend(bits, size as u32), qt.values[at]);
        k = k + 1;
    }
    Ok(())
}

/// Exec form of [`dequantized`].
fn dequantize(v: i32, q: u16) -> (r: i16)
    ensures
        r == dequantized(v as int, q),
{
    assert((q as i16) == (q + 32768) % 65536 - 32768) by (bit_vector);
    proof {
        lemma_wrap16_mul(v as int, q as int);
    }
    mul16(trunc16(v), q as i16)
}

/// The next marker at or after `pos` and the position past it. Stuffed
/// bytes are no markers.
pub open spec fn next_marker(src: Seq<u8>, pos: int) -> Option<(u8, int)>
    decreases src.len() - pos,
{
    if pos < 0 || pos >= src.len() {
        None
    } else if src[pos] != 0xFF {
        next_marker(src, pos + 1)
    } else if pos + 1 >= src.len() {
        None
    } else if src[pos + 1] == 0 {
        next_marker(src, pos + 2)
    } else {
        Some((src[pos + 1], pos + 2))
    }
}

/// `m` is a restart marker.
pub open spec fn is_rst(m: u8) -> bool {
    0xD0 <= m <= 0xD7
}

/// Realigns the reader at the restart marker that is due: buffered bits are
/// discarded, and so are bytes up to the next marker.
pub open spec fn restart(src: Seq<u8>, br: BitState) -> (BitState, Option<DecodeError>) {
    let found = match br.marker {
        Some(m) => Some((m, br.pos)),
        None => next_marker(src, br.pos),
    };
    match found {
        None => (
            BitState {
                pos: if br.pos < src.len() {
                    src.len() as int
                } else {
                    br.pos
                },
                buf: 0,
                nbits: 0,
                marker: None,
            },
            Some(DecodeError::UnexpectedEof),
        ),
        Some((m, pos)) => if is_rst(m) {
            (BitState { pos, buf: 0, nbits: 0, marker: None }, None)
        } else {
            (
                BitState { pos, buf: 0, nbits: 0, marker: Some(m) },
                Some(DecodeError::Malformed("expected RSTn between intervals")),
            )
        },
    }
}

/// An upper bound on the data bits that are left.
pub open spec fn bits_left(src: Seq<u8>, s: BitState) -> int {
    8 * (if s.pos < src.len() {
        src.len() - s.pos
    } else {
        0
    }) + s.nbits
}

/// Reading a byte of a stream of whole bytes skips to the same marker.
proof fn lemma_byte_read_keeps_marker(src: Seq<u8>, s: BitState)
    requires
        s.wf(),
        s.pos >= 0,
        s.marker is None,
        s.nbits % 8 == 0,
    ensures
        ({
            let (t, r) = read_bits(src, s, 8);
            match r {
                Ok(_) => {
                    &&& t.nbits % 8 == 0
                    &&& bits_left(src, t) < bits_left(src, s)
                    &&& match t.marker {
                        None => next_marker(src, t.pos) == next_marker(src, s.pos) && (s.pos < src.len()
                            ==> t.pos <= src.len()) && (s.pos >= src.len() ==> t.pos == s.pos),
                        Some(m) => next_marker(src, s.pos) == Some((m, t.pos)) && t.buf == 0 && t.nbits == 0,
                    }
                },
                Err(_) => {
                    &&& next_marker(src, s.pos) is None
                    &&& t == (BitState {
                        pos: if s.pos < src.len() {
                            src.len() as int
                        } else {
                            s.pos
                        },
                        buf: 0,
                        nbits: 0,
                        marker: None,
                    })
                },
            }
        }),
{
    lemma2_to64();
    if s.nbits < 8 {
        assert(s.nbits == 0);
        assert(s.buf == 0);
        reveal_with_fuel(next_marker, 5);
        reveal_with_fuel(fetch_until, 3);
    }
}

/// Discards everything up to the restart marker that is due, consumes it,
/// and resets the DC predictors. Any restart marker is accepted; `expected`
/// counts them modulo eight.
pub fn handle_restart(br: &mut BitReader, prev_dc: &mut [i32; 4], expected: &mut u8) -> (r: Result<()>)
    requires
        old(br).inv(),
        *old(expected) < 255,
    ensures
        final(br).inv(),
        final(br).data() == old(br).data(),
        ({
            let (s, err) = restart(old(br).data(), old(br)@);
            &&& final(br)@ == s
            &&& match err {
                Some(e) => r == Err::<(), DecodeError>(e) && final(prev_dc)@ == old(prev_dc)@ && *final(expected)
                    == *old(expected),
                None => r == Ok::<(), DecodeError>(()) && final(prev_dc)@ == seq![0i32, 0i32, 0i32, 0i32]
                    && *final(expected) == (*old(expected) + 1) % 8,
            }
        }),
{
    let ghost src = br.data();
    let ghost start = br@;
    let ghost target = restart(src, start);
    br.reset_bit_buffer();
    let ghost len = src.len();
    while br.marker().is_none()
        invariant
            br.inv(),
            br.data() == src,
            src == old(br).data(),
            start == old(br)@,
            target == restart(src, start),
            len == src.len(),
            br@.nbits % 8 == 0,
            br@.marker is Some ==> br@.buf == 0 && br@.nbits == 0,
            prev_dc@ == old(prev_dc)@,
            *expected == *old(expected),
            match start.marker {
                Some(m) => br@.marker == Some(m) && br@.pos == start.pos,
                None => match br@.marker {
                    Some(m) => next_marker(src, start.pos) == Some((m, br@.pos)),
                    None => next_marker(src, br@.pos) == next_marker(src, start.pos) && (start.pos < len
                        ==> br@.pos <= len) && (start.pos >= len ==> br@.pos == start.pos),
                },
            },
        decreases bits_left(src, br@),
    {
        proof {
            lemma_byte_read_keeps_marker(src, br@);
        }
        match br.get_bits(8) {
            Ok(_) => {},
            Err(e) => {
                return Err(e);
            },
        }
    }
    let m = match br.marker() {
        Some(m) => m,
        None => 0,
    };
    if !(0xD0 <= m && m <= 0xD7) {
        return Err(DecodeError::Malformed("expected RSTn between intervals"));
    }
    *expected = (*expected + 1) % 8;
    br.clear_marker();
    *prev_dc = [0i32, 0i32, 0i32, 0i32];
    assert(prev_dc@ =~= seq![0i32, 0i32, 0i32, 0i32]);
    Ok(())
}

/// Index of the first component from `i` on with identifier `id`.
pub open spec fn find_component_from(components: Seq<Component>, id: u8, i: int) -> Option<int>
    decreases components.len() - i,
{
    if i < 0 || i >= components.len() {
        None
    } else if components[i].id == id {
        Some(i)
    } else {
        find_component_from(components, id, i + 1)
    }
}

/// The component with identifier `id` and its index.
pub fn find_component(frame: &FrameHeader, id: u8) -> (r: Result<(usize, Component)>)
    ensures
        match find_component_from(frame.components@, id, 0) {
            Some(i) => r == Ok::<(usize, Component), DecodeError>((i as usize, frame.components@[i])) && 0 <= i
                < frame.components@.len() && i <= usize::MAX,
            None => r == Err::<(usize, Component), DecodeError>(
                DecodeError::Malformed("scan refers to unknown component"),
            ),
        },
{
    let n: usize = frame.components.len();
    let mut i: usize = 0;
    while i < n
        invariant
            n == frame.components@.len(),
            i <= n,
            find_component_from(frame.components@, id, i as int) == find_component_from(
                frame.components@,
                id,
                0,
            ),
        decreases n - i,
    {
        if frame.components[i].id == id {
            return Ok((i, frame.components[i]));
        }
        i = i + 1;
    }
    Err(DecodeError::Malformed("scan refers to unknown component"))
}

/// `a / b`, rounded up.
pub open spec fn ceil_div(a: int, b: int) -> int {
    (a + b - 1) / b
}

impl Frame {
    /// Number of MCUs in a row of an interleaved scan.
    pub open spec fn mcus_x(self) -> int {
        ceil_div(self.width as int, 8 * self.h_max())
    }

    /// Number of rows of MCUs in an interleaved scan.
    pub open spec fn mcus_y(self) -> int {
        ceil_div(self.height as int, 8 * self.v_max())
    }

    /// Width of the plane of component `i`, padded to whole MCUs.
    pub open spec fn stride(self, i: int) -> int {
        self.mcus_x() * self.components[i].h * 8
    }

    /// Height of the plane of component `i`, padded to whole MCUs.
    pub open spec fn padded_height(self, i: int) -> int {
        self.mcus_y() * self.components[i].v * 8
    }

    /// Width of the plane of component `i`.
    pub open spec fn plane_width(self, i: int) -> int {
        ceil_div(self.width * self.components[i].h, self.h_max() as int)
    }

    /// Height of the plane of component `i`.
    pub open spec fn plane_height(self, i: int) -> int {
        ceil_div(self.height * self.components[i].v, self.v_max() as int)
    }
}

/// One component's decoded samples.
pub struct DecodedPlane {
    /// The component.
    pub component: Component,
    /// Width of a row of samples, a multiple of 8.
    pub stride: usize,
    /// Number of rows of samples, a multiple of 8.
    pub padded_height: usize,
    /// Width of the plane without padding.
    pub plane_width: usize,
    /// Height of the plane without padding.
    pub plane_height: usize,
    /// Samples, row by row.
    pub samples: Vec<u8>,
}

/// All decoded samples of an image.
pub struct DecodedPlanes {
    pub width: u32,
    pub height: u32,
    pub components: Vec<DecodedPlane>,
}

impl DecodedPlane {
    /// The plane has the measures of component `i` of the frame.
    pub open spec fn fits(&self, frame: Frame, i: int) -> bool {
        &&& self.component == frame.components[i]
        &&& self.stride == frame.stride(i)
        &&& self.padded_height == frame.padded_height(i)
        &&& self.plane_width == frame.plane_width(i)
        &&& self.plane_height == frame.plane_height(i)
        &&& self.samples@.len() == frame.stride(i) * frame.padded_height(i)
    }
}

/// There is a plane for every component of the frame, with its measures.
pub open spec fn planes_fit(planes: Seq<DecodedPlane>, frame: Frame) -> bool {
    &&& planes.len() == frame.components.len()
    &&& forall|i: int| 0 <= i < planes.len() ==> (#[trigger] planes[i]).fits(frame, i)
}

/// The samples of all planes.
pub open spec fn plane_samples(planes: Seq<DecodedPlane>) -> Seq<Seq<u8>> {
    planes.map_values(|p: DecodedPlane| p.samples@)
}

/// The largest factor is the factor of some component, and no component
/// has a larger one.
proof fn lemma_max_factors(components: Seq<Component>, n: nat)
    requires
        1 <= n <= components.len(),
        forall|i: int| 0 <= i < components.len() ==> (#[trigger] components[i]).wf(),
    ensures
        max_h(components, n) == 1 || max_h(components, n) == 2 || max_h(components, n) == 4,
        max_v(components, n) == 1 || max_v(components, n) == 2 || max_v(components, n) == 4,
        forall|i: int|
            0 <= i < n ==> (#[trigger] components[i]).h <= max_h(components, n) && components[i].v <= max_v(
                components,
                n,
            ),
    decreases n,
{
    assert(components[n - 1].wf());
    if n > 1 {
        lemma_max_factors(components, (n - 1) as nat);
    }
}

impl Frame {
    /// Number of blocks in a row of a scan of component `i` alone.
    pub open spec fn blocks_x(self, i: int) -> int {
        ceil_div(self.width * self.components[i].h, 8 * self.h_max())
    }

    /// Number of rows of blocks in a scan of component `i` alone.
    pub open spec fn blocks_y(self, i: int) -> int {
        ceil_div(self.height * self.components[i].v, 8 * self.v_max())
    }
}

/// One axis of the geometry: `d` samples, a component factor `f` and the
/// largest factor `m`.
proof fn lemma_axis(d: int, f: int, m: int)
    requires
        1 <= d <= 16384,
        f == 1 || f == 2 || f == 4,
        m == 1 || m == 2 || m == 4,
        f <= m,
    ensures
        1 <= ceil_div(d, 8 * m) <= 2048,
        8 <= ceil_div(d, 8 * m) * f * 8 <= 16416,
        1 <= ceil_div(d * f, m) <= ceil_div(d, 8 * m) * f * 8,
        ceil_div(d * f, m) <= d,
        1 <= ceil_div(d * f, 8 * m) <= ceil_div(d, 8 * m) * f,
        (ceil_div(d, 8 * m) * f * 8) % 8 == 0,
        f == m ==> ceil_div(d * f, m) == d,
{
    lemma_ceil_div(d, 8 * m);
    lemma_ceil_div(d * f, 8 * m);
    lemma_ceil_div(d * f, m);
    lemma_axis_cases(d, f, m, ceil_div(d, 8 * m), ceil_div(d * f, 8 * m), ceil_div(d * f, m));
}

/// `ceil_div` rounds up.
pub proof fn lemma_ceil_div(a: int, b: int)
    requires
        b > 0,
    ensures
        a <= b * ceil_div(a, b) < a + b,
{
    lemma_fundamental_div_mod(a + b - 1, b);
    lemma_mod_bound(a + b - 1, b);
}

/// The facts of [`lemma_axis`], over the quotients.
proof fn lemma_axis_cases(d: int, f: int, m: int, w: int, b: int, p: int)
    requires
        1 <= d <= 16384,
        f == 1 || f == 2 || f == 4,
        m == 1 || m == 2 || m == 4,
        f <= m,
        d <= 8 * m * w < d + 8 * m,
        d * f <= 8 * m * b < d * f + 8 * m,
        d * f <= m * p < d * f + m,
    ensures
        1 <= w <= 2048,
        8 <= w * f * 8 <= 16416,
        1 <= p <= w * f * 8,
        p <= d,
        1 <= b <= w * f,
        (w * f * 8) % 8 == 0,
        f == m ==> p == d,
{
    if m == 1 {
        assert(8 * m * w == 8 * w && 8 * m * b == 8 * b && m * p == p);
        assert(d * f == d && w * f == w);
    } else if m == 2 {
        assert(8 * m * w == 16 * w && 8 * m * b == 16 * b && m * p == 2 * p);
        if f == 1 {
            assert(d * f == d && w * f == w);
        } else {
            assert(d * f == 2 * d && w * f == 2 * w);
        }
    } else {
        assert(8 * m * w == 32 * w && 8 * m * b == 32 * b && m * p == 4 * p);
        if f == 1 {
            assert(d * f == d && w * f == w);
        } else if f == 2 {
            assert(d * f == 2 * d && w * f == 2 * w);
        } else {
            assert(d * f == 4 * d && w * f == 4 * w);
        }
    }
}

/// Measures of the planes of a frame.
pub proof fn lemma_geometry(frame: Frame, i: int)
    requires
        frame.wf(),
        0 <= i < frame.components.len(),
    ensures
        frame.h_max() == 1 || frame.h_max() == 2 || frame.h_max() == 4,
        frame.v_max() == 1 || frame.v_max() == 2 || frame.v_max() == 4,
        frame.components[i].wf(),
        frame.components[i].h <= frame.h_max(),
        frame.components[i].v <= frame.v_max(),
        1 <= frame.mcus_x() <= 2048,
        1 <= frame.mcus_y() <= 2048,
        8 <= frame.stride(i) <= 16416,
        8 <= frame.padded_height(i) <= 16416,
        1 <= frame.plane_width(i) <= frame.stride(i),
        1 <= frame.plane_height(i) <= frame.padded_height(i),
        frame.plane_width(i) <= frame.width,
        frame.plane_height(i) <= frame.height,
        1 <= frame.blocks_x(i) <= frame.mcus_x() * frame.components[i].h,
        1 <= frame.blocks_y(i) <= frame.mcus_y() * frame.components[i].v,
        frame.components[i].h == frame.h_max() ==> frame.plane_width(i) == frame.width,
        frame.components[i].v == frame.v_max() ==> frame.plane_height(i) == frame.height,
        0 < frame.stride(i) * frame.padded_height(i) <= 269_485_056,
{
    lemma_max_factors(frame.components, frame.components.len());
    let c = frame.components[i];
    lemma_axis(frame.width as int, c.h as int, frame.h_max() as int);
    lemma_axis(frame.height as int, c.v as int, frame.v_max() as int);
    let a = frame.stride(i);
    let b = frame.padded_height(i);
    assert(0 < a * b <= 16416 * 16416) by (nonlinear_arith)
        requires
            8 <= a <= 16416,
            8 <= b <= 16416,
    ;
}

/// Exec form of [`ceil_div`].
pub fn div_up(a: u32, b: u32) -> (r: u32)
    requires
        b > 0,
        a + b <= 0xffff_ffff,
    ensures
        r == ceil_div(a as int, b as int),
{
    (a + b - 1) / b
}

/// Allocates a plane for every component, padded to whole MCUs and
/// cleared.
pub fn allocate_planes(frame: &FrameHeader) -> (planes: Vec<DecodedPlane>)
    requires
        frame@.wf(),
    ensures
        planes_fit(planes@, frame@),
        plane_samples(planes@) == blank_samples(frame@),
{
    proof {
        lemma_geometry(frame@, 0);
    }
    let h_max: u32 = frame.h_max() as u32;
    let v_max: u32 = frame.v_max() as u32;
    let mcus_x: u32 = div_up(frame.width as u32, h_max * 8);
    let mcus_y: u32 = div_up(frame.height as u32, v_max * 8);
    let mut planes: Vec<DecodedPlane> = Vec::new();
    let n: usize = frame.components.len();
    for i in 0..n
        invariant
            n == frame.components@.len(),
            frame@.wf(),
            h_max == frame@.h_max(),
            v_max == frame@.v_max(),
            mcus_x == frame@.mcus_x(),
            mcus_y == frame@.mcus_y(),
            planes@.len() == i,
            forall|k: int| 0 <= k < i ==> (#[trigger] planes@[k]).fits(frame@, k),
            forall|k: int| 0 <= k < i ==> (#[trigger] planes@[k]).samples@ == blank_samples(frame@)[k],
    {
        let comp = frame.components[i];
        proof {
            lemma_geometry(frame@, i as int);
            assert(frame.width * comp.h <= 16384 * 4) by (nonlinear_arith)
                requires
                    frame.width <= 16384,
                    comp.h <= 4,
            ;
            assert(frame.height * comp.v <= 16384 * 4) by (nonlinear_arith)
                requires
                    frame.height <= 16384,
                    comp.v <= 4,
            ;
            assert(mcus_x * comp.h <= 2048 * 4) by (nonlinear_arith)
                requires
                    mcus_x <= 2048,
                    comp.h <= 4,
            ;
            assert(mcus_y * comp.v <= 2048 * 4) by (nonlinear_arith)
                requires
                    mcus_y <= 2048,
                    comp.v <= 4,
            ;
        }
        let plane_width: usize = div_up(frame.width as u32 * comp.h as u32, h_max) as usize;
        let plane_height: usize = div_up(frame.height as u32 * comp.v as u32, v_max) as usize;
        let stride: usize = mcus_x as usize * comp.h as usize * 8;
        let padded_height: usize = mcus_y as usize * comp.v as usize * 8;
        let samples: Vec<u8> = vec![0u8; stride * padded_height];
        assert(samples@ =~= blank_samples(frame@)[i as int]);
        planes.push(
            DecodedPlane { component: comp, stride, padded_height, plane_width, plane_height, samples },
        );
    }
    assert(plane_samples(planes@) =~= blank_samples(frame@));
    planes
}

/// Cleared planes of a frame.
pub open spec fn blank_samples(frame: Frame) -> Seq<Seq<u8>> {
    Seq::new(
        frame.components.len(),
        |i: int| Seq::new((frame.stride(i) * frame.padded_height(i)) as nat, |k: int| 0u8),
    )
}

/// Sample `k` of a plane with rows of `stride` samples lies in the 8x8
/// block at `(x, y)`.
pub open spec fn in_block(k: int, stride: int, x: int, y: int) -> bool {
    &&& y <= k / stride < y + 8
    &&& x <= k % stride < x + 8
}

/// A plane with an 8x8 block written at `(x, y)`.
pub open spec fn placed(samples: Seq<u8>, stride: int, x: int, y: int, block: Seq<u8>) -> Seq<u8> {
    Seq::new(
        samples.len(),
        |k: int|
            if in_block(k, stride, x, y) {
                block[8 * (k / stride - y) + k % stride - x]
            } else {
                samples[k]
            },
    )
}

/// Writes an 8x8 block of samples at `(base_x, base_y)`.
pub fn place_block(plane: &mut DecodedPlane, base_x: usize, base_y: usize, block: &[u8; 64])
    requires
        base_x + 8 <= old(plane).stride,
        (base_y + 8) * old(plane).stride <= old(plane).samples@.len(),
        old(plane).samples@.len() <= 269_485_056,
    ensures
        final(plane).samples@ == placed(
            old(plane).samples@,
            old(plane).stride as int,
            base_x as int,
            base_y as int,
            block@,
        ),
        final(plane).component == old(plane).component,
        final(plane).stride == old(plane).stride,
        final(plane).padded_height == old(plane).padded_height,
        final(plane).plane_width == old(plane).plane_width,
        final(plane).plane_height == old(plane).plane_height,
{
    let stride = plane.stride;
    let ghost before = plane.samples@;
    let ghost want = placed(before, stride as int, base_x as int, base_y as int, block@);
    for j in 0..8usize
        invariant
            plane.stride == stride,
            plane.component == old(plane).component,
            plane.padded_height == old(plane).padded_height,
            plane.plane_width == old(plane).plane_width,
            plane.plane_height == old(plane).plane_height,
            base_x + 8 <= stride,
            (base_y + 8) * stride <= before.len() <= 269_485_056,
            plane.samples@.len() == before.len(),
            want == placed(before, stride as int, base_x as int, base_y as int, block@),
            forall|k: int|
                0 <= k < before.len() ==> #[trigger] plane.samples@[k] == if k / (stride as int) < base_y + j {
                    want[k]
                } else {
                    before[k]
                },
    {
        let ghost row = (base_y + j) * stride;
        proof {
            assert(row + stride <= (base_y + 8) * stride) by (nonlinear_arith)
                requires
                    row == (base_y + j) * stride,
                    j < 8,
                    stride >= 0,
            ;
            assert(0 <= row && base_y + j <= row) by (nonlinear_arith)
                requires
                    row == (base_y + j) * stride,
                    base_y >= 0,
                    j >= 0,
                    stride >= 1,
            ;
        }
        let off: usize = (base_y + j) * stride + base_x;
        for i in 0..8usize
            invariant
                j < 8,
                plane.stride == stride,
                plane.component == old(plane).component,
                plane.padded_height == old(plane).padded_height,
                plane.plane_width == old(plane).plane_width,
                plane.plane_height == old(plane).plane_height,
                base_x + 8 <= stride,
                off == row + base_x,
                row == (base_y + j) * stride,
                0 <= row,
                row + stride <= before.len() <= 269_485_056,
                plane.samples@.len() == before.len(),
                want == placed(before, stride as int, base_x as int, base_y as int, block@),
                forall|k: int|
                    0 <= k < before.len() ==> #[trigger] plane.samples@[k] == if k / (stride as int) < base_y + j
                        || off <= k < off + i {
                        want[k]
                    } else {
                        before[k]
                    },
        {
            proof {
                assert(off + i == stride * (base_y + j) + (base_x + i)) by (nonlinear_arith)
                    requires
                        off == row + base_x,
                        row == (base_y + j) * stride,
                ;
                lemma_fundamental_div_mod_converse(
                    off + i,
                    stride as int,
                    base_y + j,
                    base_x + i,
                );
                assert(want[off + i] == block@[8 * j + i]);
            }
            plane.samples[off + i] = block[8 * j + i];
        }
        proof {
            assert forall|k: int| 0 <= k < before.len() implies #[trigger] plane.samples@[k] == if k / (
            stride as int) < base_y + j + 1 {
                want[k]
            } else {
                before[k]
            } by {
                lemma_fundamental_div_mod(k, stride as int);
                let q = k / (stride as int);
                if q == base_y + j {
                    assert(stride * q == row) by (nonlinear_arith)
                        requires
                            q == base_y + j,
                            row == (base_y + j) * stride,
                    ;
                } else if off <= k < off + 8 {
                    lemma_fundamental_div_mod_converse(k, stride as int, base_y + j, k - row);
                }
            }
        }
    }
    proof {
        assert forall|k: int| 0 <= k < before.len() implies plane.samples@[k] == want[k] by {}
        assert(plane.samples@ =~= want);
    }
}

/// Everything that a scan is decoded with.
pub ghost struct ScanContext {
    pub src: Seq<u8>,
    pub frame: Frame,
    pub scan: Scan,
    pub interval: int,
    pub dc: Seq<Option<CodeBook>>,
    pub ac: Seq<Option<CodeBook>>,
    pub quant: Seq<Option<Seq<u16>>>,
}

/// How far a scan has got: the reader, the DC predictors by position in
/// the scan, the number of MCUs since the last restart, the samples, and
/// the error that stopped the scan, if one did.
pub ghost struct ScanState {
    pub br: BitState,
    pub prev_dc: Seq<i32>,
    pub since: int,
    pub planes: Seq<Seq<u8>>,
    pub err: Option<DecodeError>,
}

/// The table in slot `id`, if there is such a slot and it is filled.
pub open spec fn slot<T>(slots: Seq<Option<T>>, id: int) -> Option<T> {
    if 0 <= id < slots.len() {
        slots[id]
    } else {
        None
    }
}

/// A component of a scan with its tables.
pub ghost struct ScanPart {
    pub index: int,
    pub component: Component,
    pub dc: CodeBook,
    pub ac: CodeBook,
    pub quant: Seq<u16>,
}

/// Looks up the component and the tables of entry `ci` of the scan.
pub open spec fn scan_part(ctx: ScanContext, ci: int) -> std::result::Result<ScanPart, DecodeError> {
    let sc = ctx.scan.components[ci];
    match find_component_from(ctx.frame.components, sc.component_id, 0) {
        None => Err(DecodeError::Malformed("scan refers to unknown component")),
        Some(index) => match slot(ctx.dc, sc.dc_table as int) {
            None => Err(DecodeError::Malformed("scan refers to undefined DC table")),
            Some(dc) => match slot(ctx.ac, sc.ac_table as int) {
                None => Err(DecodeError::Malformed("scan refers to undefined AC table")),
                Some(ac) => match slot(ctx.quant, ctx.frame.components[index].qt as int) {
                    None => Err(DecodeError::Malformed("scan refers to undefined quant table")),
                    Some(quant) => Ok(
                        ScanPart { index, component: ctx.frame.components[index], dc, ac, quant },
                    ),
                },
            },
        },
    }
}

/// Before an MCU, a restart if one is due.
pub open spec fn restart_if_due(ctx: ScanContext, s: ScanState) -> ScanState {
    if s.err is None && ctx.interval > 0 && s.since == ctx.interval {
        let (br, err) = restart(ctx.src, s.br);
        if err is Some {
            ScanState { br, err, ..s }
        } else {
            ScanState { br, prev_dc: seq![0i32, 0i32, 0i32, 0i32], since: 0, ..s }
        }
    } else {
        s
    }
}

/// A block of no coefficients.
pub open spec fn zero_block() -> Seq<i16> {
    Seq::new(64, |i: int| 0i16)
}

/// Decodes one block of entry `ci` and writes it at block column `bx` and
/// block row `by` of its plane.
pub open spec fn block_step(ctx: ScanContext, s: ScanState, ci: int, part: ScanPart, bx: int, by: int) -> ScanState {
    if s.err is Some {
        s
    } else {
        let b = read_block(ctx.src, s.br, part.dc, part.ac, part.quant, s.prev_dc[ci] as int, zero_block());
        if b.err is Some {
            ScanState { br: b.br, prev_dc: s.prev_dc.update(ci, b.prev_dc as i32), err: b.err, ..s }
        } else {
            ScanState {
                br: b.br,
                prev_dc: s.prev_dc.update(ci, b.prev_dc as i32),
                planes: s.planes.update(
                    part.index,
                    placed(
                        s.planes[part.index],
                        ctx.frame.stride(part.index),
                        8 * bx,
                        8 * by,
                        idct_block(b.coef),
                    ),
                ),
                ..s
            }
        }
    }
}

/// The first `n` blocks of entry `ci` in the MCU at column `mx` and row
/// `my`.
pub open spec fn mcu_blocks(ctx: ScanContext, s: ScanState, ci: int, part: ScanPart, mx: int, my: int, n: nat) -> ScanState
    decreases n,
{
    if n == 0 {
        s
    } else {
        let t = mcu_blocks(ctx, s, ci, part, mx, my, (n - 1) as nat);
        let h = part.component.h as int;
        let v = part.component.v as int;
        block_step(ctx, t, ci, part, mx * h + (n - 1) % h, my * v + (n - 1) / h)
    }
}

/// All blocks of entry `ci` in an MCU.
pub open spec fn mcu_entry(ctx: ScanContext, s: ScanState, ci: int, mx: int, my: int) -> ScanState {
    if s.err is Some {
        s
    } else {
        match scan_part(ctx, ci) {
            Err(e) => ScanState { err: Some(e), ..s },
            Ok(part) => mcu_blocks(
                ctx,
                s,
                ci,
                part,
                mx,
                my,
                (part.component.h * part.component.v) as nat,
            ),
        }
    }
}

/// The first `n` entries of the scan in an MCU.
pub open spec fn mcu_entries(ctx: ScanContext, s: ScanState, mx: int, my: int, n: nat) -> ScanState
    decreases n,
{
    if n == 0 {
        s
    } else {
        mcu_entry(ctx, mcu_entries(ctx, s, mx, my, (n - 1) as nat), n - 1, mx, my)
    }
}

/// One MCU of an interleaved scan.
pub open spec fn mcu_step(ctx: ScanContext, s: ScanState, m: int) -> ScanState {
    if s.err is Some {
        s
    } else {
        let w = ctx.frame.mcus_x();
        let t = mcu_entries(ctx, restart_if_due(ctx, s), m % w, m / w, ctx.scan.components.len());
        if t.err is Some {
            t
        } else {
            ScanState { since: t.since + 1, ..t }
        }
    }
}

/// The first `n` MCUs of an interleaved scan.
pub open spec fn mcus(ctx: ScanContext, s: ScanState, n: nat) -> ScanState
    decreases n,
{
    if n == 0 {
        s
    } else {
        mcu_step(ctx, mcus(ctx, s, (n - 1) as nat), n - 1)
    }
}

/// The first `n` blocks of a scan of a single component.
pub open spec fn single_blocks(ctx: ScanContext, s: ScanState, part: ScanPart, n: nat) -> ScanState
    decreases n,
{
    if n == 0 {
        s
    } else {
        let t = single_blocks(ctx, s, part, (n - 1) as nat);
        let w = ctx.frame.blocks_x(part.index);
        let u = block_step(ctx, restart_if_due(ctx, t), 0, part, (n - 1) % w, (n - 1) / w);
        if u.err is Some {
            u
        } else {
            ScanState { since: u.since + 1, ..u }
        }
    }
}

/// A whole scan from byte `start` on.
#[verifier::opaque]
pub open spec fn baseline_scan(ctx: ScanContext, start: int, planes: Seq<Seq<u8>>) -> ScanState {
    let s = ScanState {
        br: BitState { pos: start, buf: 0, nbits: 0, marker: None },
        prev_dc: seq![0i32, 0i32, 0i32, 0i32],
        since: 0,
        planes,
        err: None,
    };
    if ctx.scan.components.len() > 1 {
        mcus(ctx, s, (ctx.frame.mcus_x() * ctx.frame.mcus_y()) as nat)
    } else {
        match scan_part(ctx, 0) {
            Err(e) => ScanState { err: Some(e), ..s },
            Ok(part) => single_blocks(
                ctx,
                s,
                part,
                (ctx.frame.blocks_x(part.index) * ctx.frame.blocks_y(part.index)) as nat,
            ),
        }
    }
}

/// An error stops the blocks of an MCU entry.
proof fn lemma_mcu_blocks_stop(ctx: ScanContext, s: ScanState, ci: int, part: ScanPart, mx: int, my: int, a: nat, b: nat)
    requires
        a <= b,
        mcu_blocks(ctx, s, ci, part, mx, my, a).err is Some,
    ensures
        mcu_blocks(ctx, s, ci, part, mx, my, b) == mcu_blocks(ctx, s, ci, part, mx, my, a),
    decreases b,
{
    if a < b {
        lemma_mcu_blocks_stop(ctx, s, ci, part, mx, my, a, (b - 1) as nat);
    }
}

/// An error stops the entries of an MCU.
proof fn lemma_mcu_entries_stop(ctx: ScanContext, s: ScanState, mx: int, my: int, a: nat, b: nat)
    requires
        a <= b,
        mcu_entries(ctx, s, mx, my, a).err is Some,
    ensures
        mcu_entries(ctx, s, mx, my, b) == mcu_entries(ctx, s, mx, my, a),
    decreases b,
{
    if a < b {
        lemma_mcu_entries_stop(ctx, s, mx, my, a, (b - 1) as nat);
    }
}

/// An error stops the MCUs of a scan.
proof fn lemma_mcus_stop(ctx: ScanContext, s: ScanState, a: nat, b: nat)
    requires
        a <= b,
        mcus(ctx, s, a).err is Some,
    ensures
        mcus(ctx, s, b) == mcus(ctx, s, a),
    decreases b,
{
    if a < b {
        lemma_mcus_stop(ctx, s, a, (b - 1) as nat);
    }
}

/// An error stops the blocks of a scan of a single component.
proof fn lemma_single_blocks_stop(ctx: ScanContext, s: ScanState, part: ScanPart, a: nat, b: nat)
    requires
        a <= b,
        single_blocks(ctx, s, part, a).err is Some,
    ensures
        single_blocks(ctx, s, part, b) == single_blocks(ctx, s, part, a),
    decreases b,
{
    if a < b {
        lemma_single_blocks_stop(ctx, s, part, a, (b - 1) as nat);
    }
}

/// The tables that a scan is decoded with, by slot.
struct ScanTables<'a> {
    dc: &'a [Option<DcTablePair>; 4],
    ac: &'a [Option<AcTablePair>; 4],
    quant: &'a [Option<&'a QuantTable>; 4],
}

impl<'a> ScanTables<'a> {
    /// The tables are those of the context.
    spec fn model(&self, ctx: ScanContext) -> bool {
        &&& dc_slots_wf(self.dc@)
        &&& ac_slots_wf(self.ac@)
        &&& dc_books(self.dc@) == ctx.dc
        &&& ac_books(self.ac@) == ctx.ac
        &&& quant_refs(self.quant@) == ctx.quant
    }
}

/// A component of a scan with its tables.
struct Part<'a> {
    index: usize,
    component: Component,
    dc: &'a DcTablePair,
    ac: &'a AcTablePair,
    quant: &'a QuantTable,
}

impl<'a> Part<'a> {
    /// The tables are in order.
    spec fn wf(&self) -> bool {
        &&& self.dc.wf()
        &&& self.ac.wf()
    }

    /// The model of the part.
    spec fn model(&self) -> ScanPart {
        ScanPart {
            index: self.index as int,
            component: self.component,
            dc: self.dc.slow.book(),
            ac: self.ac.slow.book(),
            quant: self.quant.values@,
        }
    }
}

/// Looks up the component and the tables of entry `ci` of the scan.
fn find_part<'a>(
    frame: &FrameHeader,
    scan: &ScanHeader,
    ci: usize,
    tables: &ScanTables<'a>,
    Ghost(ctx): Ghost<ScanContext>,
) -> (r: Result<Part<'a>>)
    requires
        ctx.frame == frame@,
        ctx.scan == scan@,
        frame@.wf(),
        tables.model(ctx),
        ci < scan@.components.len(),
    ensures
        match scan_part(ctx, ci as int) {
            Err(e) => r == Err::<Part<'a>, DecodeError>(e),
            Ok(part) => r matches Ok(p) && p.wf() && p.model() == part && 0 <= part.index
                < frame@.components.len() && part.component == frame@.components[part.index],
        },
{
    let sc = scan.components[ci];
    let (index, component) = match find_component(frame, sc.component_id) {
        Ok(t) => t,
        Err(e) => {
            return Err(e);
        },
    };
    proof {
        lemma_geometry(frame@, index as int);
    }
    if sc.dc_table > 3 {
        return Err(DecodeError::Malformed("scan refers to undefined DC table"));
    }
    assert(ctx.dc[sc.dc_table as int] == dc_books(tables.dc@)[sc.dc_table as int]);
    let dc = match &tables.dc[sc.dc_table as usize] {
        Some(p) => p,
        None => {
            return Err(DecodeError::Malformed("scan refers to undefined DC table"));
        },
    };
    if sc.ac_table > 3 {
        return Err(DecodeError::Malformed("scan refers to undefined AC table"));
    }
    assert(ctx.ac[sc.ac_table as int] == ac_books(tables.ac@)[sc.ac_table as int]);
    let ac = match &tables.ac[sc.ac_table as usize] {
        Some(p) => p,
        None => {
            return Err(DecodeError::Malformed("scan refers to undefined AC table"));
        },
    };
    assert(ctx.quant[component.qt as int] == quant_refs(tables.quant@)[component.qt as int]);
    let quant = match tables.quant[component.qt as usize] {
        Some(q) => q,
        None => {
            return Err(DecodeError::Malformed("scan refers to undefined quant table"));
        },
    };
    Ok(Part { index, component, dc, ac, quant })
}

/// A block of a component lies within its plane.
pub proof fn lemma_block_in_plane(frame: Frame, i: int, bx: int, by: int)
    requires
        frame.wf(),
        0 <= i < frame.components.len(),
        0 <= bx < frame.mcus_x() * frame.components[i].h,
        0 <= by < frame.mcus_y() * frame.components[i].v,
    ensures
        8 * bx + 8 <= frame.stride(i),
        (8 * by + 8) * frame.stride(i) <= frame.stride(i) * frame.padded_height(i),
        frame.stride(i) * frame.padded_height(i) <= 269_485_056,
        8 * bx + 8 <= 16416,
        8 * by + 8 <= 16416,
{
    lemma_geometry(frame, i);
    let st = frame.stride(i);
    let ph = frame.padded_height(i);
    assert((8 * by + 8) * st <= st * ph) by (nonlinear_arith)
        requires
            8 * by + 8 <= ph,
            st >= 0,
    ;
}

/// Decodes one block of entry `ci` and writes it into its plane.
fn decode_one_block(
    br: &mut BitReader,
    prev_dc: &mut [i32; 4],
    planes: &mut [DecodedPlane],
    ci: usize,
    part: &Part,
    bx: usize,
    by: usize,
    Ghost(ctx): Ghost<ScanContext>,
    Ghost(s): Ghost<ScanState>,
) -> (r: Result<()>)
    requires
        old(br).inv(),
        old(br).data() == ctx.src,
        ctx.frame.wf(),
        planes_fit(old(planes)@, ctx.frame),
        ci < 4,
        part.wf(),
        part.index < ctx.frame.components.len(),
        bx < ctx.frame.mcus_x() * ctx.frame.components[part.index as int].h,
        by < ctx.frame.mcus_y() * ctx.frame.components[part.index as int].v,
        s.err is None,
        s.br == old(br)@,
        s.prev_dc == old(prev_dc)@,
        s.planes == plane_samples(old(planes)@),
    ensures
        final(br).inv(),
        final(br).data() == ctx.src,
        planes_fit(final(planes)@, ctx.frame),
        ({
            let t = block_step(ctx, s, ci as int, part.model(), bx as int, by as int);
            &&& final(br)@ == t.br
            &&& final(prev_dc)@ == t.prev_dc
            &&& plane_samples(final(planes)@) == t.planes
            &&& t.since == s.since
            &&& r == match t.err {
                Some(e) => Err(e),
                None => Ok(()),
            }
        }),
{
    let mut coef: [i16; 64] = [0i16; 64];
    assert(coef@ =~= zero_block());
    let mut prev: i32 = prev_dc[ci];
    let done = decode_block_baseline(br, part.dc, part.ac, part.quant, &mut prev, &mut coef);
    prev_dc[ci] = prev;
    match done {
        Ok(_) => {},
        Err(e) => {
            return Err(e);
        },
    }
    let mut block: [u8; 64] = [0u8; 64];
    arch::backend::dct::idct_islow(&coef, &mut block);
    proof {
        lemma_block_in_plane(ctx.frame, part.index as int, bx as int, by as int);
        assert(planes@[part.index as int].fits(ctx.frame, part.index as int));
    }
    let ghost before = planes@;
    place_block(&mut planes[part.index], bx * 8, by * 8, &block);
    proof {
        assert(plane_samples(planes@) =~= plane_samples(before).update(
            part.index as int,
            planes@[part.index as int].samples@,
        ));
        assert forall|i: int| 0 <= i < planes@.len() implies (#[trigger] planes@[i]).fits(ctx.frame, i) by {
            assert(before[i].fits(ctx.frame, i));
        }
    }
    Ok(())
}

/// A block of an MCU is a block of its component.
proof fn lemma_mcu_block(frame: Frame, i: int, mx: int, my: int, n: int)
    requires
        frame.wf(),
        0 <= i < frame.components.len(),
        0 <= mx < frame.mcus_x(),
        0 <= my < frame.mcus_y(),
        0 <= n < frame.components[i].h * frame.components[i].v,
    ensures
        0 <= mx * frame.components[i].h + n % (frame.components[i].h as int) < frame.mcus_x()
            * frame.components[i].h,
        0 <= my * frame.components[i].v + n / (frame.components[i].h as int) < frame.mcus_y()
            * frame.components[i].v,
        frame.mcus_x() * frame.components[i].h <= 8192,
        frame.mcus_y() * frame.components[i].v <= 8192,
        0 <= mx * frame.components[i].h,
        0 <= my * frame.components[i].v,
{
    lemma_geometry(frame, i);
    let h = frame.components[i].h as int;
    let v = frame.components[i].v as int;
    let wx = frame.mcus_x();
    let wy = frame.mcus_y();
    lemma_fundamental_div_mod(n, h);
    lemma_mod_bound(n, h);
    let q = n / h;
    assert(0 <= q < v) by (nonlinear_arith)
        requires
            n == h * q + n % h,
            0 <= n % h < h,
            0 <= n < h * v,
            h > 0,
    ;
    assert(mx * h + h <= wx * h && 0 <= mx * h) by (nonlinear_arith)
        requires
            0 <= mx < wx,
            h > 0,
    ;
    assert(my * v + v <= wy * v && 0 <= my * v) by (nonlinear_arith)
        requires
            0 <= my < wy,
            v > 0,
    ;
    assert(wx * h <= 8192 && wy * v <= 8192) by (nonlinear_arith)
        requires
            0 <= wx <= 2048,
            0 <= wy <= 2048,
            0 < h <= 4,
            0 < v <= 4,
    ;
}

/// Decodes one MCU of an interleaved scan.
#[verifier::rlimit(50)]
#[verifier::spinoff_prover]
fn decode_mcu(
    br: &mut BitReader,
    prev_dc: &mut [i32; 4],
    planes: &mut [DecodedPlane],
    frame: &FrameHeader,
    scan: &ScanHeader,
    tables: &ScanTables,
    mx: usize,
    my: usize,
    Ghost(ctx): Ghost<ScanContext>,
    Ghost(s): Ghost<ScanState>,
) -> (r: Result<()>)
    requires
        old(br).inv(),
        old(br).data() == ctx.src,
        ctx.frame == frame@,
        ctx.scan == scan@,
        ctx.frame.wf(),
        ctx.scan.components.len() <= 4,
        tables.model(ctx),
        planes_fit(old(planes)@, ctx.frame),
        mx < ctx.frame.mcus_x(),
        my < ctx.frame.mcus_y(),
        s.err is None,
        s.br == old(br)@,
        s.prev_dc == old(prev_dc)@,
        s.planes == plane_samples(old(planes)@),
    ensures
        final(br).inv(),
        final(br).data() == ctx.src,
        planes_fit(final(planes)@, ctx.frame),
        ({
            let t = mcu_entries(ctx, s, mx as int, my as int, ctx.scan.components.len());
            &&& final(br)@ == t.br
            &&& final(prev_dc)@ == t.prev_dc
            &&& plane_samples(final(planes)@) == t.planes
            &&& t.since == s.since
            &&& r == match t.err {
                Some(e) => Err(e),
                None => Ok(()),
            }
        }),
{
    let n: usize = scan.components.len();
    let ghost target = mcu_entries(ctx, s, mx as int, my as int, n as nat);
    for ci in 0..n
        invariant
            br.inv(),
            br.data() == ctx.src,
            ctx.frame == frame@,
            ctx.scan == scan@,
            ctx.frame.wf(),
            n == ctx.scan.components.len(),
            n <= 4,
            tables.model(ctx),
            planes_fit(planes@, ctx.frame),
            mx < ctx.frame.mcus_x(),
            my < ctx.frame.mcus_y(),
            target == mcu_entries(ctx, s, mx as int, my as int, n as nat),
            ({
                let t = mcu_entries(ctx, s, mx as int, my as int, ci as nat);
                &&& br@ == t.br
                &&& prev_dc@ == t.prev_dc
                &&& plane_samples(planes@) == t.planes
                &&& t.since == s.since
                &&& t.err is None
            }),
    {
        let ghost t0 = mcu_entries(ctx, s, mx as int, my as int, ci as nat);
        let ghost next = mcu_entries(ctx, s, mx as int, my as int, (ci + 1) as nat);
        assert(next == mcu_entry(ctx, t0, ci as int, mx as int, my as int));
        proof {
            if next.err is Some {
                lemma_mcu_entries_stop(ctx, s, mx as int, my as int, (ci + 1) as nat, n as nat);
            }
        }
        let part = match find_part(frame, scan, ci, tables, Ghost(ctx)) {
            Ok(p) => p,
            Err(e) => {
                return Err(e);
            },
        };
        let ghost pm = part.model();
        proof {
            lemma_geometry(ctx.frame, part.index as int);
            assert(part.component.h * part.component.v <= 16) by (nonlinear_arith)
                requires
                    part.component.h <= 4,
                    part.component.v <= 4,
            ;
        }
        let h: usize = part.component.h as usize;
        let v: usize = part.component.v as usize;
        let count: usize = h * v;
        for b in 0..count
            invariant
                br.inv(),
                br.data() == ctx.src,
                ctx.frame == frame@,
                ctx.frame.wf(),
                ci < n,
                n <= 4,
                planes_fit(planes@, ctx.frame),
                mx < ctx.frame.mcus_x(),
                my < ctx.frame.mcus_y(),
                part.wf(),
                pm == part.model(),
                0 <= part.index < ctx.frame.components.len(),
                part.component == ctx.frame.components[part.index as int],
                h == part.component.h,
                v == part.component.v,
                h >= 1,
                count == h * v,
                next == mcu_blocks(ctx, t0, ci as int, pm, mx as int, my as int, count as nat),
                next.err is Some ==> target == next,
                target == mcu_entries(ctx, s, mx as int, my as int, ctx.scan.components.len()),
                ({
                    let t = mcu_blocks(ctx, t0, ci as int, pm, mx as int, my as int, b as nat);
                    &&& br@ == t.br
                    &&& prev_dc@ == t.prev_dc
                    &&& plane_samples(planes@) == t.planes
                    &&& t.since == s.since
                    &&& t.err is None
                }),
        {
            let ghost t = mcu_blocks(ctx, t0, ci as int, pm, mx as int, my as int, b as nat);
            proof {
                lemma_mcu_block(ctx.frame, part.index as int, mx as int, my as int, b as int);
                let u = mcu_blocks(ctx, t0, ci as int, pm, mx as int, my as int, (b + 1) as nat);
                if u.err is Some {
                    lemma_mcu_blocks_stop(
                        ctx,
                        t0,
                        ci as int,
                        pm,
                        mx as int,
                        my as int,
                        (b + 1) as nat,
                        count as nat,
                    );
                }
            }
            let bx: usize = mx * h + b % h;
            let by: usize = my * v + b / h;
            match decode_one_block(br, prev_dc, planes, ci, &part, bx, by, Ghost(ctx), Ghost(t)) {
                Ok(_) => {},
                Err(e) => {
                    return Err(e);
                },
            }
        }
    }
    Ok(())
}

/// Restarts if a restart is due.
fn restart_when_due(
    br: &mut BitReader,
    prev_dc: &mut [i32; 4],
    expected: &mut u8,
    since: &mut u32,
    interval: u32,
    Ghost(ctx): Ghost<ScanContext>,
    Ghost(s): Ghost<ScanState>,
) -> (r: Result<()>)
    requires
        old(br).inv(),
        old(br).data() == ctx.src,
        ctx.interval == interval,
        *old(expected) < 8,
        s.err is None,
        s.br == old(br)@,
        s.prev_dc == old(prev_dc)@,
        s.since == *old(since),
    ensures
        final(br).inv(),
        final(br).data() == ctx.src,
        *final(expected) < 8,
        ({
            let t = restart_if_due(ctx, s);
            &&& final(br)@ == t.br
            &&& final(prev_dc)@ == t.prev_dc
            &&& *final(since) == t.since
            &&& t.planes == s.planes
            &&& r == match t.err {
                Some(e) => Err(e),
                None => Ok(()),
            }
        }),
{
    if interval > 0 && *since == interval {
        match handle_restart(br, prev_dc, expected) {
            Ok(_) => {},
            Err(e) => {
                return Err(e);
            },
        }
        *since = 0;
    }
    Ok(())
}

/// Runs one baseline scan of `frame` with restart interval `interval`.
#[verifier::rlimit(60)]
#[verifier::spinoff_prover]
fn run_baseline_scan(
    src: &[u8],
    entropy_start: usize,
    frame: &FrameHeader,
    interval: u16,
    scan: &ScanHeader,
    dc_tables: &[Option<DcTablePair>; 4],
    ac_tables: &[Option<AcTablePair>; 4],
    qt_by_id: &[Option<&QuantTable>; 4],
    planes: &mut [DecodedPlane],
) -> (r: Result<(usize, Option<u8>)>)
    requires
        frame@.wf(),
        1 <= scan@.components.len() <= 4,
        dc_slots_wf(dc_tables@),
        ac_slots_wf(ac_tables@),
        planes_fit(old(planes)@, frame@),
    ensures
        planes_fit(final(planes)@, frame@),
        ({
            let ctx = ScanContext {
                src: src@,
                frame: frame@,
                scan: scan@,
                interval: interval as int,
                dc: dc_books(dc_tables@),
                ac: ac_books(ac_tables@),
                quant: quant_refs(qt_by_id@),
            };
            let s = baseline_scan(ctx, entropy_start as int, plane_samples(old(planes)@));
            &&& plane_samples(final(planes)@) == s.planes
            &&& match s.err {
                Some(e) => r == Err::<(usize, Option<u8>), DecodeError>(e),
                None => r matches Ok(p) && p.0 == s.br.pos && p.1 == s.br.marker,
            }
        }),
{
    let ghost ctx = ScanContext {
        src: src@,
        frame: frame@,
        scan: scan@,
        interval: interval as int,
        dc: dc_books(dc_tables@),
        ac: ac_books(ac_tables@),
        quant: quant_refs(qt_by_id@),
    };
    let ghost target = baseline_scan(ctx, entropy_start as int, plane_samples(planes@));
    reveal(baseline_scan);
    let tables = ScanTables { dc: dc_tables, ac: ac_tables, quant: qt_by_id };
    let mut br = BitReader::new(src, entropy_start);
    let mut prev_dc: [i32; 4] = [0i32, 0i32, 0i32, 0i32];
    let mut since: u32 = 0;
    let mut expected: u8 = 0;
    let ghost s0 = ScanState {
        br: br@,
        prev_dc: seq![0i32, 0i32, 0i32, 0i32],
        since: 0,
        planes: plane_samples(planes@),
        err: None,
    };
    assert(prev_dc@ =~= s0.prev_dc);
    proof {
        lemma_geometry(frame@, 0);
    }
    if scan.components.len() > 1 {
        let h_max: u32 = frame.h_max() as u32;
        let v_max: u32 = frame.v_max() as u32;
        let mcus_x: usize = div_up(frame.width as u32, h_max * 8) as usize;
        let mcus_y: usize = div_up(frame.height as u32, v_max * 8) as usize;
        assert(mcus_x * mcus_y <= 2048 * 2048) by (nonlinear_arith)
            requires
                mcus_x <= 2048,
                mcus_y <= 2048,
        ;
        let total: usize = mcus_x * mcus_y;
        for m in 0..total
            invariant
                br.inv(),
                br.data() == ctx.src,
                ctx.frame == frame@,
                ctx.scan == scan@,
                ctx.frame.wf(),
                ctx.interval == interval,
                ctx.scan.components.len() <= 4,
                tables.model(ctx),
                planes_fit(planes@, ctx.frame),
                mcus_x == ctx.frame.mcus_x(),
                mcus_y == ctx.frame.mcus_y(),
                mcus_x >= 1,
                total == mcus_x * mcus_y,
                total <= 2048 * 2048,
                expected < 8,
                target == mcus(ctx, s0, total as nat),
                ({
                    let t = mcus(ctx, s0, m as nat);
                    &&& br@ == t.br
                    &&& prev_dc@ == t.prev_dc
                    &&& plane_samples(planes@) == t.planes
                    &&& since == t.since
                    &&& t.err is None
                    &&& since <= m
                }),
                target == baseline_scan(ctx, entropy_start as int, plane_samples(old(planes)@)),
                ctx == (ScanContext {
                    src: src@,
                    frame: frame@,
                    scan: scan@,
                    interval: interval as int,
                    dc: dc_books(dc_tables@),
                    ac: ac_books(ac_tables@),
                    quant: quant_refs(qt_by_id@),
                }),
        {
            let ghost t = mcus(ctx, s0, m as nat);
            let ghost next = mcus(ctx, s0, (m + 1) as nat);
            proof {
                assert(next == mcu_step(ctx, t, m as int));
                if next.err is Some {
                    lemma_mcus_stop(ctx, s0, (m + 1) as nat, total as nat);
                }
                lemma_fundamental_div_mod(m as int, mcus_x as int);
                let q = m as int / mcus_x as int;
                assert(q < mcus_y) by (nonlinear_arith)
                    requires
                        m == mcus_x * q + m as int % mcus_x as int,
                        m as int % mcus_x as int >= 0,
                        m < mcus_x * mcus_y,
                        mcus_x > 0,
                ;
            }
            let ghost t1 = restart_if_due(ctx, t);
            proof {
                if t1.err is Some {
                    lemma_mcu_entries_stop(
                        ctx,
                        t1,
                        m as int % mcus_x as int,
                        m as int / mcus_x as int,
                        0,
                        ctx.scan.components.len(),
                    );
                }
            }
            match restart_when_due(
                &mut br,
                &mut prev_dc,
                &mut expected,
                &mut since,
                interval as u32,
                Ghost(ctx),
                Ghost(t),
            ) {
                Ok(_) => {},
                Err(e) => {
                    return Err(e);
                },
            }
            let mx: usize = m % mcus_x;
            let my: usize = m / mcus_x;
            match decode_mcu(
                &mut br,
                &mut prev_dc,
                planes,
                frame,
                scan,
                &tables,
                mx,
                my,
                Ghost(ctx),
                Ghost(t1),
            ) {
                Ok(_) => {},
                Err(e) => {
                    return Err(e);
                },
            }
            since = since + 1;
        }
    } else {
        let part = match find_part(frame, scan, 0, &tables, Ghost(ctx)) {
            Ok(p) => p,
            Err(e) => {
                return Err(e);
            },
        };
        let ghost pm = part.model();
        proof {
            lemma_geometry(frame@, part.index as int);
            assert(frame.width * part.component.h <= 16384 * 4) by (nonlinear_arith)
                requires
                    frame.width <= 16384,
                    part.component.h <= 4,
            ;
            assert(frame.height * part.component.v <= 16384 * 4) by (nonlinear_arith)
                requires
                    frame.height <= 16384,
                    part.component.v <= 4,
            ;
            assert(frame@.mcus_x() * part.component.h <= 2048 * 4) by (nonlinear_arith)
                requires
                    frame@.mcus_x() <= 2048,
                    part.component.h <= 4,
            ;
            assert(frame@.mcus_y() * part.component.v <= 2048 * 4) by (nonlinear_arith)
                requires
                    frame@.mcus_y() <= 2048,
                    part.component.v <= 4,
            ;
        }
        let h_max: u32 = frame.h_max() as u32;
        let v_max: u32 = frame.v_max() as u32;
        let blocks_x: usize = div_up(frame.width as u32 * part.component.h as u32, h_max * 8) as usize;
        let blocks_y: usize = div_up(frame.height as u32 * part.component.v as u32, v_max * 8) as usize;
        assert(blocks_x * blocks_y <= 8192 * 8192) by (nonlinear_arith)
            requires
                blocks_x <= 8192,
                blocks_y <= 8192,
        ;
        let total: usize = blocks_x * blocks_y;
        for b in 0..total
            invariant
                br.inv(),
                br.data() == ctx.src,
                ctx.frame == frame@,
                ctx.frame.wf(),
                ctx.interval == interval,
                planes_fit(planes@, ctx.frame),
                part.wf(),
                pm == part.model(),
                0 <= part.index < ctx.frame.components.len(),
                part.component == ctx.frame.components[part.index as int],
                blocks_x == ctx.frame.blocks_x(part.index as int),
                blocks_y == ctx.frame.blocks_y(part.index as int),
                1 <= blocks_x <= ctx.frame.mcus_x() * part.component.h,
                1 <= blocks_y <= ctx.frame.mcus_y() * part.component.v,
                blocks_x <= 8192,
                blocks_y <= 8192,
                total == blocks_x * blocks_y,
                total <= 8192 * 8192,
                expected < 8,
                target == single_blocks(ctx, s0, pm, total as nat),
                ({
                    let t = single_blocks(ctx, s0, pm, b as nat);
                    &&& br@ == t.br
                    &&& prev_dc@ == t.prev_dc
                    &&& plane_samples(planes@) == t.planes
                    &&& since == t.since
                    &&& t.err is None
                    &&& since <= b
                }),
                target == baseline_scan(ctx, entropy_start as int, plane_samples(old(planes)@)),
                ctx == (ScanContext {
                    src: src@,
                    frame: frame@,
                    scan: scan@,
                    interval: interval as int,
                    dc: dc_books(dc_tables@),
                    ac: ac_books(ac_tables@),
                    quant: quant_refs(qt_by_id@),
                }),
        {
            let ghost t = single_blocks(ctx, s0, pm, b as nat);
            let ghost t1 = restart_if_due(ctx, t);
            let ghost next = single_blocks(ctx, s0, pm, (b + 1) as nat);
            proof {
                if next.err is Some {
                    lemma_single_blocks_stop(ctx, s0, pm, (b + 1) as nat, total as nat);
                }
                lemma_fundamental_div_mod(b as int, blocks_x as int);
                let q = b as int / blocks_x as int;
                assert(q < blocks_y) by (nonlinear_arith)
                    requires
                        b == blocks_x * q + b as int % blocks_x as int,
                        b as int % blocks_x as int >= 0,
                        b < blocks_x * blocks_y,
                        blocks_x > 0,
                ;
            }
            match restart_when_due(
                &mut br,
                &mut prev_dc,
                &mut expected,
                &mut since,
                interval as u32,
                Ghost(ctx),
                Ghost(t),
            ) {
                Ok(_) => {},
                Err(e) => {
                    return Err(e);
                },
            }
            match decode_one_block(
                &mut br,
                &mut prev_dc,
                planes,
                0,
                &part,
                b % blocks_x,
                b / blocks_x,
                Ghost(ctx),
                Ghost(t1),
            ) {
                Ok(_) => {},
                Err(e) => {
                    return Err(e);
                },
            }
            since = since + 1;
        }
    }
    Ok((br.pos(), br.marker()))
}

/// Runs one baseline scan from byte `entropy_start` on and writes the
/// decoded samples into `planes`. Returns the position past the marker
/// that ended the data, and that marker.
///
/// A scan of more than one component goes through the image MCU by MCU. A
/// scan of one component goes through that component's own blocks.
pub fn decode_baseline_scan_into(
    src: &[u8],
    entropy_start: usize,
    headers: &DecoderHeaders,
    scan: &ScanHeader,
    dc_tables: &[Option<DcTablePair>; 4],
    ac_tables: &[Option<AcTablePair>; 4],
    qt_by_id: &[Option<&QuantTable>; 4],
    planes: &mut [DecodedPlane],
) -> (r: Result<(usize, Option<u8>)>)
    requires
        headers.frame@.wf(),
        1 <= scan@.components.len() <= 4,
        dc_slots_wf(dc_tables@),
        ac_slots_wf(ac_tables@),
        planes_fit(old(planes)@, headers.frame@),
    ensures
        planes_fit(final(planes)@, headers.frame@),
        ({
            let ctx = ScanContext {
                src: src@,
                frame: headers.frame@,
                scan: scan@,
                interval: headers.restart_interval as int,
                dc: dc_books(dc_tables@),
                ac: ac_books(ac_tables@),
                quant: quant_refs(qt_by_id@),
            };
            let s = baseline_scan(ctx, entropy_start as int, plane_samples(old(planes)@));
            &&& plane_samples(final(planes)@) == s.planes
            &&& match s.err {
                Some(e) => r == Err::<(usize, Option<u8>), DecodeError>(e),
                None => r matches Ok(p) && p.0 == s.br.pos && p.1 == s.br.marker,
            }
        }),
{
    run_baseline_scan(
        src,
        entropy_start,
        &headers.frame,
        headers.restart_interval,
        scan,
        dc_tables,
        ac_tables,
        qt_by_id,
        planes,
    )
}

/// Reading a block does not move the reader back.
proof fn lemma_block_pos(src: Seq<u8>, b: Block, book: CodeBook, qt: Seq<u16>, k: int)
    ensures
        read_ac_terms(src, b, book, qt, k).br.pos >= b.br.pos,
    decreases 80 - k,
{
    if k < 64 {
        lemma_read_ac_pos(src, b.br, book);
        let (br, r) = read_ac(src, b.br, book);
        match r {
            Err(e) => {},
            Ok((run, size, bits)) => {
                if size == 0 {
                    if run == 15 {
                        lemma_block_pos(src, Block { br, ..b }, book, qt, k + 16);
                    }
                } else if k + run < 64 {
                    let at = ZIGZAG[k + run] as int;
                    let coef = b.coef.update(at, dequantized(extended(bits, size), qt[at]));
                    lemma_block_pos(src, Block { br, coef, ..b }, book, qt, k + run + 1);
                }
            },
        }
    }
}

/// Neither does a restart.
pub proof fn lemma_next_marker_pos(src: Seq<u8>, pos: int)
    ensures
        next_marker(src, pos) matches Some((m, p)) ==> p >= pos,
    decreases src.len() - pos,
{
    if 0 <= pos < src.len() {
        if src[pos] != 0xFF {
            lemma_next_marker_pos(src, pos + 1);
        } else if pos + 1 < src.len() && src[pos + 1] == 0 {
            lemma_next_marker_pos(src, pos + 2);
        }
    }
}

/// Nor does a block of a scan.
proof fn lemma_block_step_pos(ctx: ScanContext, s: ScanState, ci: int, part: ScanPart, bx: int, by: int)
    ensures
        block_step(ctx, s, ci, part, bx, by).br.pos >= s.br.pos,
        restart_if_due(ctx, s).br.pos >= s.br.pos,
{
    lemma_next_marker_pos(ctx.src, s.br.pos);
    lemma_read_dc_pos(ctx.src, s.br, part.dc);
    let (br1, r) = read_dc(ctx.src, s.br, part.dc);
    match r {
        Err(e) => {},
        Ok((size, bits)) => {
            let diff = if size == 0 {
                0
            } else {
                extended(bits, size)
            };
            let next = wrap32(s.prev_dc[ci] + diff);
            lemma_block_pos(
                ctx.src,
                Block {
                    br: br1,
                    prev_dc: next,
                    coef: zero_block().update(0, dequantized(next, part.quant[0])),
                    err: None,
                },
                part.ac,
                part.quant,
                1,
            );
        },
    }
}

/// Nor do the blocks of an MCU entry.
proof fn lemma_mcu_blocks_pos(ctx: ScanContext, s: ScanState, ci: int, part: ScanPart, mx: int, my: int, n: nat)
    ensures
        mcu_blocks(ctx, s, ci, part, mx, my, n).br.pos >= s.br.pos,
    decreases n,
{
    if n > 0 {
        lemma_mcu_blocks_pos(ctx, s, ci, part, mx, my, (n - 1) as nat);
        let t = mcu_blocks(ctx, s, ci, part, mx, my, (n - 1) as nat);
        let h = part.component.h as int;
        let v = part.component.v as int;
        lemma_block_step_pos(ctx, t, ci, part, mx * h + (n - 1) % h, my * v + (n - 1) / h);
    }
}

/// Nor do the entries of an MCU.
proof fn lemma_mcu_entries_pos(ctx: ScanContext, s: ScanState, mx: int, my: int, n: nat)
    ensures
        mcu_entries(ctx, s, mx, my, n).br.pos >= s.br.pos,
    decreases n,
{
    if n > 0 {
        lemma_mcu_entries_pos(ctx, s, mx, my, (n - 1) as nat);
        let t = mcu_entries(ctx, s, mx, my, (n - 1) as nat);
        match scan_part(ctx, n - 1) {
            Err(e) => {},
            Ok(part) => {
                lemma_mcu_blocks_pos(
                    ctx,
                    t,
                    n - 1,
                    part,
                    mx,
                    my,
                    (part.component.h * part.component.v) as nat,
                );
            },
        }
    }
}

/// Nor do the MCUs of a scan.
proof fn lemma_mcus_pos(ctx: ScanContext, s: ScanState, n: nat)
    ensures
        mcus(ctx, s, n).br.pos >= s.br.pos,
    decreases n,
{
    if n > 0 {
        lemma_mcus_pos(ctx, s, (n - 1) as nat);
        let t = mcus(ctx, s, (n - 1) as nat);
        let w = ctx.frame.mcus_x();
        lemma_next_marker_pos(ctx.src, t.br.pos);
        lemma_mcu_entries_pos(
            ctx,
            restart_if_due(ctx, t),
            (n - 1) % w,
            (n - 1) / w,
            ctx.scan.components.len(),
        );
    }
}

/// Nor do the blocks of a scan of a single component.
proof fn lemma_single_blocks_pos(ctx: ScanContext, s: ScanState, part: ScanPart, n: nat)
    ensures
        single_blocks(ctx, s, part, n).br.pos >= s.br.pos,
    decreases n,
{
    if n > 0 {
        lemma_single_blocks_pos(ctx, s, part, (n - 1) as nat);
        let t = single_blocks(ctx, s, part, (n - 1) as nat);
        let w = ctx.frame.blocks_x(part.index);
        lemma_block_step_pos(ctx, t, 0, part, 0, 0);
        lemma_block_step_pos(ctx, restart_if_due(ctx, t), 0, part, (n - 1) % w, (n - 1) / w);
    }
}

/// A scan ends at or past where it began.
pub proof fn lemma_baseline_scan_pos(ctx: ScanContext, start: int, planes: Seq<Seq<u8>>)
    ensures
        baseline_scan(ctx, start, planes).br.pos >= start,
{
    reveal(baseline_scan);
    let s = ScanState {
        br: BitState { pos: start, buf: 0, nbits: 0, marker: None },
        prev_dc: seq![0i32, 0i32, 0i32, 0i32],
        since: 0,
        planes,
        err: None,
    };
    if ctx.scan.components.len() > 1 {
        lemma_mcus_pos(ctx, s, (ctx.frame.mcus_x() * ctx.frame.mcus_y()) as nat);
    } else {
        match scan_part(ctx, 0) {
            Err(e) => {},
            Ok(part) => {
                lemma_single_blocks_pos(
                    ctx,
                    s,
                    part,
                    (ctx.frame.blocks_x(part.index) * ctx.frame.blocks_y(part.index)) as nat,
                );
            },
        }
    }
}

/// Decodes the scan `scan` of a baseline image, and after it all further
/// scans, with the tables that stand between them. The samples come back,
/// or the first error.
pub open spec fn baseline_scans(
    src: Seq<u8>,
    frame: Frame,
    t: Tables,
    scan: Scan,
    planes: Seq<Seq<u8>>,
) -> std::result::Result<Seq<Seq<u8>>, DecodeError>
    decreases src.len() - t.c.pos,
{
    let slots = fill_slots(t.huffman, t.huffman.len());
    if t.c.pos < 0 || slots.err is Some {
        Err(slots.err->0)
    } else {
        let ctx = ScanContext {
            src,
            frame,
            scan,
            interval: t.restart_interval as int,
            dc: slots.dc,
            ac: slots.ac,
            quant: quant_slots(t.quant),
        };
        let s = baseline_scan(ctx, t.c.pos, planes);
        if s.err is Some {
            Err(s.err->0)
        } else {
            let t1 = Tables { c: Cursor::at(s.br.pos), ..t };
            let (t2, b) = walk_between(src, t1, frame, s.br.marker);
            if t2.c.err is Some {
                Err(t2.c.err->0)
            } else {
                match b {
                    Between::Next(next) => {
                        proof {
                            lemma_baseline_scan_pos(ctx, t.c.pos, planes);
                            lemma_walk_between_advances(src, t1, frame, s.br.marker);
                        }
                        baseline_scans(src, frame, t2, next, s.planes)
                    },
                    _ => Ok(s.planes),
                }
            }
        }
    }
}

/// Copies a list of Huffman tables.
pub fn clone_huffman_specs(v: &Vec<HuffmanTableSpec>) -> (r: Vec<HuffmanTableSpec>)
    ensures
        huffs(r@) == huffs(v@),
{
    let mut r: Vec<HuffmanTableSpec> = Vec::new();
    let n: usize = v.len();
    for i in 0..n
        invariant
            n == v@.len(),
            r@.len() == i,
            forall|k: int| 0 <= k < i ==> (#[trigger] r@[k])@ == v@[k]@,
    {
        let h = HuffmanTableSpec {
            class: v[i].class,
            id: v[i].id,
            bits: v[i].bits,
            values: clone_bytes(&v[i].values),
        };
        r.push(h);
    }
    assert(huffs(r@) =~= huffs(v@));
    r
}

/// Copies a list of quantization tables.
pub fn clone_quant_tables(v: &Vec<QuantTable>) -> (r: Vec<QuantTable>)
    ensures
        quants(r@) == quants(v@),
{
    let mut r: Vec<QuantTable> = Vec::new();
    let n: usize = v.len();
    for i in 0..n
        invariant
            n == v@.len(),
            r@.len() == i,
            forall|k: int| 0 <= k < i ==> (#[trigger] r@[k])@ == v@[k]@,
    {
        r.push(v[i]);
    }
    assert(quants(r@) =~= quants(v@));
    r
}

/// Decodes all scans of a baseline image, from `first_scan`, whose data
/// begin at byte `entropy_start`, to the end of the image. Tables that
/// stand between two scans take effect for the later one.
#[verifier::rlimit(60)]
#[verifier::spinoff_prover]
pub fn decode_baseline_multi(
    src: &[u8],
    entropy_start: usize,
    headers: &DecoderHeaders,
    first_scan: ScanHeader,
) -> (r: Result<DecodedPlanes>)
    requires
        headers@.wf(),
        first_scan@.wf(headers@.frame),
    ensures
        match baseline_scans(
            src@,
            headers@.frame,
            Tables {
                c: Cursor::at(entropy_start as int),
                quant: headers@.quant,
                huffman: headers@.huffman,
                restart_interval: headers@.restart_interval,
            },
            first_scan@,
            blank_samples(headers@.frame),
        ) {
            Err(e) => r == Err::<DecodedPlanes, DecodeError>(e),
            Ok(samples) => r matches Ok(d) && d.width == headers@.frame.width && d.height
                == headers@.frame.height && planes_fit(d.components@, headers@.frame) && plane_samples(
                d.components@,
            ) == samples,
        },
{
    let frame = &headers.frame;
    let mut planes = allocate_planes(frame);
    let mut huffman_specs = clone_huffman_specs(&headers.huffman);
    let mut quant_tables = clone_quant_tables(&headers.quant);
    let mut restart_interval: u16 = headers.restart_interval;
    let mut scan = first_scan;
    let mut pos: usize = entropy_start;
    let ghost target = baseline_scans(
        src@,
        frame@,
        Tables {
            c: Cursor::at(pos as int),
            quant: headers@.quant,
            huffman: headers@.huffman,
            restart_interval,
        },
        scan@,
        blank_samples(frame@),
    );
    loop
        invariant
            frame == &headers.frame,
            headers@.wf(),
            planes_fit(planes@, frame@),
            scan@.wf(frame@),
            huffs_wf(huffs(huffman_specs@)),
            quants_wf(quants(quant_tables@)),
            target == baseline_scans(
                src@,
                headers@.frame,
                Tables {
                    c: Cursor::at(entropy_start as int),
                    quant: headers@.quant,
                    huffman: headers@.huffman,
                    restart_interval: headers@.restart_interval,
                },
                first_scan@,
                blank_samples(headers@.frame),
            ),
            target == baseline_scans(
                src@,
                frame@,
                Tables {
                    c: Cursor::at(pos as int),
                    quant: quants(quant_tables@),
                    huffman: huffs(huffman_specs@),
                    restart_interval,
                },
                scan@,
                plane_samples(planes@),
            ),
        decreases src@.len() - pos,
    {
        let ghost t0 = Tables {
            c: Cursor::at(pos as int),
            quant: quants(quant_tables@),
            huffman: huffs(huffman_specs@),
            restart_interval,
        };
        proof {
            assert forall|i: int| 0 <= i < huffman_specs@.len() implies (#[trigger] huffman_specs@[i]).id
                <= 3 by {
                assert(huffs(huffman_specs@)[i].wf());
            }
            assert forall|i: int| 0 <= i < quant_tables@.len() implies (#[trigger] quant_tables@[i]).id <= 3 by {
                assert(quants(quant_tables@)[i].wf());
            }
        }
        let (dc_tables, ac_tables) = match build_huffman_tables(huffman_specs.as_slice()) {
            Ok(t) => t,
            Err(e) => {
                return Err(e);
            },
        };
        let ghost before = plane_samples(planes@);
        let (after_pos, pending) = {
            let qt_by_id = index_quant_tables(quant_tables.as_slice());
            match run_baseline_scan(
                src,
                pos,
                frame,
                restart_interval,
                &scan,
                &dc_tables,
                &ac_tables,
                &qt_by_id,
                planes.as_mut_slice(),
            ) {
                Ok(t) => t,
                Err(e) => {
                    return Err(e);
                },
            }
        };
        let ghost ctx = ScanContext {
            src: src@,
            frame: frame@,
            scan: scan@,
            interval: restart_interval as int,
            dc: dc_books(dc_tables@),
            ac: ac_books(ac_tables@),
            quant: quant_slots(t0.quant),
        };
        let ghost s = baseline_scan(ctx, pos as int, before);
        let ghost t1 = Tables { c: Cursor::at(s.br.pos), ..t0 };
        proof {
            lemma_baseline_scan_pos(ctx, pos as int, before);
            lemma_walk_between_advances(src@, t1, frame@, s.br.marker);
            law_walk_between_keeps_order(src@, t1, frame@, s.br.marker);
        }
        let mut mr = MarkerReader::resume_at(src, after_pos);
        let next = match mr.next_scan_or_end(
            frame,
            &mut huffman_specs,
            &mut quant_tables,
            &mut restart_interval,
            pending,
        ) {
            Ok(n) => n,
            Err(e) => {
                return Err(e);
            },
        };
        match next {
            Some(sh) => {
                scan = sh;
                pos = mr.pos();
            },
            None => {
                return Ok(
                    DecodedPlanes { width: frame.width as u32, height: frame.height as u32, components: planes },
                );
            },
        }
    }
}

/// After a restart marker the reader is as a new one at the byte behind the
/// marker: no bits are left over from before.
pub proof fn law_restart_is_a_fresh_start(src: Seq<u8>, br: BitState)
    ensures
        restart(src, br).1 is None ==> restart(src, br).0 == (BitState {
            pos: restart(src, br).0.pos,
            buf: 0,
            nbits: 0,
            marker: None,
        }),
{
}

/// Entry `ci` of the scan is not component `i` of the frame.
spec fn not_entry(ctx: ScanContext, ci: int, i: int) -> bool {
    find_component_from(ctx.frame.components, ctx.scan.components[ci].component_id, 0) != Some(i)
}

/// A component that is found is one of those searched.
proof fn lemma_found_in_range(components: Seq<Component>, id: u8, i: int)
    ensures
        find_component_from(components, id, i) matches Some(k) ==> 0 <= k < components.len(),
    decreases components.len() - i,
{
    if 0 <= i < components.len() {
        lemma_found_in_range(components, id, i + 1);
    }
}

proof fn lemma_block_step_keeps(
    ctx: ScanContext,
    s: ScanState,
    ci: int,
    part: ScanPart,
    bx: int,
    by: int,
    i: int,
)
    requires
        part.index != i,
        0 <= part.index < s.planes.len(),
        0 <= i < s.planes.len(),
    ensures
        block_step(ctx, s, ci, part, bx, by).planes.len() == s.planes.len(),
        block_step(ctx, s, ci, part, bx, by).planes[i] == s.planes[i],
{
}

proof fn lemma_mcu_blocks_keep(
    ctx: ScanContext,
    s: ScanState,
    ci: int,
    part: ScanPart,
    mx: int,
    my: int,
    n: nat,
    i: int,
)
    requires
        part.index != i,
        0 <= part.index < s.planes.len(),
        0 <= i < s.planes.len(),
    ensures
        mcu_blocks(ctx, s, ci, part, mx, my, n).planes.len() == s.planes.len(),
        mcu_blocks(ctx, s, ci, part, mx, my, n).planes[i] == s.planes[i],
    decreases n,
{
    if n > 0 {
        lemma_mcu_blocks_keep(ctx, s, ci, part, mx, my, (n - 1) as nat, i);
        let t = mcu_blocks(ctx, s, ci, part, mx, my, (n - 1) as nat);
        let h = part.component.h as int;
        let v = part.component.v as int;
        lemma_block_step_keeps(ctx, t, ci, part, mx * h + (n - 1) % h, my * v + (n - 1) / h, i);
    }
}

proof fn lemma_mcu_entries_keep(ctx: ScanContext, s: ScanState, mx: int, my: int, n: nat, i: int)
    requires
        forall|ci: int| 0 <= ci < n ==> #[trigger] not_entry(ctx, ci, i),
        s.planes.len() == ctx.frame.components.len(),
        0 <= i < s.planes.len(),
    ensures
        mcu_entries(ctx, s, mx, my, n).planes.len() == s.planes.len(),
        mcu_entries(ctx, s, mx, my, n).planes[i] == s.planes[i],
    decreases n,
{
    if n > 0 {
        lemma_mcu_entries_keep(ctx, s, mx, my, (n - 1) as nat, i);
        assert(not_entry(ctx, n - 1, i));
        let t = mcu_entries(ctx, s, mx, my, (n - 1) as nat);
        lemma_found_in_range(ctx.frame.components, ctx.scan.components[n - 1].component_id, 0);
        if let Ok(part) = scan_part(ctx, n - 1) {
            lemma_mcu_blocks_keep(
                ctx,
                t,
                n - 1,
                part,
                mx,
                my,
                (part.component.h * part.component.v) as nat,
                i,
            );
        }
    }
}

proof fn lemma_mcus_keep(ctx: ScanContext, s: ScanState, n: nat, i: int)
    requires
        forall|ci: int| 0 <= ci < ctx.scan.components.len() ==> #[trigger] not_entry(ctx, ci, i),
        s.planes.len() == ctx.frame.components.len(),
        0 <= i < s.planes.len(),
    ensures
        mcus(ctx, s, n).planes.len() == s.planes.len(),
        mcus(ctx, s, n).planes[i] == s.planes[i],
    decreases n,
{
    if n > 0 {
        lemma_mcus_keep(ctx, s, (n - 1) as nat, i);
        let t = mcus(ctx, s, (n - 1) as nat);
        let w = ctx.frame.mcus_x();
        lemma_mcu_entries_keep(
            ctx,
            restart_if_due(ctx, t),
            (n - 1) % w,
            (n - 1) / w,
            ctx.scan.components.len(),
            i,
        );
    }
}

proof fn lemma_single_blocks_keep(ctx: ScanContext, s: ScanState, part: ScanPart, n: nat, i: int)
    requires
        part.index != i,
        0 <= part.index < s.planes.len(),
        0 <= i < s.planes.len(),
    ensures
        single_blocks(ctx, s, part, n).planes.len() == s.planes.len(),
        single_blocks(ctx, s, part, n).planes[i] == s.planes[i],
    decreases n,
{
    if n > 0 {
        lemma_single_blocks_keep(ctx, s, part, (n - 1) as nat, i);
        let t = single_blocks(ctx, s, part, (n - 1) as nat);
        let w = ctx.frame.blocks_x(part.index);
        lemma_block_step_keeps(ctx, restart_if_due(ctx, t), 0, part, (n - 1) % w, (n - 1) / w, i);
    }
}

/// A scan writes only to the planes of its own components.
pub proof fn law_scan_keeps_other_planes(ctx: ScanContext, start: int, planes: Seq<Seq<u8>>, i: int)
    requires
        1 <= ctx.scan.components.len(),
        forall|ci: int|
            0 <= ci < ctx.scan.components.len() ==> find_component_from(
                ctx.frame.components,
                (#[trigger] ctx.scan.components[ci]).component_id,
                0,
            ) != Some(i),
        planes.len() == ctx.frame.components.len(),
        0 <= i < planes.len(),
    ensures
        baseline_scan(ctx, start, planes).planes.len() == planes.len(),
        baseline_scan(ctx, start, planes).planes[i] == planes[i],
{
    reveal(baseline_scan);
    assert forall|ci: int| 0 <= ci < ctx.scan.components.len() implies #[trigger] not_entry(ctx, ci, i) by {
        let e = ctx.scan.components[ci];
    }
    let s = ScanState {
        br: BitState { pos: start, buf: 0, nbits: 0, marker: None },
        prev_dc: seq![0i32, 0i32, 0i32, 0i32],
        since: 0,
        planes,
        err: None,
    };
    if ctx.scan.components.len() > 1 {
        lemma_mcus_keep(ctx, s, (ctx.frame.mcus_x() * ctx.frame.mcus_y()) as nat, i);
    } else {
        assert(not_entry(ctx, 0, i));
        lemma_found_in_range(ctx.frame.components, ctx.scan.components[0].component_id, 0);
        if let Ok(part) = scan_part(ctx, 0) {
            lemma_single_blocks_keep(
                ctx,
                s,
                part,
                (ctx.frame.blocks_x(part.index) * ctx.frame.blocks_y(part.index)) as nat,
                i,
            );
        }
    }
}

/// Rounding up gives the smallest number of parts of size `b` that hold `a`.
pub proof fn law_ceil_div_is_the_least_cover(a: int, b: int)
    requires
        b > 0,
    ensures
        a <= ceil_div(a, b) * b,
        (ceil_div(a, b) - 1) * b < a,
{
    let c = ceil_div(a, b);
    lemma_fundamental_div_mod(a + b - 1, b);
    vstd::arithmetic::div_mod::lemma_mod_bound(a + b - 1, b);
    assert(a <= c * b && (c - 1) * b < a) by (nonlinear_arith)
        requires
            a + b - 1 == b * c + (a + b - 1) % b,
            0 <= (a + b - 1) % b < b,
    ;
}

/// The largest sampling factors are those of some component, and no
/// component has larger ones.
pub proof fn law_largest_factors(components: Seq<Component>, n: nat)
    requires
        1 <= n <= components.len(),
    ensures
        exists|i: int| 0 <= i < n && (#[trigger] components[i]).h == max_h(components, n),
        exists|i: int| 0 <= i < n && (#[trigger] components[i]).v == max_v(components, n),
        forall|i: int|
            0 <= i < n ==> (#[trigger] components[i]).h <= max_h(components, n) && components[i].v <= max_v(
                components,
                n,
            ),
    decreases n,
{
    if n > 1 {
        law_largest_factors(components, (n - 1) as nat);
        let m = (n - 1) as nat;
        let a = choose|i: int| 0 <= i < m && (#[trigger] components[i]).h == max_h(components, m);
        let b = choose|i: int| 0 <= i < m && (#[trigger] components[i]).v == max_v(components, m);
        assert(components[a].h == max_h(components, n) || components[n - 1].h == max_h(components, n));
        assert(components[b].v == max_v(components, n) || components[n - 1].v == max_v(components, n));
    } else {
        assert(components[0].h == max_h(components, n));
        assert(components[0].v == max_v(components, n));
    }
}

/// A block that is written at `(x, y)` stands there, sample by sample, and
/// everything around it stays.
pub proof fn law_placed_block_is_in_place(
    samples: Seq<u8>,
    stride: int,
    x: int,
    y: int,
    block: Seq<u8>,
    col: int,
    row: int,
)
    requires
        0 <= col < stride,
        0 <= row,
        row * stride + col < samples.len(),
        0 <= x,
        0 <= y,
    ensures
        placed(samples, stride, x, y, block).len() == samples.len(),
        placed(samples, stride, x, y, block)[row * stride + col] == if x <= col < x + 8 && y <= row < y + 8 {
            block[8 * (row - y) + (col - x)]
        } else {
            samples[row * stride + col]
        },
{
    assert(row * stride + col == stride * row + col) by (nonlinear_arith);
    lemma_fundamental_div_mod_converse(row * stride + col, stride, row, col);
    assert(0 <= row * stride) by (nonlinear_arith)
        requires
            0 <= row,
            0 < stride,
    ;
}

/// The restart marker that is due is found behind the rest of the data,
/// stuffed bytes and all, and reading starts afresh behind it. Another
/// marker there is an error, and so is the end of the data.
pub proof fn law_restart_goes_past_the_marker(src: Seq<u8>, br: BitState, at: int)
    requires
        br.marker is None,
        0 <= br.pos <= at,
        at + 1 < src.len(),
        src[at] == 0xFF,
        src[at + 1] != 0,
        forall|i: int| br.pos <= i < at ==> (#[trigger] src[i] == 0xFF ==> i + 1 < at && src[i + 1] == 0),
    ensures
        restart(src, br) == if 0xD0 <= src[at + 1] <= 0xD7 {
            (BitState { pos: at + 2, buf: 0, nbits: 0, marker: None }, None::<DecodeError>)
        } else {
            (
                BitState { pos: at + 2, buf: 0, nbits: 0, marker: Some(src[at + 1]) },
                Some(DecodeError::Malformed("expected RSTn between intervals")),
            )
        },
{
    lemma_marker_is_found(src, br.pos, at);
}

/// A marker behind data is the next marker.
proof fn lemma_marker_is_found(src: Seq<u8>, pos: int, at: int)
    requires
        0 <= pos <= at,
        at + 1 < src.len(),
        src[at] == 0xFF,
        src[at + 1] != 0,
        forall|i: int| pos <= i < at ==> (#[trigger] src[i] == 0xFF ==> i + 1 < at && src[i + 1] == 0),
    ensures
        next_marker(src, pos) == Some((src[at + 1], at + 2)),
    decreases at - pos,
{
    if pos < at {
        if src[pos] == 0xFF {
            lemma_marker_is_found(src, pos + 2, at);
        } else {
            lemma_marker_is_found(src, pos + 1, at);
        }
    }
}

/// Of several quantization tables for one slot the last one counts.
pub proof fn law_last_quantization_table_counts(quant: Seq<Quant>, id: int, i: int)
    requires
        0 <= i < quant.len(),
        0 <= id < 4,
        quant[i].id == id,
        forall|k: int| i < k < quant.len() ==> (#[trigger] quant[k]).id != id,
    ensures
        quant_slots(quant)[id] == Some(quant[i].values),
{
    lemma_last_in_slot(quant, quant.len(), id, i);
}

/// The same of the first `n` tables.
proof fn lemma_last_in_slot(quant: Seq<Quant>, n: nat, id: int, i: int)
    requires
        0 <= i < n <= quant.len(),
        quant[i].id == id,
        forall|k: int| i < k < n ==> (#[trigger] quant[k]).id != id,
    ensures
        quant_slot(quant, n, id) == Some(quant[i].values),
    decreases n,
{
    if i < n - 1 {
        assert(quant[n - 1].id != id);
        lemma_last_in_slot(quant, (n - 1) as nat, id, i);
    }
}

/// The remainder of the next number: one more, or zero where that is the
/// divisor.
pub proof fn lemma_next_remainder(a: int, b: int)
    requires
        0 <= a,
        0 < b,
    ensures
        (a + 1) % b == if a % b + 1 == b {
            0
        } else {
            a % b + 1
        },
{
    lemma_fundamental_div_mod(a, b);
    lemma_mod_bound(a, b);
    let (q, r) = (a / b, a % b);
    if r + 1 == b {
        assert(a + 1 == (q + 1) * b + 0) by (nonlinear_arith)
            requires
                a == b * q + r,
                r + 1 == b,
        ;
        lemma_fundamental_div_mod_converse(a + 1, b, q + 1, 0);
    } else {
        assert(a + 1 == q * b + (r + 1)) by (nonlinear_arith)
            requires
                a == b * q + r,
        ;
        lemma_fundamental_div_mod_converse(a + 1, b, q, r + 1);
    }
}

/// The blocks of an MCU do not count as MCUs.
proof fn lemma_blocks_keep_count(ctx: ScanContext, s: ScanState, ci: int, part: ScanPart, mx: int, my: int, n: nat)
    ensures
        mcu_blocks(ctx, s, ci, part, mx, my, n).since == s.since,
    decreases n,
{
    if n > 0 {
        lemma_blocks_keep_count(ctx, s, ci, part, mx, my, (n - 1) as nat);
    }
}

/// Nor do its entries.
proof fn lemma_entries_keep_count(ctx: ScanContext, s: ScanState, mx: int, my: int, n: nat)
    ensures
        mcu_entries(ctx, s, mx, my, n).since == s.since,
    decreases n,
{
    if n > 0 {
        lemma_entries_keep_count(ctx, s, mx, my, (n - 1) as nat);
        let t = mcu_entries(ctx, s, mx, my, (n - 1) as nat);
        if let Ok(part) = scan_part(ctx, n - 1) {
            lemma_blocks_keep_count(
                ctx,
                t,
                n - 1,
                part,
                mx,
                my,
                (part.component.h * part.component.v) as nat,
            );
        }
    }
}

/// Restarts come every `interval` MCUs: the number of MCUs since the last
/// one runs from one to `interval` and starts again.
pub proof fn law_restarts_come_every_interval(ctx: ScanContext, s: ScanState, part: ScanPart, n: nat)
    requires
        ctx.interval > 0,
        s.since == 0,
    ensures
        mcus(ctx, s, n).err is None ==> mcus(ctx, s, n).since == if n == 0 {
            0
        } else {
            (n - 1) % ctx.interval + 1
        },
        single_blocks(ctx, s, part, n).err is None ==> single_blocks(ctx, s, part, n).since == if n == 0 {
            0
        } else {
            (n - 1) % ctx.interval + 1
        },
    decreases n,
{
    if n > 0 {
        let m = (n - 1) as nat;
        law_restarts_come_every_interval(ctx, s, part, m);
        if m > 0 {
            lemma_next_remainder(m - 1, ctx.interval);
        } else {
            vstd::arithmetic::div_mod::lemma_small_mod(0, ctx.interval as nat);
        }
        let t = mcus(ctx, s, m);
        let w = ctx.frame.mcus_x();
        let r = restart_if_due(ctx, t);
        let (mx, my) = (m as int % w, m as int / w);
        lemma_entries_keep_count(ctx, r, mx, my, ctx.scan.components.len());
        if r.err is Some {
            lemma_mcu_entries_stop(ctx, r, mx, my, 0, ctx.scan.components.len());
        }
    }
}

/// A restart that is due resets every predictor to zero and the count of
/// MCUs, and changes no sample; one that is not due changes nothing.
pub proof fn law_restart_resets_the_predictors(ctx: ScanContext, s: ScanState)
    requires
        s.err is None,
    ensures
        ({
            let t = restart_if_due(ctx, s);
            let due = ctx.interval > 0 && s.since == ctx.interval;
            &&& due && t.err is None ==> t.since == 0 && t.prev_dc.len() == 4 && forall|c: int|
                0 <= c < 4 ==> #[trigger] t.prev_dc[c] == 0
            &&& t.planes == s.planes
            &&& !due ==> t == s
        }),
{
}

/// Of several Huffman tables for one slot of a class the last one counts.
pub proof fn law_last_huffman_table_counts(huffman: Seq<Huff>, n: nat, i: int)
    requires
        0 <= i < n <= huffman.len(),
        huffs_wf(huffman),
        fill_slots(huffman, n).err is None,
        forall|k: int|
            i < k < n ==> (#[trigger] huffman[k]).id != huffman[i].id || huffman[k].class != huffman[i].class,
    ensures
        ({
            let s = fill_slots(huffman, n);
            let h = huffman[i];
            (if h.class == 0 {
                s.dc
            } else {
                s.ac
            })[h.id as int] == Some(h.book)
        }),
    decreases n,
{
    assert(huffman[n - 1].wf());
    lemma_slots_len(huffman, (n - 1) as nat);
    if i < n - 1 {
        assert(huffman[i].wf());
        if fill_slots(huffman, (n - 1) as nat).err is Some {
            lemma_fill_slots_stops(huffman, (n - 1) as nat, n);
        }
        law_last_huffman_table_counts(huffman, (n - 1) as nat, i);
        assert(huffman[n - 1].id != huffman[i].id || huffman[n - 1].class != huffman[i].class);
    }
}

/// There are four slots of each class.
proof fn lemma_slots_len(huffman: Seq<Huff>, n: nat)
    requires
        n <= huffman.len(),
        huffs_wf(huffman),
    ensures
        fill_slots(huffman, n).dc.len() == 4,
        fill_slots(huffman, n).ac.len() == 4,
    decreases n,
{
    if n > 0 {
        lemma_slots_len(huffman, (n - 1) as nat);
        assert(huffman[n - 1].wf());
    }
}

/// A component is found by its identifier: the first that has it, and none
/// if none has.
pub proof fn law_components_are_found_by_identifier(components: Seq<Component>, id: u8, i: int)
    requires
        0 <= i,
    ensures
        match find_component_from(components, id, i) {
            Some(k) => i <= k < components.len() && components[k].id == id && forall|j: int|
                i <= j < k ==> (#[trigger] components[j]).id != id,
            None => forall|j: int| i <= j < components.len() ==> (#[trigger] components[j]).id != id,
        },
    decreases components.len() - i,
{
    if i < components.len() {
        law_components_are_found_by_identifier(components, id, i + 1);
    }
}

/// The measures of a component: its plane has the smallest width and height
/// that hold its share of the image, MCUs and blocks are the fewest that cover
/// it, and rows of samples hold all blocks of the MCUs.
pub proof fn law_planes_cover_their_share(frame: Frame, i: int)
    requires
        frame.wf(),
        0 <= i < frame.components.len(),
    ensures
        ({
            let (hm, vm) = (frame.h_max() as int, frame.v_max() as int);
            let (h, v) = (frame.components[i].h as int, frame.components[i].v as int);
            let (w, t) = (frame.width * h, frame.height * v);
            &&& (frame.plane_width(i) - 1) * hm < w <= frame.plane_width(i) * hm
            &&& (frame.plane_height(i) - 1) * vm < t <= frame.plane_height(i) * vm
            &&& (frame.mcus_x() - 1) * (8 * hm) < frame.width <= frame.mcus_x() * (8 * hm)
            &&& (frame.mcus_y() - 1) * (8 * vm) < frame.height <= frame.mcus_y() * (8 * vm)
            &&& (frame.blocks_x(i) - 1) * (8 * hm) < w <= frame.blocks_x(i) * (8 * hm)
            &&& (frame.blocks_y(i) - 1) * (8 * vm) < t <= frame.blocks_y(i) * (8 * vm)
            &&& frame.stride(i) == frame.mcus_x() * (8 * h)
            &&& frame.padded_height(i) == frame.mcus_y() * (8 * v)
        }),
{
    lemma_geometry(frame, i);
    let (hm, vm) = (frame.h_max() as int, frame.v_max() as int);
    let (h, v) = (frame.components[i].h as int, frame.components[i].v as int);
    law_ceil_div_is_the_least_cover(frame.width * h, hm);
    law_ceil_div_is_the_least_cover(frame.height * v, vm);
    law_ceil_div_is_the_least_cover(frame.width as int, 8 * hm);
    law_ceil_div_is_the_least_cover(frame.height as int, 8 * vm);
    law_ceil_div_is_the_least_cover(frame.width * h, 8 * hm);
    law_ceil_div_is_the_least_cover(frame.height * v, 8 * vm);
    let (mx, my) = (frame.mcus_x(), frame.mcus_y());
    assert(mx * h * 8 == mx * (8 * h)) by (nonlinear_arith);
    assert(my * v * 8 == my * (8 * v)) by (nonlinear_arith);
}

} // verus!
