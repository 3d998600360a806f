//! Which streams are accepted, and how the others are refused.

use vstd::prelude::*;

verus! {

use super::baseline::{
    baseline_scans, blank_samples, find_component_from, huff_error, next_marker, read_ac_terms, restart,
    restart_if_due, scan_part, Block, ScanContext, ScanState,
};
use super::compose::composed;
use super::error::DecodeError;
use super::huffman::{
    decode_table_error, ensure_bits, fast_code_overflows, fast_codes_overflow, fetch_byte,
    law_codes_are_given_out_without_gaps, read_ac, read_bits, read_dc, read_symbol, taken_below, term_size, BitState,
    CodeBook,
};
use super::markers::{
    header_segment, inner_segment, lemma_frame_components_are_read, lemma_segment_is_read, read_app2,
    read_frame_components, read_huffman_tables, read_quant_tables, sampling_ok, segment_at, walk_at, walk_between,
    walk_to_scan, Between, Component, Cursor, Frame, Huff, Metadata, Quant, Scan, Tables, Walk, EXIF_ID, ICC_ID,
};
use super::progressive::{
    ac_blocks, band_restart_if_due, entry_component, has_unknown_component, progressive_samples, progressive_scan,
    BandContext, BandState,
};
use super::{chunk_numbers, icc_of, parsed, Parsed};
use crate::color::{PixelClass, PixelLayout};
use crate::tables::{from_zigzag, law_zigzag_is_permutation, ZIGZAG, ZIGZAG_INVERSE};
use vstd::arithmetic::power2::{lemma2_to64, lemma_pow2_adds, pow2};

/// A frame is decoded if its samples have 8 bits, its dimensions are from 1
/// to 16384, it has one to four components, their sampling factors are 1, 2
/// or 4 and their tables are numbered 0 to 3, and a single component is not
/// subsampled. No other frame is.
pub proof fn law_frame_limits(frame: Frame)
    ensures
        frame.wf() <==> {
            &&& frame.precision == 8
            &&& 1 <= frame.width <= 16384
            &&& 1 <= frame.height <= 16384
            &&& frame.components.len() == 1 || frame.components.len() == 2 || frame.components.len() == 3
                || frame.components.len() == 4
            &&& forall|i: int|
                0 <= i < frame.components.len() ==> {
                    let c = #[trigger] frame.components[i];
                    &&& c.h == 1 || c.h == 2 || c.h == 4
                    &&& c.v == 1 || c.v == 2 || c.v == 4
                    &&& c.qt == 0 || c.qt == 1 || c.qt == 2 || c.qt == 3
                }
            &&& frame.components.len() == 1 ==> frame.components[0].h == 1 && frame.components[0].v == 1
        },
{
    if frame.wf() {
        assert forall|i: int| 0 <= i < frame.components.len() implies {
            let c = #[trigger] frame.components[i];
            &&& c.h == 1 || c.h == 2 || c.h == 4
            &&& c.v == 1 || c.v == 2 || c.v == 4
            &&& c.qt == 0 || c.qt == 1 || c.qt == 2 || c.qt == 3
        } by {
            assert(frame.components[i].wf());
        }
    }
}

/// The component of a frame with a single one is not subsampled, whatever
/// factors the SOF segment declares.
pub proof fn law_single_component_is_not_subsampled(
    buf: Seq<u8>,
    w: Walk,
    pos: int,
    payload: Seq<u8>,
    h: u8,
    v: u8,
    frame: Frame,
)
    requires
        w.c == Cursor::at(pos),
        segment_at(
            buf,
            pos,
            if frame.progressive {
                0xC2
            } else {
                0xC0
            },
            payload,
        ),
        frame.wf(),
        frame.components.len() == 1,
        h == 1 || h == 2 || h == 4,
        v == 1 || v == 2 || v == 4,
        payload.len() == 9,
        payload[0] == 8,
        payload[1] * 256 + payload[2] == frame.height,
        payload[3] * 256 + payload[4] == frame.width,
        payload[5] == 1,
        payload[6] == frame.components[0].id,
        payload[7] == 16 * h + v,
        payload[8] == frame.components[0].qt,
    ensures
        walk_to_scan(buf, w) == walk_to_scan(buf, Walk { frame: Some(frame), ..walk_at(w, pos + 13) }),
{
    lemma_segment_is_read(buf, pos, buf[pos + 1], payload);
    assert(frame.components[0].wf());
    assert(buf[pos + 4 + 0] == payload[0]);
    assert(buf[pos + 4 + 1] == payload[1]);
    assert(buf[pos + 4 + 2] == payload[2]);
    assert(buf[pos + 4 + 3] == payload[3]);
    assert(buf[pos + 4 + 4] == payload[4]);
    assert(buf[pos + 4 + 5] == payload[5]);
    assert(buf[pos + 4 + 6] == payload[6]);
    assert(buf[pos + 4 + 7] == payload[7]);
    assert(buf[pos + 4 + 8] == payload[8]);
    let at = pos + 10;
    assert forall|i: int| 0 <= i < 1 implies #[trigger] sampling_ok(buf[at + 3 * i + 1] as int / 16)
        && sampling_ok(buf[at + 3 * i + 1] as int % 16) && buf[at + 3 * i + 2] <= 3 by {}
    lemma_frame_components_are_read(buf, at, 1, Seq::empty());
    let got = read_frame_components(buf, Cursor::at(at), 1, Seq::empty()).1;
    assert(got.len() == 1);
    assert(seq![Component { h: 1, v: 1, ..got[0] }] =~= frame.components);
}

/// The walk ends with error `e` and finds no scan.
pub open spec fn refused(r: (Walk, Option<Scan>), e: DecodeError) -> bool {
    r.1 is None && r.0.c.err == Some(e)
}

/// A SOF segment is refused for the first of these: samples not of 8 bits, a
/// dimension that is zero, one beyond 16384, a length that does not go with
/// the number of components, a number of components other than one to four.
pub proof fn law_frames_beyond_the_limits_are_refused(buf: Seq<u8>, w: Walk, pos: int, marker: u8, payload: Seq<u8>)
    requires
        w.c == Cursor::at(pos),
        marker == 0xC0 || marker == 0xC2,
        segment_at(buf, pos, marker, payload),
        payload.len() >= 6,
    ensures
        ({
            let height = payload[1] * 256 + payload[2];
            let width = payload[3] * 256 + payload[4];
            let n = payload[5];
            let r = walk_to_scan(buf, w);
            if payload[0] != 8 {
                refused(r, DecodeError::Unsupported("non-8-bit precision"))
            } else if width == 0 || height == 0 {
                refused(r, DecodeError::InvalidDimensions("zero dimension"))
            } else if width > 16384 || height > 16384 {
                refused(
                    r,
                    DecodeError::InvalidDimensions(
                        "image dimension exceeds 16384 (raise the cap explicitly to opt in)",
                    ),
                )
            } else if payload.len() != 6 + 3 * n {
                refused(r, DecodeError::Malformed("SOF length / Nf mismatch"))
            } else {
                n == 0 || n > 4 ==> refused(r, DecodeError::InvalidDimensions("unsupported component count"))
            }
        }),
{
    lemma_segment_is_read(buf, pos, marker, payload);
    assert(buf[pos + 4 + 0] == payload[0]);
    assert(buf[pos + 4 + 1] == payload[1]);
    assert(buf[pos + 4 + 2] == payload[2]);
    assert(buf[pos + 4 + 3] == payload[3]);
    assert(buf[pos + 4 + 4] == payload[4]);
    assert(buf[pos + 4 + 5] == payload[5]);
}

/// Of the frame types only baseline and progressive Huffman are decoded: a
/// header with any other SOF marker is refused, and so is any SOF between
/// scans.
pub proof fn law_other_frame_markers_are_refused(buf: Seq<u8>, w: Walk, t: Tables, frame: Frame, marker: u8)
    requires
        w.c.err is None,
        t.c.err is None,
        0xC0 <= marker <= 0xCF,
        marker != 0xC4,
        marker != 0xC8,
    ensures
        marker != 0xC0 && marker != 0xC2 ==> refused(
            header_segment(buf, w, marker),
            DecodeError::Unsupported("non-baseline/progressive SOFn"),
        ),
        inner_segment(buf, t, frame, marker).0.c.err == Some(DecodeError::Malformed("unexpected SOF between scans")),
{
}

/// A scan needs a frame before it, and an image a scan. An EOI after a scan
/// ends the image.
pub proof fn law_frame_scan_and_end_come_in_order(buf: Seq<u8>, w: Walk, t: Tables, frame: Frame)
    requires
        w.c.err is None,
        t.c.err is None,
    ensures
        w.frame is None ==> refused(header_segment(buf, w, 0xDA), DecodeError::Malformed("SOS before SOF")),
        refused(header_segment(buf, w, 0xD9), DecodeError::Malformed("EOI before SOS")),
        inner_segment(buf, t, frame, 0xD9) == (t, Between::End),
{
}

/// A marker that means nothing to the decoder.
pub open spec fn is_unknown(marker: u8) -> bool {
    ||| 0x01 <= marker <= 0xBF
    ||| marker == 0xC8
    ||| 0xD0 <= marker <= 0xD8
    ||| marker == 0xDC
    ||| marker == 0xDE
    ||| marker == 0xDF
    ||| 0xF0 <= marker <= 0xFD
}

/// Segments with a marker that means nothing to the decoder do not matter,
/// neither before the first scan nor between scans.
pub proof fn law_unknown_segments_do_not_matter(
    buf: Seq<u8>,
    w: Walk,
    t: Tables,
    frame: Frame,
    pos: int,
    marker: u8,
    payload: Seq<u8>,
)
    requires
        w.c == Cursor::at(pos),
        t.c == Cursor::at(pos),
        segment_at(buf, pos, marker, payload),
        is_unknown(marker),
    ensures
        walk_to_scan(buf, w) == walk_to_scan(buf, walk_at(w, pos + 4 + payload.len())),
        walk_between(buf, t, frame, None) == walk_between(
            buf,
            Tables { c: Cursor::at(pos + 4 + payload.len()), ..t },
            frame,
            None,
        ),
{
    lemma_segment_is_read(buf, pos, marker, payload);
}

/// A stream begins with `FF D8`. One that does not is refused.
pub proof fn law_stream_begins_with_soi(src: Seq<u8>)
    ensures
        src.len() == 0 ==> parsed(src) == Err::<Parsed, DecodeError>(DecodeError::UnexpectedEof),
        src.len() >= 1 && src[0] != 0xFF ==> parsed(src) == Err::<Parsed, DecodeError>(
            DecodeError::Malformed("missing SOI marker"),
        ),
        src.len() == 1 && src[0] == 0xFF ==> parsed(src) == Err::<Parsed, DecodeError>(DecodeError::UnexpectedEof),
        src.len() >= 2 && src[0] == 0xFF && src[1] != 0xD8 ==> parsed(src) == Err::<Parsed, DecodeError>(
            DecodeError::Malformed("missing SOI marker"),
        ),
{
}

/// The quantization tables of a segment follow each other: where the next 65
/// bytes hold a table, it is added, and the bytes behind it are read as the
/// tables that follow. A table of 16-bit entries, or for a slot beyond 3, is
/// refused, and so are fewer bytes than a table has.
pub proof fn law_quantization_tables_follow_each_other(
    buf: Seq<u8>,
    pos: int,
    remaining: int,
    acc: Seq<Quant>,
    table: Quant,
)
    requires
        0 <= pos,
        0 < remaining,
        pos + remaining <= buf.len() <= usize::MAX,
        table.values.len() == 64,
        remaining >= 65 ==> {
            &&& buf[pos] <= 3 ==> table.id == buf[pos]
            &&& forall|k: int| 0 <= k < 64 ==> table.values[#[trigger] ZIGZAG[k] as int] == buf[pos + 1 + k]
        },
    ensures
        ({
            let r = read_quant_tables(buf, Cursor::at(pos), remaining, acc);
            if buf[pos] % 16 > 3 {
                r.0.err == Some(DecodeError::Malformed("DQT id out of range")) && r.1 == acc
            } else if buf[pos] >= 16 {
                r.0.err == Some(DecodeError::Unsupported("16-bit DQT precision")) && r.1 == acc
            } else if remaining < 65 {
                r.0.err == Some(DecodeError::Malformed("DQT short payload")) && r.1 == acc
            } else {
                r == read_quant_tables(buf, Cursor::at(pos + 65), remaining - 65, acc.push(table))
            }
        }),
        read_quant_tables(buf, Cursor::at(pos), 0, acc) == (Cursor::at(pos), acc),
{
    if remaining >= 65 && buf[pos] <= 3 {
        let zz = buf.subrange(pos + 1, pos + 65);
        let natural = from_zigzag(zz.map_values(|v: u8| v as u16));
        assert forall|i: int| 0 <= i < 64 implies #[trigger] natural[i] == table.values[i] by {
            law_zigzag_is_permutation(i);
            let k = ZIGZAG_INVERSE[i] as int;
            assert(ZIGZAG[k] as int == i);
            assert(zz[k] == buf[pos + 1 + k]);
        }
        assert(natural =~= table.values);
    }
}

/// The Huffman tables of a segment follow each other: where the next bytes
/// hold a table, it is added, and the bytes behind it are read as the tables
/// that follow.
pub proof fn law_huffman_tables_follow_each_other(
    buf: Seq<u8>,
    pos: int,
    remaining: int,
    acc: Seq<Huff>,
    table: Huff,
)
    requires
        0 <= pos,
        17 + table.book.values.len() <= remaining,
        pos + remaining <= buf.len() <= usize::MAX,
        table.class <= 1,
        table.id <= 3,
        buf[pos] == 16 * table.class + table.id,
        table.book.bits == buf.subrange(pos + 1, pos + 17),
        table.book.values == buf.subrange(pos + 17, pos + 17 + table.book.values.len()),
        table.book.values.len() == table.book.offset(17),
        table.book.values.len() <= 256,
    ensures
        ({
            let n = 17 + table.book.values.len();
            read_huffman_tables(buf, Cursor::at(pos), remaining, acc) == read_huffman_tables(
                buf,
                Cursor::at(pos + n),
                remaining - n,
                acc.push(table),
            )
        }),
        read_huffman_tables(buf, Cursor::at(pos), 0, acc) == (Cursor::at(pos), acc),
{
    table.book.lemma_offset_of_bits(Seq::empty(), 17);
}

/// A Huffman table of an unknown class or for a slot beyond 3 is refused.
pub proof fn law_misplaced_huffman_tables_are_refused(buf: Seq<u8>, pos: int, remaining: int, acc: Seq<Huff>)
    requires
        0 <= pos < buf.len(),
        0 < remaining,
    ensures
        ({
            let r = read_huffman_tables(buf, Cursor::at(pos), remaining, acc);
            &&& buf[pos] >= 32 ==> r.0.err == Some(DecodeError::Malformed("DHT class out of range")) && r.1 == acc
            &&& buf[pos] < 32 && buf[pos] % 16 > 3 ==> r.0.err == Some(
                DecodeError::Malformed("DHT id out of range"),
            ) && r.1 == acc
        }),
{
}

/// What shorter codes take up is part of what longer ones leave.
proof fn lemma_taken_grows(book: CodeBook, a: int, b: int)
    requires
        1 <= a <= b,
    ensures
        0 <= taken_below(book, a) <= taken_below(book, b),
    decreases b,
{
    if b > 1 {
        let c = book.count(b - 1);
        let p = pow2((16 - (b - 1)) as nat) as int;
        assert(0 <= c * p) by (nonlinear_arith)
            requires
                0 <= c,
                0 <= p,
        ;
        if a < b {
            lemma_taken_grows(book, a, b - 1);
        } else {
            lemma_taken_grows(book, a - 1, b - 1);
        }
    }
}

/// A table is refused if it has not as many symbols as codes, or none at
/// all, or if its codes of up to 8 bits take up more than all the bit
/// patterns there are.
pub proof fn law_tables_that_do_not_fit_are_refused(book: CodeBook)
    ensures
        decode_table_error(book) == if book.values.len() != book.offset(17) {
            Some(DecodeError::Malformed("DHT bits/values mismatch"))
        } else if book.values.len() == 0 {
            Some(DecodeError::Malformed("empty DHT table"))
        } else if taken_below(book, 9) > 65536 {
            Some(DecodeError::Malformed("oversubscribed DHT table"))
        } else {
            None
        },
{
    lemma2_to64();
    law_codes_are_given_out_without_gaps(book, 8);
    let p = pow2((16 - 8) as nat) as int;
    assert(p == 256);
    let (f, c) = (book.first_code(8), book.count(8));
    assert(taken_below(book, 9) == f * p + c * p);
    assert(f * p + c * p == 256 * (f + c)) by (nonlinear_arith)
        requires
            p == 256,
    ;
}

/// A table whose codes fit into the bit patterns there are is accepted, in
/// either class. So no table that a coder can use is refused.
pub proof fn law_tables_that_fit_are_accepted(h: Huff)
    requires
        h.class <= 1,
        h.book.bits.len() == 16,
        h.book.values.len() == h.book.offset(17),
        h.book.values.len() >= 1,
        taken_below(h.book, 17) <= 65536,
    ensures
        huff_error(h) is None,
{
    let book = h.book;
    lemma_taken_grows(book, 9, 17);
    law_tables_that_do_not_fit_are_refused(book);
    let ac = h.class == 1;
    assert forall|l: int, k: int| !#[trigger] fast_code_overflows(book, ac, l, k) by {
        if 1 <= l <= 10 && 0 <= k < book.count(l) {
            law_codes_are_given_out_without_gaps(book, l);
            lemma_taken_grows(book, l + 1, 17);
            lemma_pow2_adds(l as nat, (16 - l) as nat);
            lemma2_to64();
            let (f, c) = (book.first_code(l), book.count(l));
            let p = pow2((16 - l) as nat) as int;
            let q = pow2(l as nat) as int;
            assert(taken_below(book, l + 1) == f * p + c * p);
            assert(f + k < q) by (nonlinear_arith)
                requires
                    f * p + c * p <= 65536,
                    q * p == 65536,
                    p > 0,
                    k < c,
            ;
        }
    }
    assert(!fast_codes_overflow(book, ac));
}

/// A table of a class other than 0 and 1 is refused, and so is one with a
/// code that does not fit in its length and whose term is short enough for
/// the combined lookup.
pub proof fn law_tables_with_overlong_codes_are_refused(h: Huff, l: int, k: int)
    ensures
        h.class > 1 ==> huff_error(h) == Some(DecodeError::Malformed("DHT class > 1")),
        ({
            let sym = h.book.values[h.book.offset(l) + k];
            let size = if h.class == 1 {
                sym as int % 16
            } else {
                sym as int
            };
            1 <= l <= 10 && 0 <= k < h.book.count(l) && l + size <= 10 && h.book.first_code(l) + k >= pow2(
                l as nat,
            ) ==> huff_error(h) is Some
        }),
{
    let sym = h.book.values[h.book.offset(l) + k];
    assert(fast_code_overflows(h.book, h.class == 1, l, k) || !(1 <= l <= 10 && 0 <= k < h.book.count(l) && l
        + term_size(sym, h.class == 1) <= 10 && h.book.first_code(l) + k >= pow2(l as nat)));
}

/// Where the data end without a marker, bits that are not there yet cannot
/// be read.
pub proof fn law_missing_data_are_an_error(src: Seq<u8>, s: BitState, n: int)
    requires
        s.marker is None,
        s.pos >= src.len(),
        s.nbits < n,
    ensures
        read_bits(src, s, n) == (s, Err::<u32, DecodeError>(DecodeError::UnexpectedEof)),
{
}

/// A DC symbol announces at most 16 bits. A larger one is refused, once it
/// is read.
pub proof fn law_large_dc_categories_are_refused(src: Seq<u8>, s: BitState, book: CodeBook)
    ensures
        ({
            let f = ensure_bits(src, s, 10);
            let (t, sym) = read_symbol(src, f.st, book);
            match sym {
                Err(e) => true,
                Ok(v) => f.ok && v > 16 ==> read_dc(src, s, book) == (
                    t,
                    Err::<(int, int), DecodeError>(DecodeError::Malformed("DC magnitude category > 16")),
                ),
            }
        }),
{
}

/// In a baseline block a symbol that announces no bits ends the block, unless
/// it stands for sixteen zeros, and a run that leads out of the block is an
/// error. Neither changes a coefficient.
pub proof fn law_terms_stay_in_the_block(src: Seq<u8>, x: Block, book: CodeBook, qt: Seq<u16>, k: int)
    requires
        k < 64,
    ensures
        ({
            let (br, r) = read_ac(src, x.br, book);
            let y = read_ac_terms(src, x, book, qt, k);
            match r {
                Err(e) => y == (Block { br, err: Some(e), ..x }),
                Ok((run, size, bits)) => {
                    &&& size == 0 && (run != 15 || k >= 48) ==> y == (Block { br, ..x })
                    &&& size != 0 && k + run > 63 ==> y == (Block {
                        br,
                        err: Some(DecodeError::Malformed("AC run exceeded block")),
                        ..x
                    })
                },
            }
        }),
{
    reveal_with_fuel(read_ac_terms, 2);
}

/// An entry of a scan is decoded with the component that has its identifier,
/// with the DC and AC tables that it selects, and with the quantization table
/// that its component selects. A table that was never defined is an error.
pub proof fn law_scan_entries_select_their_tables(ctx: ScanContext, ci: int, i: int)
    requires
        0 <= ci < ctx.scan.components.len(),
        find_component_from(ctx.frame.components, ctx.scan.components[ci].component_id, 0) == Some(i),
        ctx.dc.len() == 4,
        ctx.ac.len() == 4,
        ctx.quant.len() == 4,
        ctx.scan.components[ci].dc_table <= 3,
        ctx.scan.components[ci].ac_table <= 3,
        ctx.frame.components[i].qt <= 3,
    ensures
        ({
            let entry = ctx.scan.components[ci];
            let component = ctx.frame.components[i];
            let r = scan_part(ctx, ci);
            if ctx.dc[entry.dc_table as int] is None {
                r matches Err(e) && e == DecodeError::Malformed("scan refers to undefined DC table")
            } else if ctx.ac[entry.ac_table as int] is None {
                r matches Err(e) && e == DecodeError::Malformed("scan refers to undefined AC table")
            } else if ctx.quant[component.qt as int] is None {
                r matches Err(e) && e == DecodeError::Malformed("scan refers to undefined quant table")
            } else {
                &&& r matches Ok(part)
                &&& part.index == i
                &&& part.component == component
                &&& Some(part.dc) == ctx.dc[entry.dc_table as int]
                &&& Some(part.ac) == ctx.ac[entry.ac_table as int]
                &&& Some(part.quant) == ctx.quant[component.qt as int]
            }
        }),
{
}

/// The parameters of a progressive scan are in order if the band lies within
/// the 64 coefficients and is either the DC coefficient alone or AC
/// coefficients of a single component, and if the bit position is at most 13
/// and, in a further scan, below the one before. Otherwise the scan is
/// refused before anything is read.
pub proof fn law_bands_are_checked(ctx: BandContext, start: int, coefs: Seq<Seq<Seq<i16>>>)
    ensures
        ({
            let (ss, se, ah, al) = (ctx.scan.ss, ctx.scan.se, ctx.scan.ah, ctx.scan.al);
            let s = progressive_scan(ctx, start, coefs);
            let refuses = |why: &'static str|
                s.err == Some(DecodeError::Malformed(why)) && s.coefs == coefs && s.br.pos == start;
            if se > 63 || ss > se {
                refuses("invalid SOS spectral selection")
            } else if ss == 0 && se > 0 {
                refuses("DC scan must have Se == 0")
            } else if ss > 0 && ctx.scan.components.len() != 1 {
                refuses("progressive AC scan must be non-interleaved")
            } else if al > 13 || ah > 13 {
                refuses("Ah/Al out of range")
            } else if ah > 0 && al >= ah {
                refuses("Al must be < Ah for refinement")
            } else {
                has_unknown_component(ctx) ==> refuses("scan refers to unknown component")
            }
        }),
{
    reveal(progressive_scan);
}

/// A progressive AC scan is decoded with the table that it selects, over all
/// blocks of its component. If that table was never defined, this is an
/// error.
pub proof fn law_band_scans_select_their_table(ctx: BandContext, start: int, coefs: Seq<Seq<Seq<i16>>>, i: int)
    requires
        ctx.scan.components.len() == 1,
        entry_component(ctx, 0) == Some(i),
        1 <= ctx.scan.ss <= ctx.scan.se <= 63,
        ctx.scan.al <= 13,
        ctx.scan.ah <= 13,
        ctx.scan.ah == 0 || ctx.scan.al < ctx.scan.ah,
        ctx.ac.len() == 4,
        ctx.scan.components[0].ac_table <= 3,
    ensures
        ({
            let begin = BandState {
                br: BitState { pos: start, buf: 0, nbits: 0, marker: None },
                prev_dc: seq![0i32, 0i32, 0i32, 0i32],
                eobrun: 0,
                since: 0,
                coefs,
                err: None,
            };
            match ctx.ac[ctx.scan.components[0].ac_table as int] {
                None => progressive_scan(ctx, start, coefs).err == Some(
                    DecodeError::Malformed("scan refers to undefined AC table"),
                ),
                Some(book) => progressive_scan(ctx, start, coefs) == ac_blocks(
                    ctx,
                    begin,
                    i,
                    book,
                    (ctx.frame.blocks_x(i) * ctx.frame.blocks_y(i)) as nat,
                ),
            }
        }),
{
    reveal(progressive_scan);
}

/// A marker in the data is noted, taken with its `FF`, and read as zero
/// bits, of which eight are fetched.
pub proof fn law_marker_ends_the_data(src: Seq<u8>, s: BitState)
    requires
        s.marker is None,
        0 <= s.pos,
        s.pos + 1 < src.len(),
        src[s.pos] == 0xFF,
        src[s.pos + 1] != 0,
    ensures
        ({
            let f = fetch_byte(src, s);
            &&& f.ok
            &&& f.st.marker == Some(src[s.pos + 1])
            &&& f.st.pos == s.pos + 2
            &&& f.st.nbits == s.nbits + 8
            &&& f.st.buf == 256 * s.buf
        }),
{
}

/// Where no marker is left, a restart that is due fails, and nothing is left
/// to read.
pub proof fn law_restart_needs_a_marker(src: Seq<u8>, br: BitState)
    requires
        br.marker is None,
        0 <= br.pos,
        forall|i: int| br.pos <= i && i + 1 < src.len() && #[trigger] src[i] == 0xFF ==> src[i + 1] == 0,
    ensures
        restart(src, br).1 == Some(DecodeError::UnexpectedEof),
        restart(src, br).0.pos >= src.len(),
{
    lemma_no_marker(src, br.pos);
}

/// Nor is a marker found.
proof fn lemma_no_marker(src: Seq<u8>, pos: int)
    requires
        0 <= pos,
        forall|i: int| pos <= i && i + 1 < src.len() && #[trigger] src[i] == 0xFF ==> src[i + 1] == 0,
    ensures
        next_marker(src, pos) is None,
    decreases src.len() - pos,
{
    if pos < src.len() {
        if src[pos] != 0xFF {
            lemma_no_marker(src, pos + 1);
        } else if pos + 1 < src.len() {
            lemma_no_marker(src, pos + 2);
        }
    }
}

/// There is an ICC profile if all segments agree on a number of chunks, at
/// least one, and the chunks are numbered from one to that number. Otherwise
/// there is none.
pub proof fn law_icc_profile_is_complete(src: Seq<u8>, m: Metadata)
    ensures
        icc_of(src, m) is Some <==> {
            &&& m.icc_total matches Some(total)
            &&& total >= 1
            &&& !m.icc_conflict
            &&& forall|k: u8| #[trigger] m.icc_chunks.contains_key(k) <==> 1 <= k <= total
        },
{
    if let Some(total) = m.icc_total {
        let all = chunk_numbers(total);
        if m.icc_chunks.dom() =~= all {
            assert forall|k: u8| #[trigger] m.icc_chunks.contains_key(k) <==> 1 <= k <= total by {
                assert(m.icc_chunks.dom().contains(k) == all.contains(k));
            }
        } else if forall|k: u8| #[trigger] m.icc_chunks.contains_key(k) <==> 1 <= k <= total {
            assert forall|k: u8| m.icc_chunks.dom().contains(k) == all.contains(k) by {
                assert(m.icc_chunks.contains_key(k) <==> 1 <= k <= total);
            }
            assert(m.icc_chunks.dom() =~= all);
        }
    }
}

/// A chunk that announces another number of chunks than the first did is not
/// kept, and the disagreement is noted for good.
pub proof fn law_disagreeing_icc_chunks_are_noted(
    buf: Seq<u8>,
    w: Walk,
    pos: int,
    payload: Seq<u8>,
    number: u8,
    total: u8,
    chunk: Seq<u8>,
    c: Cursor,
    m: Metadata,
)
    requires
        w.c == Cursor::at(pos),
        w.metadata.icc_total is Some,
        w.metadata.icc_total != Some(total),
        segment_at(buf, pos, 0xE2, payload),
        payload == seq![0x49u8, 0x43, 0x43, 0x5F, 0x50, 0x52, 0x4F, 0x46, 0x49, 0x4C, 0x45, 0] + seq![number, total]
            + chunk,
    ensures
        walk_to_scan(buf, w) == walk_to_scan(
            buf,
            Walk {
                metadata: Metadata { icc_conflict: true, ..w.metadata },
                ..walk_at(w, pos + 4 + payload.len())
            },
        ),
        m.icc_conflict ==> read_app2(buf, c, m).1.icc_conflict,
{
    lemma_segment_is_read(buf, pos, 0xE2, payload);
    assert(ICC_ID@ =~= seq![0x49u8, 0x43, 0x43, 0x5F, 0x50, 0x52, 0x4F, 0x46, 0x49, 0x4C, 0x45, 0]);
    assert(payload.subrange(0, 12) =~= ICC_ID@);
    assert(ICC_ID@.is_prefix_of(payload));
    assert(payload[12] == number && payload[13] == total);
}

/// Why an image is not composed: CMYK is for images of four components, these
/// are for CMYK only, and colors need one component or three.
pub proof fn law_unfit_layouts_are_refused(samples: Seq<Seq<u8>>, frame: Frame, layout: PixelLayout)
    ensures
        ({
            let n = frame.components.len();
            let r = composed(samples, frame, layout);
            match layout.spec_class() {
                PixelClass::Cmyk => n != 4 ==> (r matches Err(e) && e == DecodeError::Unsupported(
                    "PixelFormat::Cmyk requires a 4-component source JPEG",
                )),
                PixelClass::Gray => n == 4 ==> (r matches Err(e) && e is Unsupported),
                PixelClass::Rgb => {
                    &&& n == 4 ==> (r matches Err(e) && e is Unsupported)
                    &&& n == 2 ==> (r matches Err(e) && e == DecodeError::Unsupported(
                        "unsupported component count",
                    ))
                },
            }
        }),
{
}

/// A stream is what its walk finds: the frame, the tables, the interval, the
/// metadata and the first scan, whose data begin where the walk ends. The
/// scans are decoded from there on, as the frame is coded.
pub proof fn law_stream_is_what_its_walk_finds(src: Seq<u8>, w: Walk, scan: Scan, frame: Frame)
    requires
        src.len() >= 2,
        src[0] == 0xFF,
        src[1] == 0xD8,
        w.frame == Some(frame),
        walk_to_scan(
            src,
            Walk {
                c: Cursor::at(2),
                frame: None,
                quant: Seq::empty(),
                huffman: Seq::empty(),
                restart_interval: 0,
                metadata: Metadata { exif: None, icc_chunks: Map::empty(), icc_total: None, icc_conflict: false },
            },
        ) == (w, Some(scan)),
    ensures
        ({
            let tables = Tables {
                c: Cursor::at(w.c.pos),
                quant: w.quant,
                huffman: w.huffman,
                restart_interval: w.restart_interval,
            };
            &&& parsed(src) matches Ok(p)
            &&& p.src == src
            &&& p.headers.frame == frame
            &&& p.headers.quant == w.quant
            &&& p.headers.huffman == w.huffman
            &&& p.headers.restart_interval == w.restart_interval
            &&& p.headers.metadata == w.metadata
            &&& p.first_scan == scan
            &&& p.entropy_start == w.c.pos
            &&& frame.progressive ==> p.samples() == progressive_samples(src, frame, tables, scan)
            &&& !frame.progressive ==> p.samples() == baseline_scans(
                src,
                frame,
                tables,
                scan,
                blank_samples(frame),
            )
        }),
{
}

/// A marker that the data have led to already is the one that a restart
/// takes: behind a restart marker reading starts afresh at once, and any
/// other is an error.
pub proof fn law_noted_marker_is_taken_for_the_restart(src: Seq<u8>, br: BitState, m: u8)
    requires
        br.marker == Some(m),
    ensures
        restart(src, br) == if 0xD0 <= m <= 0xD7 {
            (BitState { pos: br.pos, buf: 0, nbits: 0, marker: None }, None::<DecodeError>)
        } else {
            (
                BitState { pos: br.pos, buf: 0, nbits: 0, marker: Some(m) },
                Some(DecodeError::Malformed("expected RSTn between intervals")),
            )
        },
{
}

/// A restart that is due, in a scan of either kind, leads where the reader's
/// restart leads, and fails where that fails.
pub proof fn law_due_restarts_are_taken(ctx: ScanContext, s: ScanState, band: BandContext, t: BandState)
    requires
        s.err is None,
        ctx.interval > 0,
        s.since == ctx.interval,
        t.err is None,
        band.interval > 0,
        t.since == band.interval,
    ensures
        restart_if_due(ctx, s).br == restart(ctx.src, s.br).0,
        restart_if_due(ctx, s).err == restart(ctx.src, s.br).1,
        band_restart_if_due(band, t).br == restart(band.src, t.br).0,
        band_restart_if_due(band, t).err == restart(band.src, t.br).1,
{
}

/// An APP1 segment without the EXIF identifier, and an APP2 segment without
/// the identifier and the numbers of an ICC chunk, do not matter.
pub proof fn law_other_metadata_do_not_matter(buf: Seq<u8>, w: Walk, pos: int, marker: u8, payload: Seq<u8>)
    requires
        w.c == Cursor::at(pos),
        segment_at(buf, pos, marker, payload),
        ({
            let exif = seq![0x45u8, 0x78, 0x69, 0x66, 0, 0];
            let icc = seq![0x49u8, 0x43, 0x43, 0x5F, 0x50, 0x52, 0x4F, 0x46, 0x49, 0x4C, 0x45, 0];
            ||| marker == 0xE1 && !exif.is_prefix_of(payload)
            ||| marker == 0xE2 && (payload.len() < 14 || !icc.is_prefix_of(payload))
        }),
    ensures
        walk_to_scan(buf, w) == walk_to_scan(buf, walk_at(w, pos + 4 + payload.len())),
{
    lemma_segment_is_read(buf, pos, marker, payload);
    assert(EXIF_ID@ =~= seq![0x45u8, 0x78, 0x69, 0x66, 0, 0]);
    assert(ICC_ID@ =~= seq![0x49u8, 0x43, 0x43, 0x5F, 0x50, 0x52, 0x4F, 0x46, 0x49, 0x4C, 0x45, 0]);
}

} // verus!
