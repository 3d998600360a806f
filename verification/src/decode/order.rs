//! What follows what in an image: the blocks of a scan with their predictors
//! and tables, and the scans with the segments between them.

use vstd::prelude::*;

verus! {

use super::baseline::{
    baseline_scan, baseline_scans, block_step, fill_slots, mcu_blocks, mcu_entries, mcus, placed, quant_slots,
    scan_part, ScanContext, ScanPart, ScanState,
};
use super::coding::{
    block_coding, block_fits, dc_coding, law_dc_refinement_adds_its_bit, law_written_dc_is_read,
    lemma_written_block_is_natural, natural_of, readable, upcoming,
};
use super::error::DecodeError;
use super::huffman::{BitState, CodeBook};
use super::markers::{walk_between, Between, Cursor, Frame, Scan, Tables};
use super::progressive::{
    dc_block_step, dc_blocks, dc_entries, dc_mcus, entry_component, has_unknown_component,
    law_transformed_samples_are_in_place, natural_block, progressive_scan,
    progressive_scans, transformed_planes, BandContext, BandState,
};
use crate::arch::scalar::dct::idct_block;
use vstd::arithmetic::power2::pow2;

/// A written block of any component of a scan is decoded and placed: its DC
/// coefficient counts from the predictor of its own component and becomes
/// that predictor, its samples stand at their place in its own plane, and
/// neither the other predictors nor the other planes change.
#[verifier::rlimit(40)]
#[verifier::spinoff_prover]
pub proof fn law_written_block_is_placed(
    ctx: ScanContext,
    s: ScanState,
    ci: int,
    part: ScanPart,
    bx: int,
    by: int,
    zz: Seq<int>,
    tail: Seq<bool>,
)
    requires
        s.err is None,
        0 <= ci < s.prev_dc.len(),
        0 <= part.index < s.planes.len(),
        part.dc.bits.len() == 16,
        part.ac.bits.len() == 16,
        readable(s.br),
        block_fits(zz, part.quant),
        -32767 <= s.prev_dc[ci] <= 32767,
        block_coding(part.dc, part.ac, zz, s.prev_dc[ci] as int) is Some,
        upcoming(ctx.src, s.br, block_coding(part.dc, part.ac, zz, s.prev_dc[ci] as int)->0 + tail),
        tail.len() >= 10,
    ensures
        ({
            let t = block_step(ctx, s, ci, part, bx, by);
            &&& t.err is None
            &&& t.since == s.since
            &&& t.prev_dc == s.prev_dc.update(ci, zz[0] as i32)
            &&& t.planes == s.planes.update(
                part.index,
                placed(
                    s.planes[part.index],
                    ctx.frame.stride(part.index),
                    8 * bx,
                    8 * by,
                    idct_block(natural_of(zz, part.quant)),
                ),
            )
            &&& readable(t.br)
            &&& upcoming(ctx.src, t.br, tail)
        }),
{
    assert(-32767 <= zz[0] <= 32767);
    lemma_written_block_is_natural(
        ctx.src,
        s.br,
        part.dc,
        part.ac,
        part.quant,
        s.prev_dc[ci] as int,
        zz,
        tail,
    );
}

/// In an MCU the components follow each other in the order of the scan, each
/// with as many blocks as its sampling factors call for, and a scan of
/// several components has all the MCUs that cover the image.
pub proof fn law_components_follow_each_other(
    ctx: ScanContext,
    s: ScanState,
    mx: int,
    my: int,
    ci: nat,
    start: int,
    planes: Seq<Seq<u8>>,
)
    ensures
        mcu_entries(ctx, s, mx, my, 0) == s,
        ({
            let t = mcu_entries(ctx, s, mx, my, ci);
            match scan_part(ctx, ci as int) {
                Ok(part) => t.err is None ==> mcu_entries(ctx, s, mx, my, ci + 1) == mcu_blocks(
                    ctx,
                    t,
                    ci as int,
                    part,
                    mx,
                    my,
                    (part.component.h * part.component.v) as nat,
                ),
                Err(e) => t.err is None ==> mcu_entries(ctx, s, mx, my, ci + 1) == (ScanState {
                    err: Some(e),
                    ..t
                }),
            }
        }),
        ctx.scan.components.len() > 1 ==> baseline_scan(ctx, start, planes) == mcus(
            ctx,
            ScanState {
                br: BitState { pos: start, buf: 0, nbits: 0, marker: None },
                prev_dc: seq![0i32, 0i32, 0i32, 0i32],
                since: 0,
                planes,
                err: None,
            },
            (ctx.frame.mcus_x() * ctx.frame.mcus_y()) as nat,
        ),
{
    reveal(baseline_scan);
}

/// A written DC coefficient of any component comes out at its block: it
/// counts from the predictor of its own component, becomes that predictor,
/// and is kept at the bit position of the scan.
#[verifier::rlimit(40)]
#[verifier::spinoff_prover]
pub proof fn law_written_dc_is_placed(
    ctx: BandContext,
    s: BandState,
    i: int,
    table: int,
    bx: int,
    by: int,
    book: CodeBook,
    v: int,
    tail: Seq<bool>,
)
    requires
        s.err is None,
        ctx.scan.ah == 0,
        ctx.scan.al <= 13,
        0 <= table < ctx.dc.len(),
        ctx.dc[table] == Some(book),
        book.bits.len() == 16,
        0 <= i < s.prev_dc.len(),
        -32767 <= s.prev_dc[i] <= 32767,
        -32767 <= v <= 32767,
        -32768 <= v * pow2(ctx.scan.al as nat) <= 32767,
        readable(s.br),
        dc_coding(book, v - s.prev_dc[i]) is Some,
        upcoming(ctx.src, s.br, dc_coding(book, v - s.prev_dc[i])->0 + tail),
        tail.len() >= 8,
    ensures
        ({
            let t = dc_block_step(ctx, s, i, table, bx, by);
            let at = by * ctx.frame.blocks_x(i) + bx;
            &&& t.err is None
            &&& t.prev_dc == s.prev_dc.update(i, v as i32)
            &&& t.eobrun == s.eobrun
            &&& t.since == s.since
            &&& readable(t.br)
            &&& upcoming(ctx.src, t.br, tail)
            &&& bx < ctx.frame.blocks_x(i) && by < ctx.frame.blocks_y(i) && 0 <= i < s.coefs.len() && 0 <= at
                < s.coefs[i].len() && 0 < s.coefs[i][at].len() ==> t.coefs[i][at][0] == v * pow2(ctx.scan.al as nat)
        }),
{
    let at = by * ctx.frame.blocks_x(i) + bx;
    law_written_dc_is_read(
        ctx.src,
        s.br,
        book,
        s.prev_dc[i] as int,
        v,
        ctx.scan.al as int,
        s.coefs[i][at][0],
        tail,
    );
    law_written_dc_is_read(ctx.src, s.br, book, s.prev_dc[i] as int, v, ctx.scan.al as int, 0, tail);
}

/// A refining bit of a DC coefficient adds its value to the coefficient of
/// its block, and changes no predictor.
pub proof fn law_written_dc_refinement_is_placed(
    ctx: BandContext,
    s: BandState,
    i: int,
    table: int,
    bx: int,
    by: int,
    bit: bool,
    tail: Seq<bool>,
)
    requires
        s.err is None,
        ctx.scan.ah != 0,
        ctx.scan.al <= 13,
        readable(s.br),
        0 <= bx < ctx.frame.blocks_x(i),
        0 <= by < ctx.frame.blocks_y(i),
        0 <= i < s.coefs.len(),
        0 <= by * ctx.frame.blocks_x(i) + bx < s.coefs[i].len(),
        0 < s.coefs[i][by * ctx.frame.blocks_x(i) + bx].len(),
        s.coefs[i][by * ctx.frame.blocks_x(i) + bx][0] as int % (2 * pow2(ctx.scan.al as nat)) as int == 0,
        upcoming(ctx.src, s.br, seq![bit] + tail),
    ensures
        ({
            let t = dc_block_step(ctx, s, i, table, bx, by);
            let at = by * ctx.frame.blocks_x(i) + bx;
            &&& t.err is None
            &&& t.prev_dc == s.prev_dc
            &&& readable(t.br)
            &&& upcoming(ctx.src, t.br, tail)
            &&& t.coefs[i][at][0] == s.coefs[i][at][0] + if bit {
                pow2(ctx.scan.al as nat) as int
            } else {
                0
            }
        }),
{
    let at = by * ctx.frame.blocks_x(i) + bx;
    law_dc_refinement_adds_its_bit(ctx.src, s.br, ctx.scan.al, s.coefs[i][at][0], bit, tail);
}

/// A block that pads an MCU is read like any other: the reader, the
/// predictors and the error are the same wherever a block stands, and a block
/// outside the grid leaves all coefficients alone.
pub proof fn law_padding_blocks_are_read_and_dropped(
    ctx: BandContext,
    s: BandState,
    i: int,
    table: int,
    bx: int,
    by: int,
    cx: int,
    cy: int,
)
    requires
        bx >= ctx.frame.blocks_x(i) || by >= ctx.frame.blocks_y(i),
    ensures
        ({
            let t = dc_block_step(ctx, s, i, table, bx, by);
            let u = dc_block_step(ctx, s, i, table, cx, cy);
            &&& t.br == u.br
            &&& t.prev_dc == u.prev_dc
            &&& t.err == u.err
            &&& t.coefs == s.coefs
        }),
{
}

/// In an MCU of a DC scan the components follow each other in the order of
/// the scan, each with the table that it selects and as many blocks as its
/// sampling factors call for. A scan of a single component has one block to
/// an MCU and as many MCUs as the component has blocks, one of several
/// components as many as cover the image.
pub proof fn law_dc_components_follow_each_other(
    ctx: BandContext,
    s: BandState,
    mx: int,
    my: int,
    e: nat,
    i: int,
    start: int,
    coefs: Seq<Seq<Seq<i16>>>,
)
    requires
        e < ctx.scan.components.len(),
        entry_component(ctx, e as int) == Some(i),
    ensures
        dc_entries(ctx, s, mx, my, 0) == s,
        dc_entries(ctx, s, mx, my, e + 1) == dc_blocks(
            ctx,
            dc_entries(ctx, s, mx, my, e),
            i,
            ctx.scan.components[e as int].dc_table as int,
            mx,
            my,
            if ctx.scan.components.len() == 1 {
                1
            } else {
                (ctx.frame.components[i].h * ctx.frame.components[i].v) as nat
            },
        ),
        ctx.scan.ss == 0 && ctx.scan.se == 0 && ctx.scan.al <= 13 && ctx.scan.ah <= 13 && (ctx.scan.ah == 0
            || ctx.scan.al < ctx.scan.ah) && !has_unknown_component(ctx) ==> progressive_scan(ctx, start, coefs)
            == dc_mcus(
            ctx,
            BandState {
                br: BitState { pos: start, buf: 0, nbits: 0, marker: None },
                prev_dc: seq![0i32, 0i32, 0i32, 0i32],
                eobrun: 0,
                since: 0,
                coefs,
                err: None,
            },
            if ctx.scan.components.len() == 1 {
                (ctx.frame.blocks_x(i) * ctx.frame.blocks_y(i)) as nat
            } else {
                (ctx.frame.mcus_x() * ctx.frame.mcus_y()) as nat
            },
        ),
{
    reveal(progressive_scan);
    assert(1int * 1int == 1);
}

/// Every component of a progressive image is transformed with the table that
/// it selects: the sample in column `col` and row `row` of its plane is that
/// of its block there, dequantized by that table.
pub proof fn law_components_are_transformed_with_their_tables(
    frame: Frame,
    coefs: Seq<Seq<Seq<i16>>>,
    quant: Seq<Option<Seq<u16>>>,
    n: nat,
    i: int,
    col: int,
    row: int,
)
    requires
        0 <= i < n <= frame.components.len(),
        frame.components[i].qt < quant.len(),
        0 <= col < frame.stride(i),
        0 <= row < frame.padded_height(i),
        col < 8 * frame.blocks_x(i),
        row < 8 * frame.blocks_y(i),
    ensures
        match transformed_planes(frame, coefs, quant, n) {
            Err(e) => e == DecodeError::Malformed("frame component refers to undefined quant table"),
            Ok(planes) => {
                &&& planes.len() == n
                &&& quant[frame.components[i].qt as int] matches Some(qt)
                &&& planes[i][row * frame.stride(i) + col] == idct_block(
                    natural_block(coefs[i][(row / 8) * frame.blocks_x(i) + col / 8], qt),
                )[8 * (row % 8) + col % 8]
            },
        },
    decreases n,
{
    if i < n - 1 {
        law_components_are_transformed_with_their_tables(frame, coefs, quant, (n - 1) as nat, i, col, row);
    } else {
        lemma_planes_so_far(frame, coefs, quant, (n - 1) as nat);
        let (st, ph) = (frame.stride(i), frame.padded_height(i));
        assert(0 <= row * st + col < st * ph) by (nonlinear_arith)
            requires
                0 <= col < st,
                0 <= row < ph,
        ;
        if let Some(qt) = quant[frame.components[i].qt as int] {
            law_transformed_samples_are_in_place(
                coefs[i],
                qt,
                frame.blocks_x(i),
                frame.blocks_y(i),
                st,
                col,
                row,
            );
        }
    }
}

/// The planes of the first components.
proof fn lemma_planes_so_far(frame: Frame, coefs: Seq<Seq<Seq<i16>>>, quant: Seq<Option<Seq<u16>>>, n: nat)
    ensures
        match transformed_planes(frame, coefs, quant, n) {
            Err(e) => e == DecodeError::Malformed("frame component refers to undefined quant table"),
            Ok(planes) => planes.len() == n,
        },
    decreases n,
{
    if n > 0 {
        lemma_planes_so_far(frame, coefs, quant, (n - 1) as nat);
    }
}

/// A baseline image goes on behind a scan with what the segments there say:
/// with the next scan, its tables and the samples so far, or, where the image
/// ends, not at all.
pub proof fn law_baseline_scans_follow_each_other(
    src: Seq<u8>,
    frame: Frame,
    t: Tables,
    scan: Scan,
    planes: Seq<Seq<u8>>,
)
    requires
        0 <= t.c.pos,
        fill_slots(t.huffman, t.huffman.len()).err is None,
    ensures
        ({
            let slots = fill_slots(t.huffman, t.huffman.len());
            let ctx = ScanContext {
                src,
                frame,
                scan,
                interval: t.restart_interval as int,
                dc: slots.dc,
                ac: slots.ac,
                quant: quant_slots(t.quant),
            };
            let s = baseline_scan(ctx, t.c.pos, planes);
            let (u, next) = walk_between(src, Tables { c: Cursor::at(s.br.pos), ..t }, frame, s.br.marker);
            let r = baseline_scans(src, frame, t, scan, planes);
            match s.err {
                Some(e) => r matches Err(f) && f == e,
                None => match u.c.err {
                    Some(e) => r matches Err(f) && f == e,
                    None => match next {
                        Between::Next(other) => r == baseline_scans(src, frame, u, other, s.planes),
                        _ => r matches Ok(all) && all == s.planes,
                    },
                },
            }
        }),
{
}

/// The same of a progressive image. The quantization tables are those at its
/// end.
pub proof fn law_progressive_scans_follow_each_other(
    src: Seq<u8>,
    frame: Frame,
    t: Tables,
    scan: Scan,
    coefs: Seq<Seq<Seq<i16>>>,
)
    requires
        0 <= t.c.pos,
        fill_slots(t.huffman, t.huffman.len()).err is None,
    ensures
        ({
            let slots = fill_slots(t.huffman, t.huffman.len());
            let ctx = BandContext {
                src,
                frame,
                scan,
                interval: t.restart_interval as int,
                dc: slots.dc,
                ac: slots.ac,
            };
            let s = progressive_scan(ctx, t.c.pos, coefs);
            let (u, next) = walk_between(src, Tables { c: Cursor::at(s.br.pos), ..t }, frame, s.br.marker);
            let r = progressive_scans(src, frame, t, scan, coefs);
            match s.err {
                Some(e) => r matches Err(f) && f == e,
                None => match u.c.err {
                    Some(e) => r matches Err(f) && f == e,
                    None => match next {
                        Between::Next(other) => r == progressive_scans(src, frame, u, other, s.coefs),
                        _ => r matches Ok(all) && all.0 == s.coefs && all.1 == u.quant,
                    },
                },
            }
        }),
{
}

} // verus!
