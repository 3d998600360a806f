//! A decoder looks forward only: where a stream holds the same bytes from a
//! position on as another does from a later one, both are read alike from
//! there.

use vstd::prelude::*;

verus! {

use super::baseline::{
    baseline_scan, baseline_scans, blank_samples, block_step, dequantized, fill_slots, lemma_baseline_scan_pos,
    mcu_blocks, mcu_entries, mcus, next_marker, quant_slots, read_ac_terms, read_block, restart, restart_if_due,
    scan_part, single_blocks, slot, zero_block, Block, ScanContext, ScanPart, ScanState,
};
use super::error::DecodeError;
use super::huffman::{
    be32, ensure_bits, extended, fetch_byte, fetch_until, read_ac, read_bits, read_dc, read_long_symbol, read_symbol,
    BitState, CodeBook,
};
use super::markers::{
    has_component, header_segment, inner_segment, law_headers_are_in_order, law_skipped_segments_do_not_matter,
    lemma_header_segment_advances, lemma_inner_segment_advances, lemma_marker_advances, lemma_walk_between_advances,
    read_app1, read_app2, read_dht, read_dqt, read_dri, read_frame_components, read_headers, read_huffman_tables,
    read_marker, read_quant_tables, read_scan_components, read_sof, read_sos, sampling_ok, segment_at, skip_ff,
    skip_segment, skip_to_ff, walk_at, walk_between, walk_to_scan, Between, Component, Cursor, Frame, Huff, Metadata,
    Quant, Scan, ScanComponent, Tables, Walk, M_SOF2, MAX_DIMENSION,
};
use super::progressive::{
    ac_block_step, ac_blocks, ac_first_terms, ac_refine_terms, at_bit, band_restart_if_due, blank_coefs,
    dc_block_step, dc_blocks, dc_coefficient, dc_entries, dc_first, dc_grid, dc_mcus, entry_component,
    has_unknown_component, insert_new, lemma_insert_bound, lemma_progressive_scan_pos, lemma_skip_bound,
    lemma_walks_advance, mcu_shape, progressive_scan, progressive_scans, read_eobrun, refine_band, refine_one,
    skip_zeros, BandBlock, BandContext, BandState,
};
use super::{parsed, Parsed};
use crate::color::PixelLayout;
use crate::fixed::wrap32;
use crate::tables::{from_zigzag, ZIGZAG};

/// From `from` on, `a` holds the bytes that `b` holds `d` further on. Neither
/// is so long that a segment could lead past the largest position.
pub open spec fn moved(a: Seq<u8>, b: Seq<u8>, from: int, d: int) -> bool {
    &&& 0 <= from
    &&& 0 <= d
    &&& b.len() == a.len() + d
    &&& b.len() + 0x1_0000 <= usize::MAX
    &&& forall|i: int| from <= i < a.len() ==> b[i + d] == #[trigger] a[i]
}

/// A cursor `d` further on.
pub open spec fn further(c: Cursor, d: int) -> Cursor {
    Cursor { pos: c.pos + d, ..c }
}

/// Two cursors read alike: the second is `d` further on than the first, which
/// lies past `from`.
pub open spec fn in_step(c: Cursor, e: Cursor, from: int, d: int) -> bool {
    e == further(c, d) && from <= c.pos
}

/// A byte.
proof fn lemma_u8(a: Seq<u8>, b: Seq<u8>, from: int, d: int, c: Cursor)
    requires
        moved(a, b, from, d),
        from <= c.pos,
    ensures
        further(c, d).u8(b).1 == c.u8(a).1,
        in_step(c.u8(a).0, further(c, d).u8(b).0, from, d),
        c.u8(a).0.pos >= c.pos,
{
    if c.pos < a.len() {
        assert(b[c.pos + d] == a[c.pos]);
    }
}

/// A two-byte number.
proof fn lemma_u16(a: Seq<u8>, b: Seq<u8>, from: int, d: int, c: Cursor)
    requires
        moved(a, b, from, d),
        from <= c.pos,
    ensures
        further(c, d).u16(b).1 == c.u16(a).1,
        in_step(c.u16(a).0, further(c, d).u16(b).0, from, d),
        c.u16(a).0.pos >= c.pos,
{
    lemma_u8(a, b, from, d, c);
    lemma_u8(a, b, from, d, c.u8(a).0);
}

/// Several bytes.
proof fn lemma_take(a: Seq<u8>, b: Seq<u8>, from: int, d: int, c: Cursor, n: int)
    requires
        moved(a, b, from, d),
        from <= c.pos <= a.len() || c.err is Some,
        from <= c.pos,
        0 <= n <= 0xFFFF,
    ensures
        further(c, d).take(b, n).1 == c.take(a, n).1,
        in_step(c.take(a, n).0, further(c, d).take(b, n).0, from, d),
        c.take(a, n).0.pos >= c.pos,
{
    if c.err is None && c.pos + n <= a.len() {
        let (p, q) = (a.subrange(c.pos, c.pos + n), b.subrange(c.pos + d, c.pos + d + n));
        assert forall|i: int| 0 <= i < n implies p[i] == q[i] by {
            assert(b[(c.pos + i) + d] == a[c.pos + i]);
        }
        assert(p =~= q);
    }
}

/// Bytes before a marker.
proof fn lemma_skips(a: Seq<u8>, b: Seq<u8>, from: int, d: int, pos: int)
    requires
        moved(a, b, from, d),
        from <= pos,
    ensures
        skip_to_ff(b, pos + d) == skip_to_ff(a, pos) + d,
        skip_ff(b, pos + d) == skip_ff(a, pos) + d,
        skip_to_ff(a, pos) >= pos,
        skip_ff(a, pos) >= pos,
    decreases a.len() - pos,
{
    if pos < a.len() {
        assert(b[pos + d] == a[pos]);
        lemma_skips(a, b, from, d, pos + 1);
    }
}

/// A marker.
proof fn lemma_marker(a: Seq<u8>, b: Seq<u8>, from: int, d: int, c: Cursor)
    requires
        moved(a, b, from, d),
        from <= c.pos,
    ensures
        read_marker(b, further(c, d)).1 == read_marker(a, c).1,
        in_step(read_marker(a, c).0, read_marker(b, further(c, d)).0, from, d),
{
    if c.err is None {
        lemma_skips(a, b, from, d, c.pos);
        let p = skip_to_ff(a, c.pos);
        lemma_skips(a, b, from, d, p);
        if p < a.len() {
            let q = skip_ff(a, p);
            if q < a.len() {
                assert(b[q + d] == a[q]);
            }
        }
    }
}

/// Component descriptors.
proof fn lemma_frame_components(a: Seq<u8>, b: Seq<u8>, from: int, d: int, c: Cursor, n: nat, acc: Seq<Component>)
    requires
        moved(a, b, from, d),
        from <= c.pos,
    ensures
        read_frame_components(b, further(c, d), n, acc).1 == read_frame_components(a, c, n, acc).1,
        in_step(
            read_frame_components(a, c, n, acc).0,
            read_frame_components(b, further(c, d), n, acc).0,
            from,
            d,
        ),
    decreases n,
{
    if c.err is None && n > 0 {
        let (c1, id) = c.u8(a);
        let (c2, hv) = c1.u8(a);
        let (c3, qt) = c2.u8(a);
        lemma_u8(a, b, from, d, c);
        lemma_u8(a, b, from, d, c1);
        lemma_u8(a, b, from, d, c2);
        let c4 = c3.check(
            sampling_ok(hv as int / 16) && sampling_ok(hv as int % 16),
            DecodeError::Unsupported("sampling factor not 1/2/4"),
        );
        let c5 = c4.check(qt <= 3, DecodeError::Malformed("quant table selector out of range"));
        lemma_frame_components(
            a,
            b,
            from,
            d,
            c5,
            (n - 1) as nat,
            acc.push(Component { id, h: (hv / 16) as u8, v: (hv % 16) as u8, qt }),
        );
    }
}

/// A SOF segment.
proof fn lemma_sof(a: Seq<u8>, b: Seq<u8>, from: int, d: int, c: Cursor, progressive: bool)
    requires
        moved(a, b, from, d),
        from <= c.pos,
    ensures
        read_sof(b, further(c, d), progressive).1 == read_sof(a, c, progressive).1,
        in_step(read_sof(a, c, progressive).0, read_sof(b, further(c, d), progressive).0, from, d),
{
    let (c1, len) = c.u16(a);
    lemma_u16(a, b, from, d, c);
    let c2 = c1.check(len >= 8, DecodeError::Malformed("SOF length too small"));
    let (c3, precision) = c2.u8(a);
    lemma_u8(a, b, from, d, c2);
    let c4 = c3.check(precision == 8, DecodeError::Unsupported("non-8-bit precision"));
    let (c5, height) = c4.u16(a);
    lemma_u16(a, b, from, d, c4);
    let (c6, width) = c5.u16(a);
    lemma_u16(a, b, from, d, c5);
    let c7 = c6.check(width != 0 && height != 0, DecodeError::InvalidDimensions("zero dimension"));
    let c8 = c7.check(
        width <= MAX_DIMENSION && height <= MAX_DIMENSION,
        DecodeError::InvalidDimensions(
            "image dimension exceeds 16384 (raise the cap explicitly to opt in)",
        ),
    );
    let (c9, nf) = c8.u8(a);
    lemma_u8(a, b, from, d, c8);
    let c10 = c9.check(len == 8 + 3 * nf, DecodeError::Malformed("SOF length / Nf mismatch"));
    let c11 = c10.check(1 <= nf <= 4, DecodeError::InvalidDimensions("unsupported component count"));
    lemma_frame_components(a, b, from, d, c11, nf as nat, Seq::empty());
}

/// Quantization tables.
proof fn lemma_quant_tables(a: Seq<u8>, b: Seq<u8>, from: int, d: int, c: Cursor, remaining: int, acc: Seq<Quant>)
    requires
        moved(a, b, from, d),
        from <= c.pos,
    ensures
        read_quant_tables(b, further(c, d), remaining, acc).1 == read_quant_tables(a, c, remaining, acc).1,
        in_step(
            read_quant_tables(a, c, remaining, acc).0,
            read_quant_tables(b, further(c, d), remaining, acc).0,
            from,
            d,
        ),
    decreases remaining,
{
    if c.err is None && remaining > 0 {
        let (c1, pq_tq) = c.u8(a);
        lemma_u8(a, b, from, d, c);
        let c2 = c1.check(pq_tq % 16 <= 3, DecodeError::Malformed("DQT id out of range"));
        let c3 = c2.check(pq_tq / 16 == 0, DecodeError::Unsupported("16-bit DQT precision"));
        let c4 = c3.check(remaining - 1 >= 64, DecodeError::Malformed("DQT short payload"));
        let (c5, zz) = c4.take(a, 64);
        lemma_take(a, b, from, d, c4, 64);
        if c5.err is None {
            lemma_quant_tables(
                a,
                b,
                from,
                d,
                c5,
                remaining - 65,
                acc.push(
                    Quant {
                        id: (pq_tq % 16) as u8,
                        values: from_zigzag(zz.map_values(|v: u8| v as u16)),
                    },
                ),
            );
        }
    }
}

/// Huffman tables.
proof fn lemma_huffman_tables(a: Seq<u8>, b: Seq<u8>, from: int, d: int, c: Cursor, remaining: int, acc: Seq<Huff>)
    requires
        moved(a, b, from, d),
        from <= c.pos,
    ensures
        read_huffman_tables(b, further(c, d), remaining, acc).1 == read_huffman_tables(a, c, remaining, acc).1,
        in_step(
            read_huffman_tables(a, c, remaining, acc).0,
            read_huffman_tables(b, further(c, d), remaining, acc).0,
            from,
            d,
        ),
    decreases remaining,
{
    if c.err is None && remaining > 0 {
        let (c1, tc_th) = c.u8(a);
        lemma_u8(a, b, from, d, c);
        let c2 = c1.check(tc_th / 16 <= 1, DecodeError::Malformed("DHT class out of range"));
        let c3 = c2.check(tc_th % 16 <= 3, DecodeError::Malformed("DHT id out of range"));
        let c4 = c3.check(remaining - 1 >= 16, DecodeError::Malformed("DHT bits truncated"));
        let (c5, bits) = c4.take(a, 16);
        lemma_take(a, b, from, d, c4, 16);
        let total = CodeBook { bits, values: Seq::empty() }.offset(17);
        let c6 = c5.check(total <= 256, DecodeError::Malformed("DHT symbol count > 256"));
        let c7 = c6.check(remaining - 17 >= total, DecodeError::Malformed("DHT values truncated"));
        if c7.err is None {
            CodeBook { bits, values: Seq::empty() }.lemma_code_bound(17);
            lemma_take(a, b, from, d, c7, total);
        }
        let (c8, values) = c7.take(a, total);
        if c8.err is None && total >= 0 {
            lemma_huffman_tables(
                a,
                b,
                from,
                d,
                c8,
                remaining - 17 - total,
                acc.push(
                    Huff {
                        class: (tc_th / 16) as u8,
                        id: (tc_th % 16) as u8,
                        book: CodeBook { bits, values },
                    },
                ),
            );
        }
    }
}

/// Scan entries.
proof fn lemma_scan_components(
    a: Seq<u8>,
    b: Seq<u8>,
    from: int,
    d: int,
    c: Cursor,
    frame: Frame,
    n: nat,
    acc: Seq<ScanComponent>,
)
    requires
        moved(a, b, from, d),
        from <= c.pos,
    ensures
        read_scan_components(b, further(c, d), frame, n, acc).1 == read_scan_components(a, c, frame, n, acc).1,
        in_step(
            read_scan_components(a, c, frame, n, acc).0,
            read_scan_components(b, further(c, d), frame, n, acc).0,
            from,
            d,
        ),
    decreases n,
{
    if c.err is None && n > 0 {
        let (c1, cs) = c.u8(a);
        let (c2, td_ta) = c1.u8(a);
        lemma_u8(a, b, from, d, c);
        lemma_u8(a, b, from, d, c1);
        let c3 = c2.check(
            has_component(frame.components, cs),
            DecodeError::Malformed("SOS component id not in frame"),
        );
        let c4 = c3.check(
            td_ta / 16 <= 3 && td_ta % 16 <= 3,
            DecodeError::Malformed("SOS table selector out of range"),
        );
        lemma_scan_components(
            a,
            b,
            from,
            d,
            c4,
            frame,
            (n - 1) as nat,
            acc.push(
                ScanComponent {
                    component_id: cs,
                    dc_table: (td_ta / 16) as u8,
                    ac_table: (td_ta % 16) as u8,
                },
            ),
        );
    }
}

/// A SOS segment.
proof fn lemma_sos(a: Seq<u8>, b: Seq<u8>, from: int, d: int, c: Cursor, frame: Frame)
    requires
        moved(a, b, from, d),
        from <= c.pos,
    ensures
        read_sos(b, further(c, d), frame).1 == read_sos(a, c, frame).1,
        in_step(read_sos(a, c, frame).0, read_sos(b, further(c, d), frame).0, from, d),
{
    let (c1, len) = c.u16(a);
    lemma_u16(a, b, from, d, c);
    let c2 = c1.check(len >= 6, DecodeError::Malformed("SOS length too small"));
    let (c3, ns) = c2.u8(a);
    lemma_u8(a, b, from, d, c2);
    let c4 = c3.check(1 <= ns <= 4, DecodeError::Malformed("SOS Ns out of range"));
    let c5 = c4.check(len == 6 + 2 * ns, DecodeError::Malformed("SOS length / Ns mismatch"));
    lemma_scan_components(a, b, from, d, c5, frame, ns as nat, Seq::empty());
    let c6 = read_scan_components(a, c5, frame, ns as nat, Seq::empty()).0;
    lemma_u8(a, b, from, d, c6);
    let c7 = c6.u8(a).0;
    lemma_u8(a, b, from, d, c7);
    let c8 = c7.u8(a).0;
    lemma_u8(a, b, from, d, c8);
}

/// DQT, DHT, DRI, and segments that are skipped.
proof fn lemma_segments(
    a: Seq<u8>,
    b: Seq<u8>,
    from: int,
    d: int,
    c: Cursor,
    quant: Seq<Quant>,
    huffman: Seq<Huff>,
    why: &'static str,
)
    requires
        moved(a, b, from, d),
        from <= c.pos,
    ensures
        read_dqt(b, further(c, d), quant).1 == read_dqt(a, c, quant).1,
        in_step(read_dqt(a, c, quant).0, read_dqt(b, further(c, d), quant).0, from, d),
        read_dht(b, further(c, d), huffman).1 == read_dht(a, c, huffman).1,
        in_step(read_dht(a, c, huffman).0, read_dht(b, further(c, d), huffman).0, from, d),
        read_dri(b, further(c, d)).1 == read_dri(a, c).1,
        in_step(read_dri(a, c).0, read_dri(b, further(c, d)).0, from, d),
        in_step(skip_segment(a, c, why), skip_segment(b, further(c, d), why), from, d),
{
    let (c1, len) = c.u16(a);
    lemma_u16(a, b, from, d, c);
    lemma_quant_tables(
        a,
        b,
        from,
        d,
        c1.check(len >= 2, DecodeError::Malformed("DQT length too small")),
        len - 2,
        quant,
    );
    lemma_huffman_tables(
        a,
        b,
        from,
        d,
        c1.check(len >= 2, DecodeError::Malformed("DHT length too small")),
        len - 2,
        huffman,
    );
    lemma_u16(a, b, from, d, c1.check(len == 4, DecodeError::Malformed("bad DRI length")));
    let c2 = c1.check(len >= 2, DecodeError::Malformed(why));
    if c2.err is None {
        lemma_take(a, b, from, d, c2, len - 2);
    }
}

/// Application segments, of which only the place where they end matters here.
proof fn lemma_app(a: Seq<u8>, b: Seq<u8>, from: int, d: int, c: Cursor, m: Metadata, n: Metadata)
    requires
        moved(a, b, from, d),
        from <= c.pos,
    ensures
        in_step(read_app1(a, c, m).0, read_app1(b, further(c, d), n).0, from, d),
        in_step(read_app2(a, c, m).0, read_app2(b, further(c, d), n).0, from, d),
{
    let (c1, len) = c.u16(a);
    lemma_u16(a, b, from, d, c);
    if len >= 2 && c1.err is None {
        lemma_take(a, b, from, d, c1, len - 2);
    }
}

/// Two walks have found the same, metadata aside, and the second is `d`
/// further on.
pub open spec fn walks_alike(w: Walk, v: Walk, from: int, d: int) -> bool {
    &&& in_step(w.c, v.c, from, d)
    &&& v.frame == w.frame
    &&& v.quant == w.quant
    &&& v.huffman == w.huffman
    &&& v.restart_interval == w.restart_interval
}

/// One segment before the first scan.
proof fn lemma_header_segment(a: Seq<u8>, b: Seq<u8>, from: int, d: int, w: Walk, v: Walk, marker: u8)
    requires
        moved(a, b, from, d),
        walks_alike(w, v, from, d),
    ensures
        walks_alike(header_segment(a, w, marker).0, header_segment(b, v, marker).0, from, d),
        header_segment(a, w, marker).1 == header_segment(b, v, marker).1,
{
    lemma_segments(a, b, from, d, w.c, w.quant, w.huffman, "bad segment length");
    lemma_segments(a, b, from, d, w.c, w.quant, w.huffman, "bad unknown segment length");
    lemma_app(a, b, from, d, w.c, w.metadata, v.metadata);
    lemma_sof(a, b, from, d, w.c, marker == M_SOF2);
    if let Some(frame) = w.frame {
        lemma_sos(a, b, from, d, w.c, frame);
    }
}

/// The walk up to the first scan.
proof fn lemma_walk(a: Seq<u8>, b: Seq<u8>, from: int, d: int, w: Walk, v: Walk)
    requires
        moved(a, b, from, d),
        walks_alike(w, v, from, d),
    ensures
        walks_alike(walk_to_scan(a, w).0, walk_to_scan(b, v).0, from, d),
        walk_to_scan(a, w).1 == walk_to_scan(b, v).1,
    decreases a.len() - w.c.pos,
{
    if w.c.err is None {
        lemma_marker(a, b, from, d, w.c);
        let (c, marker) = read_marker(a, w.c);
        let (e, _m) = read_marker(b, v.c);
        if c.err is None {
            let (w1, v1) = (Walk { c, ..w }, Walk { c: e, ..v });
            lemma_header_segment(a, b, from, d, w1, v1, marker);
            let (w2, scan) = header_segment(a, w1, marker);
            if w2.c.err is None && scan is None {
                lemma_marker_advances(a, w.c);
                lemma_header_segment_advances(a, w1, marker);
                lemma_walk(a, b, from, d, w2, header_segment(b, v1, marker).0);
            }
        }
    }
}

/// One segment between scans.
proof fn lemma_inner_segment(a: Seq<u8>, b: Seq<u8>, from: int, d: int, w: Tables, frame: Frame, marker: u8)
    requires
        moved(a, b, from, d),
        from <= w.c.pos,
    ensures
        ({
            let (t, n) = inner_segment(a, w, frame, marker);
            let (u, m) = inner_segment(b, Tables { c: further(w.c, d), ..w }, frame, marker);
            &&& u == (Tables { c: further(t.c, d), ..t })
            &&& m == n
            &&& from <= t.c.pos
        }),
{
    lemma_segments(a, b, from, d, w.c, w.quant, w.huffman, "bad segment length");
    lemma_segments(a, b, from, d, w.c, w.quant, w.huffman, "bad unknown segment length");
    lemma_sos(a, b, from, d, w.c, frame);
}

/// The walk between two scans.
pub proof fn lemma_walk_between(
    a: Seq<u8>,
    b: Seq<u8>,
    from: int,
    d: int,
    w: Tables,
    frame: Frame,
    pending: Option<u8>,
)
    requires
        moved(a, b, from, d),
        from <= w.c.pos,
    ensures
        ({
            let (t, n) = walk_between(a, w, frame, pending);
            let (u, m) = walk_between(b, Tables { c: further(w.c, d), ..w }, frame, pending);
            &&& u == (Tables { c: further(t.c, d), ..t })
            &&& m == n
            &&& from <= t.c.pos
        }),
    decreases a.len() - w.c.pos,
{
    if w.c.err is None {
        lemma_marker(a, b, from, d, w.c);
        let (c, marker) = match pending {
            Some(m) => (w.c, m),
            None => read_marker(a, w.c),
        };
        if c.err is None {
            let w1 = Tables { c, ..w };
            lemma_inner_segment(a, b, from, d, w1, frame, marker);
            let (w2, n) = inner_segment(a, w1, frame, marker);
            if w2.c.err is None && n is More {
                lemma_marker_advances(a, w.c);
                lemma_inner_segment_advances(a, w1, frame, marker);
                lemma_walk_between(a, b, from, d, w2, frame, None);
            }
        }
    }
}

/// A bit reader `d` further on.
pub open spec fn onward(s: BitState, d: int) -> BitState {
    BitState { pos: s.pos + d, ..s }
}

/// A block whose reader is `d` further on.
pub open spec fn block_onward(x: Block, d: int) -> Block {
    Block { br: onward(x.br, d), ..x }
}

/// A block of a band whose reader is `d` further on.
pub open spec fn band_onward(x: BandBlock, d: int) -> BandBlock {
    BandBlock { br: onward(x.br, d), ..x }
}

/// A scan whose reader is `d` further on.
pub open spec fn scan_onward(s: ScanState, d: int) -> ScanState {
    ScanState { br: onward(s.br, d), ..s }
}

/// A progressive scan whose reader is `d` further on.
pub open spec fn pass_onward(s: BandState, d: int) -> BandState {
    BandState { br: onward(s.br, d), ..s }
}

/// The scan, with data `b`.
pub open spec fn scan_of(ctx: ScanContext, b: Seq<u8>) -> ScanContext {
    ScanContext { src: b, ..ctx }
}

/// The progressive scan, with data `b`.
pub open spec fn pass_of(ctx: BandContext, b: Seq<u8>) -> BandContext {
    BandContext { src: b, ..ctx }
}

/// Bytes of the entropy-coded data.
proof fn lemma_fetch_until(
    a: Seq<u8>,
    b: Seq<u8>,
    from: int,
    d: int,
    s: BitState,
    need: int,
)
    requires
        moved(a, b, from, d),
        from <= s.pos,
    ensures
        fetch_until(b, onward(s, d), need).ok == fetch_until(a, s, need).ok,
        fetch_until(b, onward(s, d), need).st == onward(fetch_until(a, s, need).st, d),
        from <= fetch_until(a, s, need).st.pos,
    decreases (if need > s.nbits { need - s.nbits } else { 0 }),
{
    if s.nbits < need {
        if s.marker is None && s.pos < a.len() {
            assert(b[s.pos + d] == a[s.pos]);
            if s.pos + 1 < a.len() {
                assert(b[(s.pos + 1) + d] == a[s.pos + 1]);
            }
        }
        let f = fetch_byte(a, s);
        let g = fetch_byte(b, onward(s, d));
        assert(g.ok == f.ok && g.st == onward(f.st, d));
        if f.ok {
            lemma_fetch_until(a, b, from, d, f.st, need);
        }
    }
}

/// A refill.
proof fn lemma_ensure_bits(
    a: Seq<u8>,
    b: Seq<u8>,
    from: int,
    d: int,
    s: BitState,
    need: int,
)
    requires
        moved(a, b, from, d),
        from <= s.pos,
    ensures
        ensure_bits(b, onward(s, d), need).ok == ensure_bits(a, s, need).ok,
        ensure_bits(b, onward(s, d), need).st == onward(ensure_bits(a, s, need).st, d),
        from <= ensure_bits(a, s, need).st.pos,
{
    lemma_fetch_until(a, b, from, d, s, need);
    if s.pos + 4 <= a.len() {
        assert(b[s.pos + d] == a[s.pos]);
        assert(b[(s.pos + 1) + d] == a[s.pos + 1]);
        assert(b[(s.pos + 2) + d] == a[s.pos + 2]);
        assert(b[(s.pos + 3) + d] == a[s.pos + 3]);
        assert(be32(b, s.pos + d) == be32(a, s.pos));
        let t = s.push_word(be32(a, s.pos));
        assert(onward(s, d).push_word(be32(a, s.pos)) == onward(t, d));
        lemma_fetch_until(a, b, from, d, t, need);
    }
}

/// Bits.
proof fn lemma_bits(
    a: Seq<u8>,
    b: Seq<u8>,
    from: int,
    d: int,
    s: BitState,
    n: int,
)
    requires
        moved(a, b, from, d),
        from <= s.pos,
    ensures
        read_bits(b, onward(s, d), n).1 == read_bits(a, s, n).1,
        read_bits(b, onward(s, d), n).0 == onward(read_bits(a, s, n).0, d),
        from <= read_bits(a, s, n).0.pos,
{
    lemma_ensure_bits(a, b, from, d, s, n);
}

/// The rest of a long code.
proof fn lemma_long_symbol(
    a: Seq<u8>,
    b: Seq<u8>,
    from: int,
    d: int,
    s: BitState,
    book: CodeBook,
    c: int,
    l: int,
)
    requires
        moved(a, b, from, d),
        from <= s.pos,
    ensures
        read_long_symbol(b, onward(s, d), book, c, l).1 == read_long_symbol(a, s, book, c, l).1,
        read_long_symbol(b, onward(s, d), book, c, l).0 == onward(read_long_symbol(a, s, book, c, l).0, d),
        from <= read_long_symbol(a, s, book, c, l).0.pos,
    decreases 17 - l,
{
    if l <= 16 {
        lemma_ensure_bits(a, b, from, d, s, 1);
        let f = ensure_bits(a, s, 1);
        if f.ok {
            assert(onward(f.st, d).drop(1) == onward(f.st.drop(1), d));
            lemma_long_symbol(a, b, from, d, f.st.drop(1), book, 2 * c + f.st.top(1), l + 1);
        }
    }
}

/// A symbol.
proof fn lemma_symbol(
    a: Seq<u8>,
    b: Seq<u8>,
    from: int,
    d: int,
    s: BitState,
    book: CodeBook,
)
    requires
        moved(a, b, from, d),
        from <= s.pos,
    ensures
        read_symbol(b, onward(s, d), book).1 == read_symbol(a, s, book).1,
        read_symbol(b, onward(s, d), book).0 == onward(read_symbol(a, s, book).0, d),
        from <= read_symbol(a, s, book).0.pos,
{
    lemma_ensure_bits(a, b, from, d, s, 8);
    let f = ensure_bits(a, s, 8);
    if f.ok {
        assert(onward(f.st, d).drop(8) == onward(f.st.drop(8), d));
        lemma_long_symbol(a, b, from, d, f.st.drop(8), book, f.st.top(8), 9);
    }
}

/// An AC term.
proof fn lemma_ac(
    a: Seq<u8>,
    b: Seq<u8>,
    from: int,
    d: int,
    s: BitState,
    book: CodeBook,
)
    requires
        moved(a, b, from, d),
        from <= s.pos,
    ensures
        read_ac(b, onward(s, d), book).1 == read_ac(a, s, book).1,
        read_ac(b, onward(s, d), book).0 == onward(read_ac(a, s, book).0, d),
        from <= read_ac(a, s, book).0.pos,
{
    lemma_ensure_bits(a, b, from, d, s, 10);
    let f = ensure_bits(a, s, 10);
    if f.ok {
        lemma_symbol(a, b, from, d, f.st, book);
        let (s1, sym) = read_symbol(a, f.st, book);
        if let Ok(v) = sym {
            lemma_bits(a, b, from, d, s1, v as int);
            lemma_bits(a, b, from, d, s1, v as int % 16);
        }
    }
}

/// A DC term.
proof fn lemma_dc(
    a: Seq<u8>,
    b: Seq<u8>,
    from: int,
    d: int,
    s: BitState,
    book: CodeBook,
)
    requires
        moved(a, b, from, d),
        from <= s.pos,
    ensures
        read_dc(b, onward(s, d), book).1 == read_dc(a, s, book).1,
        read_dc(b, onward(s, d), book).0 == onward(read_dc(a, s, book).0, d),
        from <= read_dc(a, s, book).0.pos,
{
    lemma_ensure_bits(a, b, from, d, s, 10);
    let f = ensure_bits(a, s, 10);
    if f.ok {
        lemma_symbol(a, b, from, d, f.st, book);
        let (s1, sym) = read_symbol(a, f.st, book);
        if let Ok(v) = sym {
            lemma_bits(a, b, from, d, s1, v as int);
            lemma_bits(a, b, from, d, s1, v as int % 16);
        }
    }
}

/// The AC terms of a block.
proof fn lemma_ac_terms(
    a: Seq<u8>,
    b: Seq<u8>,
    from: int,
    d: int,
    x: Block,
    book: CodeBook,
    qt: Seq<u16>,
    k: int,
)
    requires
        moved(a, b, from, d),
        from <= x.br.pos,
    ensures
        read_ac_terms(b, block_onward(x, d), book, qt, k) == block_onward(read_ac_terms(a, x, book, qt, k), d),
        from <= read_ac_terms(a, x, book, qt, k).br.pos,
    decreases 80 - k,
{
    if k < 64 {
        lemma_ac(a, b, from, d, x.br, book);
        let (br, r) = read_ac(a, x.br, book);
        if let Ok((run, size, bits)) = r {
            if size == 0 {
                if run == 15 {
                    lemma_ac_terms(a, b, from, d, Block { br, ..x }, book, qt, k + 16);
                }
            } else if 0 <= run && k + run < 64 {
                let at = ZIGZAG[k + run] as int;
                let coef = x.coef.update(at, dequantized(extended(bits, size), qt[at]));
                lemma_ac_terms(a, b, from, d, Block { br, coef, ..x }, book, qt, k + run + 1);
            }
        }
    }
}

/// A block.
proof fn lemma_block(
    a: Seq<u8>,
    b: Seq<u8>,
    from: int,
    d: int,
    s: BitState,
    dc: CodeBook,
    ac: CodeBook,
    qt: Seq<u16>,
    prev_dc: int,
    coef: Seq<i16>,
)
    requires
        moved(a, b, from, d),
        from <= s.pos,
    ensures
        read_block(b, onward(s, d), dc, ac, qt, prev_dc, coef) == block_onward(
            read_block(a, s, dc, ac, qt, prev_dc, coef),
            d,
        ),
        from <= read_block(a, s, dc, ac, qt, prev_dc, coef).br.pos,
{
    lemma_dc(a, b, from, d, s, dc);
    let (br1, r) = read_dc(a, s, dc);
    if let Ok((size, bits)) = r {
        let diff = if size == 0 {
            0
        } else {
            extended(bits, size)
        };
        let next = wrap32(prev_dc + diff);
        let x = Block { br: br1, prev_dc: next, coef: coef.update(0, dequantized(next, qt[0])), err: None };
        lemma_ac_terms(a, b, from, d, x, ac, qt, 1);
    }
}

/// The next marker in the data.
proof fn lemma_next_marker(
    a: Seq<u8>,
    b: Seq<u8>,
    from: int,
    d: int,
    pos: int,
)
    requires
        moved(a, b, from, d),
        from <= pos,
    ensures
        next_marker(b, pos + d) == match next_marker(a, pos) {
            Some((m, q)) => Some((m, q + d)),
            None => None,
        },
        next_marker(a, pos) matches Some((m, q)) ==> from <= q,
    decreases a.len() - pos,
{
    if pos < a.len() {
        assert(b[pos + d] == a[pos]);
        if pos + 1 < a.len() {
            assert(b[(pos + 1) + d] == a[pos + 1]);
            lemma_next_marker(a, b, from, d, pos + 2);
        }
        lemma_next_marker(a, b, from, d, pos + 1);
    }
}

/// A restart.
proof fn lemma_restart(
    a: Seq<u8>,
    b: Seq<u8>,
    from: int,
    d: int,
    s: BitState,
)
    requires
        moved(a, b, from, d),
        from <= s.pos,
    ensures
        restart(b, onward(s, d)).1 == restart(a, s).1,
        restart(b, onward(s, d)).0 == onward(restart(a, s).0, d),
        from <= restart(a, s).0.pos,
{
    lemma_next_marker(a, b, from, d, s.pos);
}

/// A restart that is due.
proof fn lemma_restart_if_due(
    a: Seq<u8>,
    b: Seq<u8>,
    from: int,
    d: int,
    ctx: ScanContext,
    s: ScanState,
)
    requires
        moved(a, b, from, d),
        ctx.src == a,
        from <= s.br.pos,
    ensures
        restart_if_due(scan_of(ctx, b), scan_onward(s, d)) == scan_onward(restart_if_due(ctx, s), d),
        from <= restart_if_due(ctx, s).br.pos,
{
    lemma_restart(a, b, from, d, s.br);
}

/// A block of a scan.
proof fn lemma_block_step(
    a: Seq<u8>,
    b: Seq<u8>,
    from: int,
    d: int,
    ctx: ScanContext,
    s: ScanState,
    ci: int,
    part: ScanPart,
    bx: int,
    by: int,
)
    requires
        moved(a, b, from, d),
        ctx.src == a,
        from <= s.br.pos,
    ensures
        block_step(scan_of(ctx, b), scan_onward(s, d), ci, part, bx, by) == scan_onward(
            block_step(ctx, s, ci, part, bx, by),
            d,
        ),
        from <= block_step(ctx, s, ci, part, bx, by).br.pos,
{
    lemma_block(a, b, from, d, s.br, part.dc, part.ac, part.quant, s.prev_dc[ci] as int, zero_block());
}

/// The blocks of a component in an MCU.
proof fn lemma_mcu_blocks(
    a: Seq<u8>,
    b: Seq<u8>,
    from: int,
    d: int,
    ctx: ScanContext,
    s: ScanState,
    ci: int,
    part: ScanPart,
    mx: int,
    my: int,
    n: nat,
)
    requires
        moved(a, b, from, d),
        ctx.src == a,
        from <= s.br.pos,
    ensures
        mcu_blocks(scan_of(ctx, b), scan_onward(s, d), ci, part, mx, my, n) == scan_onward(
            mcu_blocks(ctx, s, ci, part, mx, my, n),
            d,
        ),
        from <= mcu_blocks(ctx, s, ci, part, mx, my, n).br.pos,
    decreases n,
{
    if n > 0 {
        lemma_mcu_blocks(a, b, from, d, ctx, s, ci, part, mx, my, (n - 1) as nat);
        let t = mcu_blocks(ctx, s, ci, part, mx, my, (n - 1) as nat);
        let h = part.component.h as int;
        let v = part.component.v as int;
        lemma_block_step(a, b, from, d, ctx, t, ci, part, mx * h + (n - 1) % h, my * v + (n - 1) / h);
    }
}

/// The components of an MCU.
proof fn lemma_mcu_entries(
    a: Seq<u8>,
    b: Seq<u8>,
    from: int,
    d: int,
    ctx: ScanContext,
    s: ScanState,
    mx: int,
    my: int,
    n: nat,
)
    requires
        moved(a, b, from, d),
        ctx.src == a,
        from <= s.br.pos,
    ensures
        mcu_entries(scan_of(ctx, b), scan_onward(s, d), mx, my, n) == scan_onward(mcu_entries(ctx, s, mx, my, n), d),
        from <= mcu_entries(ctx, s, mx, my, n).br.pos,
    decreases n,
{
    if n > 0 {
        lemma_mcu_entries(a, b, from, d, ctx, s, mx, my, (n - 1) as nat);
        let t = mcu_entries(ctx, s, mx, my, (n - 1) as nat);
        assert(scan_part(scan_of(ctx, b), n - 1) == scan_part(ctx, n - 1));
        if let Ok(part) = scan_part(ctx, n - 1) {
            lemma_mcu_blocks(
                a,
                b,
                from,
                d,
                ctx,
                t,
                n - 1,
                part,
                mx,
                my,
                (part.component.h * part.component.v) as nat,
            );
        }
    }
}

/// The MCUs of a scan.
proof fn lemma_mcus(
    a: Seq<u8>,
    b: Seq<u8>,
    from: int,
    d: int,
    ctx: ScanContext,
    s: ScanState,
    n: nat,
)
    requires
        moved(a, b, from, d),
        ctx.src == a,
        from <= s.br.pos,
    ensures
        mcus(scan_of(ctx, b), scan_onward(s, d), n) == scan_onward(mcus(ctx, s, n), d),
        from <= mcus(ctx, s, n).br.pos,
    decreases n,
{
    if n > 0 {
        lemma_mcus(a, b, from, d, ctx, s, (n - 1) as nat);
        let t = mcus(ctx, s, (n - 1) as nat);
        let w = ctx.frame.mcus_x();
        lemma_restart_if_due(a, b, from, d, ctx, t);
        lemma_mcu_entries(
            a,
            b,
            from,
            d,
            ctx,
            restart_if_due(ctx, t),
            (n - 1) % w,
            (n - 1) / w,
            ctx.scan.components.len(),
        );
    }
}

/// The blocks of a scan of one component.
proof fn lemma_single_blocks(
    a: Seq<u8>,
    b: Seq<u8>,
    from: int,
    d: int,
    ctx: ScanContext,
    s: ScanState,
    part: ScanPart,
    n: nat,
)
    requires
        moved(a, b, from, d),
        ctx.src == a,
        from <= s.br.pos,
    ensures
        single_blocks(scan_of(ctx, b), scan_onward(s, d), part, n) == scan_onward(single_blocks(ctx, s, part, n), d),
        from <= single_blocks(ctx, s, part, n).br.pos,
    decreases n,
{
    if n > 0 {
        lemma_single_blocks(a, b, from, d, ctx, s, part, (n - 1) as nat);
        let t = single_blocks(ctx, s, part, (n - 1) as nat);
        let w = ctx.frame.blocks_x(part.index);
        lemma_restart_if_due(a, b, from, d, ctx, t);
        lemma_block_step(a, b, from, d, ctx, restart_if_due(ctx, t), 0, part, (n - 1) % w, (n - 1) / w);
    }
}

/// A baseline scan.
proof fn lemma_baseline_scan(
    a: Seq<u8>,
    b: Seq<u8>,
    from: int,
    d: int,
    ctx: ScanContext,
    start: int,
    planes: Seq<Seq<u8>>,
)
    requires
        moved(a, b, from, d),
        ctx.src == a,
        from <= start,
    ensures
        baseline_scan(scan_of(ctx, b), start + d, planes) == scan_onward(baseline_scan(ctx, start, planes), d),
        from <= baseline_scan(ctx, start, planes).br.pos,
{
    reveal(baseline_scan);
    let s = ScanState {
        br: BitState { pos: start, buf: 0, nbits: 0, marker: None },
        prev_dc: seq![0i32, 0i32, 0i32, 0i32],
        since: 0,
        planes,
        err: None,
    };
    lemma_mcus(a, b, from, d, ctx, s, (ctx.frame.mcus_x() * ctx.frame.mcus_y()) as nat);
    assert(scan_part(scan_of(ctx, b), 0) == scan_part(ctx, 0));
    if let Ok(part) = scan_part(ctx, 0) {
        let n = (ctx.frame.blocks_x(part.index) * ctx.frame.blocks_y(part.index)) as nat;
        lemma_single_blocks(a, b, from, d, ctx, s, part, n);
    }
}

/// Baseline scans are read forward only: a stream that holds the same bytes
/// from a scan's data on, at a later position, yields the same samples.
pub proof fn law_baseline_scans_look_forward(
    a: Seq<u8>,
    b: Seq<u8>,
    from: int,
    d: int,
    frame: Frame,
    t: Tables,
    scan: Scan,
    planes: Seq<Seq<u8>>,
)
    requires
        moved(a, b, from, d),
        from <= t.c.pos,
        t.c.err is None,
    ensures
        baseline_scans(b, frame, Tables { c: further(t.c, d), ..t }, scan, planes) == baseline_scans(
            a,
            frame,
            t,
            scan,
            planes,
        ),
    decreases a.len() - t.c.pos,
{
    let slots = fill_slots(t.huffman, t.huffman.len());
    if slots.err is None {
        let ctx = ScanContext {
            src: a,
            frame,
            scan,
            interval: t.restart_interval as int,
            dc: slots.dc,
            ac: slots.ac,
            quant: quant_slots(t.quant),
        };
        lemma_baseline_scan(a, b, from, d, ctx, t.c.pos, planes);
        let s = baseline_scan(ctx, t.c.pos, planes);
        if s.err is None {
            let t1 = Tables { c: Cursor::at(s.br.pos), ..t };
            lemma_walk_between(a, b, from, d, t1, frame, s.br.marker);
            let (t2, next) = walk_between(a, t1, frame, s.br.marker);
            if let Between::Next(scan2) = next {
                if t2.c.err is None {
                    lemma_baseline_scan_pos(ctx, t.c.pos, planes);
                    lemma_walk_between_advances(a, t1, frame, s.br.marker);
                    law_baseline_scans_look_forward(a, b, from, d, frame, t2, scan2, s.planes);
                }
            }
        }
    }
}

/// A DC coefficient, in its first scan.
proof fn lemma_dc_first(
    a: Seq<u8>,
    b: Seq<u8>,
    from: int,
    d: int,
    s: BitState,
    book: CodeBook,
    prev_dc: int,
    al: int,
    dc: i16,
)
    requires
        moved(a, b, from, d),
        from <= s.pos,
    ensures
        ({
            let (s1, p1, v1, e1) = dc_first(a, s, book, prev_dc, al, dc);
            dc_first(b, onward(s, d), book, prev_dc, al, dc) == (onward(s1, d), p1, v1, e1) && from <= s1.pos
        }),
{
    lemma_symbol(a, b, from, d, s, book);
    let (br1, sym) = read_symbol(a, s, book);
    if let Ok(size) = sym {
        lemma_bits(a, b, from, d, br1, size as int);
    }
}

/// A run of blocks that end.
proof fn lemma_eobrun(
    a: Seq<u8>,
    b: Seq<u8>,
    from: int,
    d: int,
    s: BitState,
    run: int,
)
    requires
        moved(a, b, from, d),
        from <= s.pos,
    ensures
        read_eobrun(b, onward(s, d), run).1 == read_eobrun(a, s, run).1,
        read_eobrun(b, onward(s, d), run).0 == onward(read_eobrun(a, s, run).0, d),
        from <= read_eobrun(a, s, run).0.pos,
{
    lemma_bits(a, b, from, d, s, run);
}

/// The AC terms of a band.
proof fn lemma_ac_first_terms(
    a: Seq<u8>,
    b: Seq<u8>,
    from: int,
    d: int,
    x: BandBlock,
    book: CodeBook,
    se: int,
    al: int,
    k: int,
)
    requires
        moved(a, b, from, d),
        from <= x.br.pos,
    ensures
        ac_first_terms(b, band_onward(x, d), book, se, al, k) == band_onward(
            ac_first_terms(a, x, book, se, al, k),
            d,
        ),
        from <= ac_first_terms(a, x, book, se, al, k).br.pos,
    decreases se + 17 - k,
{
    if k <= se {
        lemma_symbol(a, b, from, d, x.br, book);
        let (br, sym) = read_symbol(a, x.br, book);
        if let Ok(rs) = sym {
            let run = rs as int / 16;
            let size = rs as int % 16;
            if size == 0 {
                if run == 15 {
                    lemma_ac_first_terms(a, b, from, d, BandBlock { br, ..x }, book, se, al, k + 16);
                } else {
                    lemma_eobrun(a, b, from, d, br, run);
                }
            } else if k + run <= se {
                lemma_bits(a, b, from, d, br, size);
                let (br1, bits) = read_bits(a, br, size);
                if let Ok(v) = bits {
                    let coef = x.coef.update(k + run, at_bit(extended(v as int, size), al));
                    lemma_ac_first_terms(a, b, from, d, BandBlock { br: br1, coef, ..x }, book, se, al, k + run + 1);
                }
            }
        }
    }
}

/// A correction.
proof fn lemma_refine_one(
    a: Seq<u8>,
    b: Seq<u8>,
    from: int,
    d: int,
    x: BandBlock,
    al: int,
    k: int,
)
    requires
        moved(a, b, from, d),
        from <= x.br.pos,
    ensures
        refine_one(b, band_onward(x, d), al, k) == band_onward(refine_one(a, x, al, k), d),
        from <= refine_one(a, x, al, k).br.pos,
{
    lemma_bits(a, b, from, d, x.br, 1);
}

/// The corrections of a band.
proof fn lemma_refine_band(
    a: Seq<u8>,
    b: Seq<u8>,
    from: int,
    d: int,
    x: BandBlock,
    se: int,
    al: int,
    k: int,
)
    requires
        moved(a, b, from, d),
        from <= x.br.pos,
    ensures
        refine_band(b, band_onward(x, d), se, al, k) == band_onward(refine_band(a, x, se, al, k), d),
        from <= refine_band(a, x, se, al, k).br.pos,
    decreases se + 1 - k,
{
    if k <= se {
        lemma_refine_one(a, b, from, d, x, al, k);
        lemma_refine_band(a, b, from, d, refine_one(a, x, al, k), se, al, k + 1);
        lemma_refine_band(a, b, from, d, x, se, al, k + 1);
    }
}

/// Zeros that are passed.
proof fn lemma_skip_zeros(
    a: Seq<u8>,
    b: Seq<u8>,
    from: int,
    d: int,
    x: BandBlock,
    se: int,
    al: int,
    k: int,
    n: int,
)
    requires
        moved(a, b, from, d),
        from <= x.br.pos,
    ensures
        skip_zeros(b, band_onward(x, d), se, al, k, n).0 == band_onward(skip_zeros(a, x, se, al, k, n).0, d),
        skip_zeros(b, band_onward(x, d), se, al, k, n).1 == skip_zeros(a, x, se, al, k, n).1,
        from <= skip_zeros(a, x, se, al, k, n).0.br.pos,
    decreases se + 1 - k,
{
    if k <= se {
        lemma_refine_one(a, b, from, d, x, al, k);
        lemma_skip_zeros(a, b, from, d, refine_one(a, x, al, k), se, al, k + 1, n);
        lemma_skip_zeros(a, b, from, d, x, se, al, k + 1, n - 1);
    }
}

/// A coefficient that is put in.
proof fn lemma_insert_new(
    a: Seq<u8>,
    b: Seq<u8>,
    from: int,
    d: int,
    x: BandBlock,
    se: int,
    al: int,
    k: int,
    n: int,
    v: i16,
)
    requires
        moved(a, b, from, d),
        from <= x.br.pos,
    ensures
        insert_new(b, band_onward(x, d), se, al, k, n, v).0 == band_onward(insert_new(a, x, se, al, k, n, v).0, d),
        insert_new(b, band_onward(x, d), se, al, k, n, v).1 == insert_new(a, x, se, al, k, n, v).1,
        from <= insert_new(a, x, se, al, k, n, v).0.br.pos,
    decreases se + 1 - k,
{
    if k <= se {
        lemma_refine_one(a, b, from, d, x, al, k);
        lemma_insert_new(a, b, from, d, refine_one(a, x, al, k), se, al, k + 1, n, v);
        lemma_insert_new(a, b, from, d, x, se, al, k + 1, n - 1, v);
    }
}

/// A further scan of a band.
#[verifier::rlimit(40)]
#[verifier::spinoff_prover]
proof fn lemma_ac_refine_terms(
    a: Seq<u8>,
    b: Seq<u8>,
    from: int,
    d: int,
    x: BandBlock,
    book: CodeBook,
    se: int,
    al: int,
    k: int,
)
    requires
        moved(a, b, from, d),
        from <= x.br.pos,
    ensures
        ac_refine_terms(b, band_onward(x, d), book, se, al, k) == band_onward(
            ac_refine_terms(a, x, book, se, al, k),
            d,
        ),
        from <= ac_refine_terms(a, x, book, se, al, k).br.pos,
    decreases se + 17 - k,
{
    if x.err is None && k <= se {
        lemma_symbol(a, b, from, d, x.br, book);
        let (br, sym) = read_symbol(a, x.br, book);
        if let Ok(rs) = sym {
            let run = rs as int / 16;
            let size = rs as int % 16;
            let x1 = BandBlock { br, ..x };
            if size == 0 && run != 15 {
                lemma_eobrun(a, b, from, d, br, run);
                let (br1, n) = read_eobrun(a, br, run);
                if let Ok(eobrun) = n {
                    lemma_refine_band(a, b, from, d, BandBlock { br: br1, eobrun, ..x }, se, al, k);
                }
            } else if size == 0 {
                lemma_skip_zeros(a, b, from, d, x1, se, al, k, 16);
                lemma_walks_advance(a, x1, se, al, k, 16, 0);
                lemma_skip_bound(a, x1, se, al, k, 16);
                let (x2, k2) = skip_zeros(a, x1, se, al, k, 16);
                if x2.err is None {
                    lemma_ac_refine_terms(a, b, from, d, x2, book, se, al, k2);
                }
            } else if size == 1 {
                lemma_bits(a, b, from, d, br, 1);
                let (br1, sign) = read_bits(a, br, 1);
                if let Ok(bit) = sign {
                    let v = if bit != 0 {
                        at_bit(1, al)
                    } else {
                        at_bit(-1, al)
                    };
                    let x2 = BandBlock { br: br1, ..x };
                    lemma_insert_new(a, b, from, d, x2, se, al, k, run, v);
                    lemma_walks_advance(a, x2, se, al, k, run, v);
                    lemma_insert_bound(a, x2, se, al, k, run, v);
                    let (x3, k3) = insert_new(a, x2, se, al, k, run, v);
                    if x3.err is None {
                        lemma_ac_refine_terms(a, b, from, d, x3, book, se, al, k3);
                    }
                }
            }
        }
    }
}

/// A restart of a progressive scan that is due.
proof fn lemma_band_restart_if_due(
    a: Seq<u8>,
    b: Seq<u8>,
    from: int,
    d: int,
    ctx: BandContext,
    s: BandState,
)
    requires
        moved(a, b, from, d),
        ctx.src == a,
        from <= s.br.pos,
    ensures
        band_restart_if_due(pass_of(ctx, b), pass_onward(s, d)) == pass_onward(band_restart_if_due(ctx, s), d),
        from <= band_restart_if_due(ctx, s).br.pos,
{
    lemma_restart(a, b, from, d, s.br);
}

/// A DC coefficient.
proof fn lemma_dc_coefficient(
    a: Seq<u8>,
    b: Seq<u8>,
    from: int,
    d: int,
    ctx: BandContext,
    s: BandState,
    i: int,
    table: int,
    dc: i16,
)
    requires
        moved(a, b, from, d),
        ctx.src == a,
        from <= s.br.pos,
    ensures
        dc_coefficient(pass_of(ctx, b), pass_onward(s, d), i, table, dc).0 == pass_onward(
            dc_coefficient(ctx, s, i, table, dc).0,
            d,
        ),
        dc_coefficient(pass_of(ctx, b), pass_onward(s, d), i, table, dc).1 == dc_coefficient(ctx, s, i, table, dc).1,
        from <= dc_coefficient(ctx, s, i, table, dc).0.br.pos,
{
    if let Some(book) = slot(ctx.dc, table) {
        lemma_dc_first(a, b, from, d, s.br, book, s.prev_dc[i] as int, ctx.scan.al as int, dc);
    }
    lemma_bits(a, b, from, d, s.br, 1);
}

/// A block of a DC scan.
proof fn lemma_dc_block_step(
    a: Seq<u8>,
    b: Seq<u8>,
    from: int,
    d: int,
    ctx: BandContext,
    s: BandState,
    i: int,
    table: int,
    bx: int,
    by: int,
)
    requires
        moved(a, b, from, d),
        ctx.src == a,
        from <= s.br.pos,
    ensures
        dc_block_step(pass_of(ctx, b), pass_onward(s, d), i, table, bx, by) == pass_onward(
            dc_block_step(ctx, s, i, table, bx, by),
            d,
        ),
        from <= dc_block_step(ctx, s, i, table, bx, by).br.pos,
{
    lemma_dc_coefficient(a, b, from, d, ctx, s, i, table, 0);
    lemma_dc_coefficient(a, b, from, d, ctx, s, i, table, s.coefs[i][by * ctx.frame.blocks_x(i) + bx][0]);
}

/// The blocks of a component in an MCU of a DC scan.
proof fn lemma_dc_blocks(
    a: Seq<u8>,
    b: Seq<u8>,
    from: int,
    d: int,
    ctx: BandContext,
    s: BandState,
    i: int,
    table: int,
    mx: int,
    my: int,
    n: nat,
)
    requires
        moved(a, b, from, d),
        ctx.src == a,
        from <= s.br.pos,
    ensures
        dc_blocks(pass_of(ctx, b), pass_onward(s, d), i, table, mx, my, n) == pass_onward(
            dc_blocks(ctx, s, i, table, mx, my, n),
            d,
        ),
        from <= dc_blocks(ctx, s, i, table, mx, my, n).br.pos,
    decreases n,
{
    if n > 0 {
        lemma_dc_blocks(a, b, from, d, ctx, s, i, table, mx, my, (n - 1) as nat);
        let t = dc_blocks(ctx, s, i, table, mx, my, (n - 1) as nat);
        let (h, v) = mcu_shape(ctx, i);
        lemma_dc_block_step(a, b, from, d, ctx, t, i, table, mx * h + (n - 1) % h, my * v + (n - 1) / h);
    }
}

/// The components of an MCU of a DC scan.
proof fn lemma_dc_entries(
    a: Seq<u8>,
    b: Seq<u8>,
    from: int,
    d: int,
    ctx: BandContext,
    s: BandState,
    mx: int,
    my: int,
    n: nat,
)
    requires
        moved(a, b, from, d),
        ctx.src == a,
        from <= s.br.pos,
    ensures
        dc_entries(pass_of(ctx, b), pass_onward(s, d), mx, my, n) == pass_onward(dc_entries(ctx, s, mx, my, n), d),
        from <= dc_entries(ctx, s, mx, my, n).br.pos,
    decreases n,
{
    if n > 0 {
        lemma_dc_entries(a, b, from, d, ctx, s, mx, my, (n - 1) as nat);
        let t = dc_entries(ctx, s, mx, my, (n - 1) as nat);
        let i = entry_component(ctx, n - 1)->0;
        let (h, v) = mcu_shape(ctx, i);
        let table = ctx.scan.components[n - 1].dc_table as int;
        lemma_dc_blocks(a, b, from, d, ctx, t, i, table, mx, my, (h * v) as nat);
    }
}

/// The MCUs of a DC scan.
proof fn lemma_dc_mcus(
    a: Seq<u8>,
    b: Seq<u8>,
    from: int,
    d: int,
    ctx: BandContext,
    s: BandState,
    n: nat,
)
    requires
        moved(a, b, from, d),
        ctx.src == a,
        from <= s.br.pos,
    ensures
        dc_mcus(pass_of(ctx, b), pass_onward(s, d), n) == pass_onward(dc_mcus(ctx, s, n), d),
        from <= dc_mcus(ctx, s, n).br.pos,
    decreases n,
{
    if n > 0 {
        lemma_dc_mcus(a, b, from, d, ctx, s, (n - 1) as nat);
        let t = dc_mcus(ctx, s, (n - 1) as nat);
        let w = dc_grid(ctx).0;
        lemma_band_restart_if_due(a, b, from, d, ctx, t);
        let u = band_restart_if_due(ctx, t);
        lemma_dc_entries(a, b, from, d, ctx, u, (n - 1) % w, (n - 1) / w, ctx.scan.components.len());
    }
}

/// A block of an AC scan.
proof fn lemma_ac_block_step(
    a: Seq<u8>,
    b: Seq<u8>,
    from: int,
    d: int,
    ctx: BandContext,
    s: BandState,
    i: int,
    book: CodeBook,
    at: int,
)
    requires
        moved(a, b, from, d),
        ctx.src == a,
        from <= s.br.pos,
    ensures
        ac_block_step(pass_of(ctx, b), pass_onward(s, d), i, book, at) == pass_onward(
            ac_block_step(ctx, s, i, book, at),
            d,
        ),
        from <= ac_block_step(ctx, s, i, book, at).br.pos,
{
    let x = BandBlock { br: s.br, eobrun: s.eobrun, coef: s.coefs[i][at], err: None };
    let (ss, se, al) = (ctx.scan.ss as int, ctx.scan.se as int, ctx.scan.al as int);
    lemma_ac_first_terms(a, b, from, d, x, book, se, al, ss);
    lemma_ac_refine_terms(a, b, from, d, x, book, se, al, ss);
    lemma_refine_band(a, b, from, d, x, se, al, ss);
}

/// The blocks of an AC scan.
proof fn lemma_ac_blocks(
    a: Seq<u8>,
    b: Seq<u8>,
    from: int,
    d: int,
    ctx: BandContext,
    s: BandState,
    i: int,
    book: CodeBook,
    n: nat,
)
    requires
        moved(a, b, from, d),
        ctx.src == a,
        from <= s.br.pos,
    ensures
        ac_blocks(pass_of(ctx, b), pass_onward(s, d), i, book, n) == pass_onward(ac_blocks(ctx, s, i, book, n), d),
        from <= ac_blocks(ctx, s, i, book, n).br.pos,
    decreases n,
{
    if n > 0 {
        lemma_ac_blocks(a, b, from, d, ctx, s, i, book, (n - 1) as nat);
        let t = ac_blocks(ctx, s, i, book, (n - 1) as nat);
        lemma_band_restart_if_due(a, b, from, d, ctx, t);
        lemma_ac_block_step(a, b, from, d, ctx, band_restart_if_due(ctx, t), i, book, n - 1);
    }
}

/// A progressive scan.
proof fn lemma_progressive_scan(
    a: Seq<u8>,
    b: Seq<u8>,
    from: int,
    d: int,
    ctx: BandContext,
    start: int,
    coefs: Seq<Seq<Seq<i16>>>,
)
    requires
        moved(a, b, from, d),
        ctx.src == a,
        from <= start,
    ensures
        progressive_scan(pass_of(ctx, b), start + d, coefs) == pass_onward(progressive_scan(ctx, start, coefs), d),
        from <= progressive_scan(ctx, start, coefs).br.pos,
{
    reveal(progressive_scan);
    let s = BandState {
        br: BitState { pos: start, buf: 0, nbits: 0, marker: None },
        prev_dc: seq![0i32, 0i32, 0i32, 0i32],
        eobrun: 0,
        since: 0,
        coefs,
        err: None,
    };
    let other = pass_of(ctx, b);
    assert forall|e: int| #[trigger] entry_component(other, e) == entry_component(ctx, e) by {}
    assert(has_unknown_component(other) == has_unknown_component(ctx)) by {
        if has_unknown_component(ctx) {
            let e = choose|e: int| 0 <= e < ctx.scan.components.len() && #[trigger] entry_component(ctx, e) is None;
            assert(entry_component(other, e) is None);
        }
    }
    let (w, h) = dc_grid(ctx);
    lemma_dc_mcus(a, b, from, d, ctx, s, (w * h) as nat);
    let i = entry_component(ctx, 0)->0;
    if let Some(book) = slot(ctx.ac, ctx.scan.components[0].ac_table as int) {
        lemma_ac_blocks(a, b, from, d, ctx, s, i, book, (ctx.frame.blocks_x(i) * ctx.frame.blocks_y(i)) as nat);
    }
}

/// Progressive scans are read forward only: a stream that holds the same
/// bytes from a scan's data on, at a later position, yields the same
/// coefficients and tables.
pub proof fn law_progressive_scans_look_forward(
    a: Seq<u8>,
    b: Seq<u8>,
    from: int,
    d: int,
    frame: Frame,
    t: Tables,
    scan: Scan,
    coefs: Seq<Seq<Seq<i16>>>,
)
    requires
        moved(a, b, from, d),
        from <= t.c.pos,
        t.c.err is None,
    ensures
        progressive_scans(b, frame, Tables { c: further(t.c, d), ..t }, scan, coefs) == progressive_scans(
            a,
            frame,
            t,
            scan,
            coefs,
        ),
    decreases a.len() - t.c.pos,
{
    let slots = fill_slots(t.huffman, t.huffman.len());
    if slots.err is None {
        let ctx = BandContext {
            src: a,
            frame,
            scan,
            interval: t.restart_interval as int,
            dc: slots.dc,
            ac: slots.ac,
        };
        lemma_progressive_scan(a, b, from, d, ctx, t.c.pos, coefs);
        let s = progressive_scan(ctx, t.c.pos, coefs);
        if s.err is None {
            let t1 = Tables { c: Cursor::at(s.br.pos), ..t };
            lemma_walk_between(a, b, from, d, t1, frame, s.br.marker);
            let (t2, next) = walk_between(a, t1, frame, s.br.marker);
            if let Between::Next(scan2) = next {
                if t2.c.err is None {
                    lemma_progressive_scan_pos(ctx, t.c.pos, coefs);
                    lemma_walk_between_advances(a, t1, frame, s.br.marker);
                    law_progressive_scans_look_forward(a, b, from, d, frame, t2, scan2, s.coefs);
                }
            }
        }
    }
}

/// A segment as it is written: `FF`, the marker, a two-byte length that
/// counts itself and the payload, and the payload.
pub open spec fn segment(marker: u8, payload: Seq<u8>) -> Seq<u8> {
    let n = payload.len() + 2;
    seq![0xFFu8, marker, (n / 256) as u8, (n % 256) as u8] + payload
}

/// `buf` with `part` put in at `pos`.
pub open spec fn with_inserted(buf: Seq<u8>, pos: int, part: Seq<u8>) -> Seq<u8> {
    buf.subrange(0, pos) + part + buf.subrange(pos, buf.len() as int)
}

/// An inserted segment stands where it was put, and what stood there has
/// moved behind it.
proof fn lemma_inserted(buf: Seq<u8>, pos: int, marker: u8, payload: Seq<u8>)
    requires
        0 <= pos <= buf.len(),
        0 < marker < 0xFF,
        payload.len() + 2 <= 0xFFFF,
        buf.len() + payload.len() + 4 + 0x1_0000 <= usize::MAX,
    ensures
        moved(buf, with_inserted(buf, pos, segment(marker, payload)), pos, payload.len() as int + 4),
        segment_at(with_inserted(buf, pos, segment(marker, payload)), pos, marker, payload),
{
    let part = segment(marker, payload);
    let all = with_inserted(buf, pos, part);
    assert(part.len() == payload.len() + 4);
    assert forall|i: int| pos <= i < buf.len() implies all[i + part.len()] == #[trigger] buf[i] by {}
    assert forall|i: int| 0 <= i < part.len() implies all[pos + i] == #[trigger] part[i] by {}
    assert(all[pos + 0] == part[0]);
    assert(all[pos + 1] == part[1]);
    assert(all[pos + 2] == part[2]);
    assert(all[pos + 3] == part[3]);
    assert forall|i: int| 0 <= i < payload.len() implies all[pos + 4 + i] == #[trigger] payload[i] by {
        assert(all[pos + (4 + i)] == part[4 + i]);
    }
}

/// A walk from a segment that is skipped, and one from where the rest began
/// before.
proof fn lemma_walk_past_segment(buf: Seq<u8>, all: Seq<u8>, w: Walk, pos: int, marker: u8, payload: Seq<u8>)
    requires
        w.c == Cursor::at(pos),
        marker == 0xFE || marker == 0xE0 || 0xE3 <= marker <= 0xEF,
        moved(buf, all, pos, payload.len() as int + 4),
        segment_at(all, pos, marker, payload),
    ensures
        walks_alike(walk_to_scan(buf, w).0, walk_to_scan(all, w).0, pos, payload.len() as int + 4),
        walk_to_scan(buf, w).1 == walk_to_scan(all, w).1,
{
    law_skipped_segments_do_not_matter(all, w, pos, marker, payload);
    lemma_walk(buf, all, pos, payload.len() as int + 4, w, walk_at(w, pos + 4 + payload.len()));
}

/// Putting a comment, or an application segment other than APP1 and APP2,
/// in front of a marker changes nothing that is found from there on but the
/// position, which is later by the length of the segment.
pub proof fn law_inserted_segment_is_skipped(buf: Seq<u8>, w: Walk, pos: int, marker: u8, payload: Seq<u8>)
    requires
        w.c == Cursor::at(pos),
        0 <= pos <= buf.len(),
        marker == 0xFE || marker == 0xE0 || 0xE3 <= marker <= 0xEF,
        payload.len() + 2 <= 0xFFFF,
        buf.len() + payload.len() + 4 + 0x1_0000 <= usize::MAX,
    ensures
        ({
            let all = with_inserted(buf, pos, segment(marker, payload));
            let (v, scan) = walk_to_scan(all, w);
            let (u, same) = walk_to_scan(buf, w);
            &&& scan == same
            &&& v.frame == u.frame
            &&& v.quant == u.quant
            &&& v.huffman == u.huffman
            &&& v.restart_interval == u.restart_interval
            &&& v.c.err == u.c.err
            &&& v.c.pos == u.c.pos + payload.len() + 4
        }),
{
    let all = with_inserted(buf, pos, segment(marker, payload));
    lemma_inserted(buf, pos, marker, payload);
    lemma_walk_past_segment(buf, all, w, pos, marker, payload);
}

/// Putting such a segment right behind SOI does not change the picture: the
/// stream is refused with the same error as before, or has the same frame,
/// tables and first scan, and yields the same samples and the same pixels.
pub proof fn law_inserted_segment_keeps_the_picture(buf: Seq<u8>, marker: u8, payload: Seq<u8>, layout: PixelLayout)
    requires
        buf.len() >= 2,
        buf[0] == 0xFF,
        buf[1] == 0xD8,
        marker == 0xFE || marker == 0xE0 || 0xE3 <= marker <= 0xEF,
        payload.len() + 2 <= 0xFFFF,
        buf.len() + payload.len() + 4 + 0x1_0000 <= usize::MAX,
    ensures
        match parsed(buf) {
            Err(e) => parsed(with_inserted(buf, 2, segment(marker, payload))) == Err::<Parsed, DecodeError>(e),
            Ok(p) => {
                &&& parsed(with_inserted(buf, 2, segment(marker, payload))) matches Ok(q)
                &&& q.headers.frame == p.headers.frame
                &&& q.headers.quant == p.headers.quant
                &&& q.headers.huffman == p.headers.huffman
                &&& q.headers.restart_interval == p.headers.restart_interval
                &&& q.first_scan == p.first_scan
                &&& q.entropy_start == p.entropy_start + payload.len() + 4
                &&& q.samples() == p.samples()
                &&& q.pixels(layout) == p.pixels(layout)
            },
        },
{
    let d = payload.len() as int + 4;
    let all = with_inserted(buf, 2, segment(marker, payload));
    lemma_inserted(buf, 2, marker, payload);
    assert(all[0] == buf[0] && all[1] == buf[1]);
    let w = Walk {
        c: Cursor::at(2),
        frame: None,
        quant: Seq::empty(),
        huffman: Seq::empty(),
        restart_interval: 0,
        metadata: Metadata { exif: None, icc_chunks: Map::empty(), icc_total: None, icc_conflict: false },
    };
    assert(read_headers(buf, Cursor::at(0)) == walk_to_scan(buf, w));
    assert(read_headers(all, Cursor::at(0)) == walk_to_scan(all, w));
    lemma_walk_past_segment(buf, all, w, 2, marker, payload);
    law_headers_are_in_order(buf, Cursor::at(0));
    if let Ok(p) = parsed(buf) {
        let frame = p.headers.frame;
        let t = Tables {
            c: Cursor::at(p.entropy_start),
            quant: p.headers.quant,
            huffman: p.headers.huffman,
            restart_interval: p.headers.restart_interval,
        };
        law_baseline_scans_look_forward(buf, all, 2, d, frame, t, p.first_scan, blank_samples(frame));
        law_progressive_scans_look_forward(buf, all, 2, d, frame, t, p.first_scan, blank_coefs(frame));
    }
}

} // verus!
