//! Marker stream reader.
//!
//! Walks the byte stream from SOI to SOS and collects the headers (DQT,
//! DHT, SOF, SOS, DRI, and the EXIF and ICC metadata). Standalone markers
//! (SOI, EOI, RSTn) carry no length field; every other segment starts with
//! a two-byte length that counts itself.

use std::collections::BTreeMap;
use std::ops::Range;

use vstd::prelude::*;

use super::error::{DecodeError, Result};
use crate::tables::ZIGZAG;

verus! {

use super::huffman::CodeBook;
use crate::tables::{from_zigzag, law_zigzag_is_permutation, ZIGZAG_INVERSE};

/// Start of image.
pub const M_SOI: u8 = 0xD8;

/// End of image.
pub const M_EOI: u8 = 0xD9;

/// Start of scan.
pub const M_SOS: u8 = 0xDA;

/// Quantization tables.
pub const M_DQT: u8 = 0xDB;

/// Huffman tables.
pub const M_DHT: u8 = 0xC4;

/// Restart interval.
pub const M_DRI: u8 = 0xDD;

/// Baseline DCT, Huffman coded.
pub const M_SOF0: u8 = 0xC0;

/// Progressive DCT, Huffman coded.
pub const M_SOF2: u8 = 0xC2;

/// Comment.
pub const M_COM: u8 = 0xFE;

/// Largest width and height that is accepted.
pub const MAX_DIMENSION: u16 = 16384;

/// A component as SOF describes it.
#[derive(Clone, Copy, Debug)]
pub struct Component {
    /// Component identifier. 1 is Y, 2 is Cb, 3 is Cr by convention.
    pub id: u8,
    /// Horizontal sampling factor: 1, 2 or 4.
    pub h: u8,
    /// Vertical sampling factor: 1, 2 or 4.
    pub v: u8,
    /// Quantization table selector, 0 to 3.
    pub qt: u8,
}

/// Frame header, from SOF0 or SOF2.
#[derive(Clone, Debug)]
pub struct FrameHeader {
    /// Sample precision in bits. Only 8 is accepted.
    pub precision: u8,
    /// Image height in samples.
    pub height: u16,
    /// Image width in samples.
    pub width: u16,
    /// Components in order of declaration.
    pub components: Vec<Component>,
    /// Whether the frame is progressive.
    pub progressive: bool,
}

/// A component's part in a scan, from SOS.
#[derive(Clone, Copy, Debug)]
pub struct ScanComponent {
    /// The frame component that the entry refers to.
    pub component_id: u8,
    /// DC Huffman table selector, 0 to 3.
    pub dc_table: u8,
    /// AC Huffman table selector, 0 to 3.
    pub ac_table: u8,
}

/// Scan header, from SOS.
#[derive(Clone, Debug)]
pub struct ScanHeader {
    pub components: Vec<ScanComponent>,
    /// First coefficient of the scan in zig-zag order.
    pub ss: u8,
    /// Last coefficient of the scan in zig-zag order.
    pub se: u8,
    /// Bit position of the previous approximation; 0 in a first scan.
    pub ah: u8,
    /// Bit position of this approximation.
    pub al: u8,
}

/// Quantization table.
#[derive(Clone, Copy, Debug)]
pub struct QuantTable {
    /// Table slot, 0 to 3.
    pub id: u8,
    /// Entries in natural order.
    pub values: [u16; 64],
}

/// Huffman table as DHT defines it.
#[derive(Clone, Debug)]
pub struct HuffmanTableSpec {
    /// 0 for DC, 1 for AC.
    pub class: u8,
    /// Table slot, 0 to 3.
    pub id: u8,
    /// Number of codes of each length from 1 to 16.
    pub bits: [u8; 16],
    /// Symbols in order of increasing code.
    pub values: Vec<u8>,
}

/// Metadata from APP1 and APP2 segments, as ranges of the source.
#[derive(Clone, Debug)]
pub struct DecoderMetadata {
    /// The EXIF payload, after its identifier.
    pub exif: Option<Range<usize>>,
    /// The chunks of the ICC profile, after their headers, by their number
    /// (the first is 1).
    pub icc_chunks: BTreeMap<u8, Range<usize>>,
    /// How many chunks the first ICC segment announced.
    pub icc_total: Option<u8>,
    /// Whether a later ICC segment announced another number of chunks.
    pub icc_conflict: bool,
}

/// What the marker walk collects before the first scan.
#[derive(Clone, Debug)]
pub struct DecoderHeaders {
    pub frame: FrameHeader,
    pub quant: Vec<QuantTable>,
    pub huffman: Vec<HuffmanTableSpec>,
    pub restart_interval: u16,
    pub metadata: DecoderMetadata,
}

/// Model of [`FrameHeader`].
#[verifier::ext_equal]
pub ghost struct Frame {
    pub precision: u8,
    pub height: u16,
    pub width: u16,
    pub components: Seq<Component>,
    pub progressive: bool,
}

/// Model of [`ScanHeader`].
#[verifier::ext_equal]
pub ghost struct Scan {
    pub components: Seq<ScanComponent>,
    pub ss: u8,
    pub se: u8,
    pub ah: u8,
    pub al: u8,
}

/// Model of [`QuantTable`].
#[verifier::ext_equal]
pub ghost struct Quant {
    pub id: u8,
    pub values: Seq<u16>,
}

/// Model of [`HuffmanTableSpec`].
#[verifier::ext_equal]
pub ghost struct Huff {
    pub class: u8,
    pub id: u8,
    pub book: CodeBook,
}

/// Model of [`DecoderMetadata`].
#[verifier::ext_equal]
pub ghost struct Metadata {
    pub exif: Option<Range<usize>>,
    pub icc_chunks: Map<u8, Range<usize>>,
    pub icc_total: Option<u8>,
    pub icc_conflict: bool,
}

/// Model of [`DecoderHeaders`].
#[verifier::ext_equal]
pub ghost struct Headers {
    pub frame: Frame,
    pub quant: Seq<Quant>,
    pub huffman: Seq<Huff>,
    pub restart_interval: u16,
    pub metadata: Metadata,
}

impl View for FrameHeader {
    type V = Frame;

    open spec fn view(&self) -> Frame {
        Frame {
            precision: self.precision,
            height: self.height,
            width: self.width,
            components: self.components@,
            progressive: self.progressive,
        }
    }
}

impl View for ScanHeader {
    type V = Scan;

    open spec fn view(&self) -> Scan {
        Scan { components: self.components@, ss: self.ss, se: self.se, ah: self.ah, al: self.al }
    }
}

impl View for QuantTable {
    type V = Quant;

    open spec fn view(&self) -> Quant {
        Quant { id: self.id, values: self.values@ }
    }
}

impl HuffmanTableSpec {
    /// The code that the table defines.
    pub open spec fn book(&self) -> CodeBook {
        CodeBook { bits: self.bits@, values: self.values@ }
    }
}

impl View for HuffmanTableSpec {
    type V = Huff;

    open spec fn view(&self) -> Huff {
        Huff { class: self.class, id: self.id, book: self.book() }
    }
}

impl View for DecoderMetadata {
    type V = Metadata;

    open spec fn view(&self) -> Metadata {
        Metadata {
            exif: self.exif,
            icc_chunks: self.icc_chunks@,
            icc_total: self.icc_total,
            icc_conflict: self.icc_conflict,
        }
    }
}

impl Default for DecoderMetadata {
    /// No metadata.
    fn default() -> (r: Self)
        ensures
            r.exif is None,
            r.icc_chunks@ == Map::<u8, Range<usize>>::empty(),
            r.icc_total is None,
            !r.icc_conflict,
    {
        DecoderMetadata { exif: None, icc_chunks: BTreeMap::new(), icc_total: None, icc_conflict: false }
    }
}

/// The models of a list of quantization tables.
pub open spec fn quants(v: Seq<QuantTable>) -> Seq<Quant> {
    v.map_values(|q: QuantTable| q@)
}

/// The models of a list of Huffman tables.
pub open spec fn huffs(v: Seq<HuffmanTableSpec>) -> Seq<Huff> {
    v.map_values(|h: HuffmanTableSpec| h@)
}

impl View for DecoderHeaders {
    type V = Headers;

    open spec fn view(&self) -> Headers {
        Headers {
            frame: self.frame@,
            quant: quants(self.quant@),
            huffman: huffs(self.huffman@),
            restart_interval: self.restart_interval,
            metadata: self.metadata@,
        }
    }
}

/// A position in the data, and the error that stopped the reading there,
/// if one did. Reading past an error changes nothing.
pub ghost struct Cursor {
    pub pos: int,
    pub err: Option<DecodeError>,
}

impl Cursor {
    /// A cursor at `pos`.
    pub open spec fn at(pos: int) -> Cursor {
        Cursor { pos, err: None }
    }

    /// The cursor stopped by an error.
    pub open spec fn fail(self, e: DecodeError) -> Cursor {
        Cursor { err: Some(e), ..self }
    }

    /// Stops with `e` unless `ok` holds.
    pub open spec fn check(self, ok: bool, e: DecodeError) -> Cursor {
        if self.err is None && !ok {
            self.fail(e)
        } else {
            self
        }
    }

    /// Reads a byte.
    pub open spec fn u8(self, buf: Seq<u8>) -> (Cursor, u8) {
        if self.err is Some {
            (self, 0)
        } else if 0 <= self.pos < buf.len() {
            (Cursor { pos: self.pos + 1, ..self }, buf[self.pos])
        } else {
            (self.fail(DecodeError::UnexpectedEof), 0)
        }
    }

    /// Reads a two-byte number, most significant byte first.
    pub open spec fn u16(self, buf: Seq<u8>) -> (Cursor, u16) {
        let (c, hi) = self.u8(buf);
        let (c, lo) = c.u8(buf);
        (c, (hi * 256 + lo) as u16)
    }

    /// Reads `n` bytes.
    pub open spec fn take(self, buf: Seq<u8>, n: int) -> (Cursor, Seq<u8>) {
        if self.err is Some {
            (self, Seq::empty())
        } else if self.pos + n > usize::MAX {
            (self.fail(DecodeError::Malformed("length overflow")), Seq::empty())
        } else if self.pos + n > buf.len() {
            (self.fail(DecodeError::UnexpectedEof), Seq::empty())
        } else {
            (Cursor { pos: self.pos + n, ..self }, buf.subrange(self.pos, self.pos + n))
        }
    }
}

/// The first position from `pos` on that holds `FF`, or the end.
pub open spec fn skip_to_ff(buf: Seq<u8>, pos: int) -> int
    decreases buf.len() - pos,
{
    if 0 <= pos < buf.len() && buf[pos] != 0xFF {
        skip_to_ff(buf, pos + 1)
    } else {
        pos
    }
}

/// The first position from `pos` on that does not hold `FF`, or the end.
pub open spec fn skip_ff(buf: Seq<u8>, pos: int) -> int
    decreases buf.len() - pos,
{
    if 0 <= pos < buf.len() && buf[pos] == 0xFF {
        skip_ff(buf, pos + 1)
    } else {
        pos
    }
}

/// Reads the next marker: bytes before the next `FF` are skipped, and so
/// are further `FF` bytes.
pub open spec fn read_marker(buf: Seq<u8>, c: Cursor) -> (Cursor, u8) {
    if c.err is Some {
        (c, 0)
    } else {
        let p = skip_to_ff(buf, c.pos);
        if p >= buf.len() {
            (Cursor { pos: p, err: Some(DecodeError::UnexpectedEof) }, 0)
        } else {
            let q = skip_ff(buf, p);
            if q >= buf.len() {
                (Cursor { pos: q, err: Some(DecodeError::UnexpectedEof) }, 0)
            } else {
                (
                    Cursor::at(q + 1).check(
                        buf[q] != 0,
                        DecodeError::Malformed("stray 0xFF 0x00 outside scan"),
                    ),
                    buf[q],
                )
            }
        }
    }
}

/// Cursor over the byte stream.
pub struct MarkerReader<'a> {
    buf: &'a [u8],
    pos: usize,
}

impl<'a> MarkerReader<'a> {
    /// The bytes that the reader runs over.
    pub closed spec fn data(&self) -> Seq<u8> {
        self.buf@
    }

    /// The position of the reader.
    pub closed spec fn at(&self) -> int {
        self.pos as int
    }

    /// The reader as a cursor.
    pub open spec fn cursor(&self) -> Cursor {
        Cursor::at(self.at())
    }

    /// A reader at the start of `buf`.
    pub fn new(buf: &'a [u8]) -> (r: Self)
        ensures
            r.data() == buf@,
            r.at() == 0,
    {
        MarkerReader { buf, pos: 0 }
    }

    /// A reader at position `pos` of `buf`.
    pub fn resume_at(buf: &'a [u8], pos: usize) -> (r: Self)
        ensures
            r.data() == buf@,
            r.at() == pos,
    {
        MarkerReader { buf, pos }
    }

    /// The current position.
    pub fn pos(&self) -> (r: usize)
        ensures
            r == self.at(),
    {
        self.pos
    }

    /// The bytes from the current position on.
    pub fn remaining(&self) -> (r: &'a [u8])
        requires
            self.at() <= self.data().len(),
        ensures
            r@ == self.data().subrange(self.at(), self.data().len() as int),
    {
        let len: usize = self.buf.len();
        &self.buf[self.pos..len]
    }

    fn read_u8(&mut self) -> (r: Result<u8>)
        ensures
            final(self).data() == old(self).data(),
            ({
                let (c, v) = old(self).cursor().u8(old(self).data());
                &&& final(self).at() == c.pos
                &&& r == match c.err {
                    Some(e) => Err(e),
                    None => Ok(v),
                }
            }),
    {
        if self.pos < self.buf.len() {
            let b = self.buf[self.pos];
            self.pos = self.pos + 1;
            Ok(b)
        } else {
            Err(DecodeError::UnexpectedEof)
        }
    }

    fn read_u16(&mut self) -> (r: Result<u16>)
        ensures
            final(self).data() == old(self).data(),
            ({
                let (c, v) = old(self).cursor().u16(old(self).data());
                &&& final(self).at() == c.pos
                &&& r == match c.err {
                    Some(e) => Err(e),
                    None => Ok(v),
                }
            }),
    {
        let hi: u16 = self.read_u8()? as u16;
        let lo: u16 = self.read_u8()? as u16;
        Ok(hi * 256 + lo)
    }

    fn read_slice(&mut self, n: usize) -> (r: Result<&'a [u8]>)
        ensures
            final(self).data() == old(self).data(),
            ({
                let (c, v) = old(self).cursor().take(old(self).data(), n as int);
                &&& final(self).at() == c.pos
                &&& match c.err {
                    Some(e) => r == Err::<&'a [u8], DecodeError>(e),
                    None => r matches Ok(s) && s@ == v,
                }
            }),
    {
        let end: usize = match self.pos.checked_add(n) {
            Some(end) => end,
            None => {
                return Err(DecodeError::Malformed("length overflow"));
            },
        };
        if end > self.buf.len() {
            return Err(DecodeError::UnexpectedEof);
        }
        let s = &self.buf[self.pos..end];
        self.pos = end;
        Ok(s)
    }

    fn read_marker(&mut self) -> (r: Result<u8>)
        ensures
            final(self).data() == old(self).data(),
            ({
                let (c, v) = read_marker(old(self).data(), old(self).cursor());
                &&& final(self).at() == c.pos
                &&& r == match c.err {
                    Some(e) => Err(e),
                    None => Ok(v),
                }
            }),
    {
        let ghost start = self.pos;
        let ghost buf = self.buf@;
        while self.pos < self.buf.len() && self.buf[self.pos] != 0xFF
            invariant
                self.buf@ == buf,
                skip_to_ff(buf, self.pos as int) == skip_to_ff(buf, start as int),
            decreases self.buf@.len() - self.pos,
        {
            self.pos = self.pos + 1;
        }
        if self.pos >= self.buf.len() {
            return Err(DecodeError::UnexpectedEof);
        }
        let ghost first = self.pos;
        while self.pos < self.buf.len() && self.buf[self.pos] == 0xFF
            invariant
                self.buf@ == buf,
                skip_ff(buf, self.pos as int) == skip_ff(buf, first as int),
            decreases self.buf@.len() - self.pos,
        {
            self.pos = self.pos + 1;
        }
        if self.pos >= self.buf.len() {
            return Err(DecodeError::UnexpectedEof);
        }
        let m = self.buf[self.pos];
        self.pos = self.pos + 1;
        if m == 0x00 {
            return Err(DecodeError::Malformed("stray 0xFF 0x00 outside scan"));
        }
        Ok(m)
    }
}

/// The largest horizontal sampling factor of the first `n` components, or
/// 1 if there is none.
pub open spec fn max_h(components: Seq<Component>, n: nat) -> u8
    decreases n,
{
    if n == 0 {
        1
    } else if n == 1 {
        components[0].h
    } else {
        let m = max_h(components, (n - 1) as nat);
        let h = components[n - 1].h;
        if h >= m {
            h
        } else {
            m
        }
    }
}

/// The largest vertical sampling factor of the first `n` components, or 1
/// if there is none.
pub open spec fn max_v(components: Seq<Component>, n: nat) -> u8
    decreases n,
{
    if n == 0 {
        1
    } else if n == 1 {
        components[0].v
    } else {
        let m = max_v(components, (n - 1) as nat);
        let v = components[n - 1].v;
        if v >= m {
            v
        } else {
            m
        }
    }
}

impl Frame {
    /// The largest horizontal sampling factor.
    pub open spec fn h_max(self) -> u8 {
        max_h(self.components, self.components.len())
    }

    /// The largest vertical sampling factor.
    pub open spec fn v_max(self) -> u8 {
        max_v(self.components, self.components.len())
    }
}

impl FrameHeader {
    /// The largest horizontal sampling factor.
    pub fn h_max(&self) -> (r: u8)
        ensures
            r == self@.h_max(),
    {
        let n: usize = self.components.len();
        if n == 0 {
            return 1;
        }
        let mut m: u8 = self.components[0].h;
        let mut i: usize = 1;
        while i < n
            invariant
                1 <= i <= n,
                n == self.components@.len(),
                m == max_h(self.components@, i as nat),
            decreases n - i,
        {
            if self.components[i].h >= m {
                m = self.components[i].h;
            }
            i = i + 1;
        }
        m
    }

    /// The largest vertical sampling factor.
    pub fn v_max(&self) -> (r: u8)
        ensures
            r == self@.v_max(),
    {
        let n: usize = self.components.len();
        if n == 0 {
            return 1;
        }
        let mut m: u8 = self.components[0].v;
        let mut i: usize = 1;
        while i < n
            invariant
                1 <= i <= n,
                n == self.components@.len(),
                m == max_v(self.components@, i as nat),
            decreases n - i,
        {
            if self.components[i].v >= m {
                m = self.components[i].v;
            }
            i = i + 1;
        }
        m
    }

    /// Width and height of an MCU in pixels.
    pub fn mcu_pixels(&self) -> (r: (u32, u32))
        ensures
            r.0 == 8 * self@.h_max(),
            r.1 == 8 * self@.v_max(),
    {
        (self.h_max() as u32 * 8, self.v_max() as u32 * 8)
    }
}

/// Sampling factors that are accepted.
pub open spec fn sampling_ok(f: int) -> bool {
    f == 1 || f == 2 || f == 4
}

/// Reads `n` component descriptors of a frame after those in `acc`.
pub open spec fn read_frame_components(buf: Seq<u8>, c: Cursor, n: nat, acc: Seq<Component>) -> (
    Cursor,
    Seq<Component>,
)
    decreases n,
{
    if c.err is Some || n == 0 {
        (c, acc)
    } else {
        let (c, id) = c.u8(buf);
        let (c, hv) = c.u8(buf);
        let (c, qt) = c.u8(buf);
        let c = c.check(
            sampling_ok(hv as int / 16) && sampling_ok(hv as int % 16),
            DecodeError::Unsupported("sampling factor not 1/2/4"),
        );
        let c = c.check(qt <= 3, DecodeError::Malformed("quant table selector out of range"));
        read_frame_components(
            buf,
            c,
            (n - 1) as nat,
            acc.push(Component { id, h: (hv / 16) as u8, v: (hv % 16) as u8, qt }),
        )
    }
}

/// A frame of a single component is not subsampled, whatever it declares.
pub open spec fn normalized(components: Seq<Component>) -> Seq<Component> {
    if components.len() == 1 {
        seq![Component { h: 1, v: 1, ..components[0] }]
    } else {
        components
    }
}

/// Reads a SOF segment.
pub open spec fn read_sof(buf: Seq<u8>, c: Cursor, progressive: bool) -> (Cursor, Frame) {
    let (c, len) = c.u16(buf);
    let c = c.check(len >= 8, DecodeError::Malformed("SOF length too small"));
    let (c, precision) = c.u8(buf);
    let c = c.check(precision == 8, DecodeError::Unsupported("non-8-bit precision"));
    let (c, height) = c.u16(buf);
    let (c, width) = c.u16(buf);
    let c = c.check(width != 0 && height != 0, DecodeError::InvalidDimensions("zero dimension"));
    let c = c.check(
        width <= MAX_DIMENSION && height <= MAX_DIMENSION,
        DecodeError::InvalidDimensions(
            "image dimension exceeds 16384 (raise the cap explicitly to opt in)",
        ),
    );
    let (c, nf) = c.u8(buf);
    let c = c.check(len == 8 + 3 * nf, DecodeError::Malformed("SOF length / Nf mismatch"));
    let c = c.check(1 <= nf <= 4, DecodeError::InvalidDimensions("unsupported component count"));
    let (c, components) = read_frame_components(buf, c, nf as nat, Seq::empty());
    (c, Frame { precision, height, width, components: normalized(components), progressive })
}

/// Reads quantization tables from the `remaining` bytes of a DQT segment.
pub open spec fn read_quant_tables(buf: Seq<u8>, c: Cursor, remaining: int, acc: Seq<Quant>) -> (
    Cursor,
    Seq<Quant>,
)
    decreases remaining,
{
    if c.err is Some || remaining <= 0 {
        (c, acc)
    } else {
        let (c, pq_tq) = c.u8(buf);
        let c = c.check(pq_tq % 16 <= 3, DecodeError::Malformed("DQT id out of range"));
        let c = c.check(pq_tq / 16 == 0, DecodeError::Unsupported("16-bit DQT precision"));
        let c = c.check(remaining - 1 >= 64, DecodeError::Malformed("DQT short payload"));
        let (c, zz) = c.take(buf, 64);
        if c.err is Some {
            (c, acc)
        } else {
            read_quant_tables(
                buf,
                c,
                remaining - 65,
                acc.push(
                    Quant {
                        id: (pq_tq % 16) as u8,
                        values: from_zigzag(zz.map_values(|v: u8| v as u16)),
                    },
                ),
            )
        }
    }
}

/// Reads a DQT segment.
pub open spec fn read_dqt(buf: Seq<u8>, c: Cursor, acc: Seq<Quant>) -> (Cursor, Seq<Quant>) {
    let (c, len) = c.u16(buf);
    let c = c.check(len >= 2, DecodeError::Malformed("DQT length too small"));
    read_quant_tables(buf, c, len - 2, acc)
}

/// Reads Huffman tables from the `remaining` bytes of a DHT segment.
pub open spec fn read_huffman_tables(buf: Seq<u8>, c: Cursor, remaining: int, acc: Seq<Huff>) -> (
    Cursor,
    Seq<Huff>,
)
    decreases remaining,
{
    if c.err is Some || remaining <= 0 {
        (c, acc)
    } else {
        let (c, tc_th) = c.u8(buf);
        let c = c.check(tc_th / 16 <= 1, DecodeError::Malformed("DHT class out of range"));
        let c = c.check(tc_th % 16 <= 3, DecodeError::Malformed("DHT id out of range"));
        let c = c.check(remaining - 1 >= 16, DecodeError::Malformed("DHT bits truncated"));
        let (c, bits) = c.take(buf, 16);
        let total = CodeBook { bits, values: Seq::empty() }.offset(17);
        let c = c.check(total <= 256, DecodeError::Malformed("DHT symbol count > 256"));
        let c = c.check(remaining - 17 >= total, DecodeError::Malformed("DHT values truncated"));
        let (c, values) = c.take(buf, total);
        if c.err is Some || total < 0 {
            (c, acc)
        } else {
            read_huffman_tables(
                buf,
                c,
                remaining - 17 - total,
                acc.push(
                    Huff {
                        class: (tc_th / 16) as u8,
                        id: (tc_th % 16) as u8,
                        book: CodeBook { bits, values },
                    },
                ),
            )
        }
    }
}

/// Reads a DHT segment.
pub open spec fn read_dht(buf: Seq<u8>, c: Cursor, acc: Seq<Huff>) -> (Cursor, Seq<Huff>) {
    let (c, len) = c.u16(buf);
    let c = c.check(len >= 2, DecodeError::Malformed("DHT length too small"));
    read_huffman_tables(buf, c, len - 2, acc)
}

/// Some component has identifier `id`.
pub open spec fn has_component(components: Seq<Component>, id: u8) -> bool {
    exists|i: int| 0 <= i < components.len() && (#[trigger] components[i]).id == id
}

/// Reads `n` component entries of a scan after those in `acc`.
pub open spec fn read_scan_components(
    buf: Seq<u8>,
    c: Cursor,
    frame: Frame,
    n: nat,
    acc: Seq<ScanComponent>,
) -> (Cursor, Seq<ScanComponent>)
    decreases n,
{
    if c.err is Some || n == 0 {
        (c, acc)
    } else {
        let (c, cs) = c.u8(buf);
        let (c, td_ta) = c.u8(buf);
        let c = c.check(
            has_component(frame.components, cs),
            DecodeError::Malformed("SOS component id not in frame"),
        );
        let c = c.check(
            td_ta / 16 <= 3 && td_ta % 16 <= 3,
            DecodeError::Malformed("SOS table selector out of range"),
        );
        read_scan_components(
            buf,
            c,
            frame,
            (n - 1) as nat,
            acc.push(
                ScanComponent {
                    component_id: cs,
                    dc_table: (td_ta / 16) as u8,
                    ac_table: (td_ta % 16) as u8,
                },
            ),
        )
    }
}

/// Reads a SOS segment.
pub open spec fn read_sos(buf: Seq<u8>, c: Cursor, frame: Frame) -> (Cursor, Scan) {
    let (c, len) = c.u16(buf);
    let c = c.check(len >= 6, DecodeError::Malformed("SOS length too small"));
    let (c, ns) = c.u8(buf);
    let c = c.check(1 <= ns <= 4, DecodeError::Malformed("SOS Ns out of range"));
    let c = c.check(len == 6 + 2 * ns, DecodeError::Malformed("SOS length / Ns mismatch"));
    let (c, components) = read_scan_components(buf, c, frame, ns as nat, Seq::empty());
    let (c, ss) = c.u8(buf);
    let (c, se) = c.u8(buf);
    let (c, ah_al) = c.u8(buf);
    (c, Scan { components, ss, se, ah: (ah_al / 16) as u8, al: (ah_al % 16) as u8 })
}

impl<'a> MarkerReader<'a> {
    fn parse_sof(&mut self, progressive: bool) -> (r: Result<FrameHeader>)
        ensures
            final(self).data() == old(self).data(),
            ({
                let (c, v) = read_sof(old(self).data(), old(self).cursor(), progressive);
                &&& final(self).at() == c.pos
                &&& match c.err {
                    Some(e) => r == Err::<FrameHeader, DecodeError>(e),
                    None => r matches Ok(f) && f@ == v && f@.wf(),
                }
            }),
    {
        let ghost buf = self.data();
        let ghost target = read_sof(buf, self.cursor(), progressive);
        proof {
            law_accepted_frames_are_bounded(buf, self.cursor(), progressive);
        }
        let len = self.read_u16()?;
        if len < 8 {
            return Err(DecodeError::Malformed("SOF length too small"));
        }
        let precision = self.read_u8()?;
        if precision != 8 {
            return Err(DecodeError::Unsupported("non-8-bit precision"));
        }
        let height = self.read_u16()?;
        let width = self.read_u16()?;
        if width == 0 || height == 0 {
            return Err(DecodeError::InvalidDimensions("zero dimension"));
        }
        if width > MAX_DIMENSION || height > MAX_DIMENSION {
            return Err(
                DecodeError::InvalidDimensions(
                    "image dimension exceeds 16384 (raise the cap explicitly to opt in)",
                ),
            );
        }
        let nf = self.read_u8()?;
        if len as u32 != 8 + 3 * (nf as u32) {
            return Err(DecodeError::Malformed("SOF length / Nf mismatch"));
        }
        if nf == 0 || nf > 4 {
            return Err(DecodeError::InvalidDimensions("unsupported component count"));
        }
        let mut components: Vec<Component> = Vec::new();
        let ghost all = read_frame_components(buf, self.cursor(), nf as nat, Seq::empty());
        for i in 0..nf
            invariant
                self.data() == buf,
                buf == old(self).data(),
                target == read_sof(old(self).data(), old(self).cursor(), progressive),
                target.0 == all.0,
                all == read_frame_components(buf, self.cursor(), (nf - i) as nat, components@),
        {
            proof {
                reveal_with_fuel(read_frame_components, 2);
            }
            let id = self.read_u8()?;
            let hv = self.read_u8()?;
            let qt = self.read_u8()?;
            let h = hv / 16;
            let v = hv % 16;
            if !((h == 1 || h == 2 || h == 4) && (v == 1 || v == 2 || v == 4)) {
                return Err(DecodeError::Unsupported("sampling factor not 1/2/4"));
            }
            if qt > 3 {
                return Err(DecodeError::Malformed("quant table selector out of range"));
            }
            components.push(Component { id, h, v, qt });
        }
        if components.len() == 1 {
            let first = components[0];
            components.set(0, Component { id: first.id, h: 1, v: 1, qt: first.qt });
        }
        let f = FrameHeader { precision, height, width, components, progressive };
        assert(f@.components =~= target.1.components);
        Ok(f)
    }

    fn parse_dqt(&mut self, out: &mut Vec<QuantTable>) -> (r: Result<()>)
        ensures
            final(self).data() == old(self).data(),
            ({
                let (c, v) = read_dqt(old(self).data(), old(self).cursor(), quants(old(out)@));
                &&& final(self).at() == c.pos
                &&& quants(final(out)@) == v
                &&& r == match c.err {
                    Some(e) => Err(e),
                    None => Ok(()),
                }
            }),
    {
        let ghost buf = self.data();
        let ghost target = read_dqt(buf, self.cursor(), quants(out@));
        let len = self.read_u16()?;
        if len < 2 {
            return Err(DecodeError::Malformed("DQT length too small"));
        }
        let mut remaining: usize = len as usize - 2;
        while remaining > 0
            invariant
                self.data() == buf,
                buf == old(self).data(),
                target == read_dqt(old(self).data(), old(self).cursor(), quants(old(out)@)),
                target == read_quant_tables(buf, self.cursor(), remaining as int, quants(out@)),
            decreases remaining,
        {
            let pq_tq = self.read_u8()?;
            remaining = remaining - 1;
            let pq = pq_tq / 16;
            let tq = pq_tq % 16;
            if tq > 3 {
                return Err(DecodeError::Malformed("DQT id out of range"));
            }
            if pq != 0 {
                return Err(DecodeError::Unsupported("16-bit DQT precision"));
            }
            if remaining < 64 {
                return Err(DecodeError::Malformed("DQT short payload"));
            }
            let zz = self.read_slice(64)?;
            remaining = remaining - 64;
            let values = unzigzag(zz);
            let ghost before = out@;
            let q = QuantTable { id: tq, values };
            out.push(q);
            assert(quants(out@) =~= quants(before).push(q@));
        }
        Ok(())
    }

    fn parse_dht(&mut self, out: &mut Vec<HuffmanTableSpec>) -> (r: Result<()>)
        ensures
            final(self).data() == old(self).data(),
            ({
                let (c, v) = read_dht(old(self).data(), old(self).cursor(), huffs(old(out)@));
                &&& final(self).at() == c.pos
                &&& huffs(final(out)@) == v
                &&& r == match c.err {
                    Some(e) => Err(e),
                    None => Ok(()),
                }
            }),
    {
        let ghost buf = self.data();
        let ghost target = read_dht(buf, self.cursor(), huffs(out@));
        let len = self.read_u16()?;
        if len < 2 {
            return Err(DecodeError::Malformed("DHT length too small"));
        }
        let mut remaining: usize = len as usize - 2;
        while remaining > 0
            invariant
                self.data() == buf,
                buf == old(self).data(),
                target == read_dht(old(self).data(), old(self).cursor(), huffs(old(out)@)),
                target == read_huffman_tables(buf, self.cursor(), remaining as int, huffs(out@)),
            decreases remaining,
        {
            let tc_th = self.read_u8()?;
            remaining = remaining - 1;
            let tc = tc_th / 16;
            let th = tc_th % 16;
            if tc > 1 {
                return Err(DecodeError::Malformed("DHT class out of range"));
            }
            if th > 3 {
                return Err(DecodeError::Malformed("DHT id out of range"));
            }
            if remaining < 16 {
                return Err(DecodeError::Malformed("DHT bits truncated"));
            }
            let bits_slice = self.read_slice(16)?;
            remaining = remaining - 16;
            let (bits, total) = copy_counts(bits_slice);
            if total > 256 {
                return Err(DecodeError::Malformed("DHT symbol count > 256"));
            }
            if remaining < total {
                return Err(DecodeError::Malformed("DHT values truncated"));
            }
            let values_slice = self.read_slice(total)?;
            remaining = remaining - total;
            let values = vstd::slice::slice_to_vec(values_slice);
            let ghost before = out@;
            let ghost spec_values = values@;
            let h = HuffmanTableSpec { class: tc, id: th, bits, values };
            let ghost hv = h@;
            assert(hv.book.values =~= values_slice@);
            assert(hv.book.bits =~= bits_slice@);
            out.push(h);
            assert(huffs(out@) =~= huffs(before).push(hv));
        }
        Ok(())
    }

    fn parse_sos(&mut self, frame: &FrameHeader) -> (r: Result<ScanHeader>)
        ensures
            final(self).data() == old(self).data(),
            ({
                let (c, v) = read_sos(old(self).data(), old(self).cursor(), frame@);
                &&& final(self).at() == c.pos
                &&& match c.err {
                    Some(e) => r == Err::<ScanHeader, DecodeError>(e),
                    None => r matches Ok(s) && s@ == v && s@.wf(frame@),
                }
            }),
    {
        let ghost buf = self.data();
        let ghost target = read_sos(buf, self.cursor(), frame@);
        proof {
            law_scans_refer_to_the_frame(buf, self.cursor(), frame@);
        }
        let len = self.read_u16()?;
        if len < 6 {
            return Err(DecodeError::Malformed("SOS length too small"));
        }
        let ns = self.read_u8()?;
        if ns == 0 || ns > 4 {
            return Err(DecodeError::Malformed("SOS Ns out of range"));
        }
        if len as u32 != 6 + 2 * (ns as u32) {
            return Err(DecodeError::Malformed("SOS length / Ns mismatch"));
        }
        let mut components: Vec<ScanComponent> = Vec::new();
        let ghost all = read_scan_components(buf, self.cursor(), frame@, ns as nat, Seq::empty());
        for i in 0..ns
            invariant
                self.data() == buf,
                buf == old(self).data(),
                target == read_sos(old(self).data(), old(self).cursor(), frame@),
                all.0.err is Some ==> target.0 == all.0,
                all == read_scan_components(buf, self.cursor(), frame@, (ns - i) as nat, components@),
        {
            proof {
                reveal_with_fuel(read_scan_components, 2);
            }
            let cs = self.read_u8()?;
            let td_ta = self.read_u8()?;
            if !contains_component(&frame.components, cs) {
                return Err(DecodeError::Malformed("SOS component id not in frame"));
            }
            let dc_table = td_ta / 16;
            let ac_table = td_ta % 16;
            if dc_table > 3 || ac_table > 3 {
                return Err(DecodeError::Malformed("SOS table selector out of range"));
            }
            components.push(ScanComponent { component_id: cs, dc_table, ac_table });
        }
        let ss = self.read_u8()?;
        let se = self.read_u8()?;
        let ah_al = self.read_u8()?;
        let scan = ScanHeader { components, ss, se, ah: ah_al / 16, al: ah_al % 16 };
        assert(scan@.components =~= target.1.components);
        Ok(scan)
    }

    /// Skips a segment that is of no interest.
    fn skip_segment(&mut self, why: &'static str) -> (r: Result<()>)
        ensures
            final(self).data() == old(self).data(),
            ({
                let c = skip_segment(old(self).data(), old(self).cursor(), why);
                &&& final(self).at() == c.pos
                &&& r == match c.err {
                    Some(e) => Err(e),
                    None => Ok(()),
                }
            }),
    {
        let len = self.read_u16()?;
        if len < 2 {
            return Err(DecodeError::Malformed(why));
        }
        let _payload = self.read_slice(len as usize - 2)?;
        Ok(())
    }

    /// Reads the interval of a DRI segment.
    fn parse_dri(&mut self) -> (r: Result<u16>)
        ensures
            final(self).data() == old(self).data(),
            ({
                let (c, v) = read_dri(old(self).data(), old(self).cursor());
                &&& final(self).at() == c.pos
                &&& r == match c.err {
                    Some(e) => Err(e),
                    None => Ok(v),
                }
            }),
    {
        let len = self.read_u16()?;
        if len != 4 {
            return Err(DecodeError::Malformed("bad DRI length"));
        }
        self.read_u16()
    }

    fn parse_app1(&mut self, metadata: &mut DecoderMetadata) -> (r: Result<()>)
        ensures
            final(self).data() == old(self).data(),
            ({
                let (c, v) = read_app1(old(self).data(), old(self).cursor(), old(metadata)@);
                &&& final(self).at() == c.pos
                &&& final(metadata)@ == v
                &&& r == match c.err {
                    Some(e) => Err(e),
                    None => Ok(()),
                }
            }),
    {
        let len = self.read_u16()?;
        if len < 2 {
            return Err(DecodeError::Malformed("bad APP1 length"));
        }
        let start: usize = self.pos;
        let payload = self.read_slice(len as usize - 2)?;
        if metadata.exif.is_none() && begins_with(payload, &EXIF_ID) {
            metadata.exif = Some(start + 6..start + payload.len());
        }
        Ok(())
    }

    fn parse_app2(&mut self, metadata: &mut DecoderMetadata) -> (r: Result<()>)
        ensures
            final(self).data() == old(self).data(),
            ({
                let (c, v) = read_app2(old(self).data(), old(self).cursor(), old(metadata)@);
                &&& final(self).at() == c.pos
                &&& final(metadata)@ == v
                &&& r == match c.err {
                    Some(e) => Err(e),
                    None => Ok(()),
                }
            }),
    {
        let len = self.read_u16()?;
        if len < 2 {
            return Err(DecodeError::Malformed("bad APP2 length"));
        }
        let start: usize = self.pos;
        let payload = self.read_slice(len as usize - 2)?;
        if payload.len() < 14 || !begins_with(payload, &ICC_ID) {
            return Ok(());
        }
        let seq = payload[12];
        let total = payload[13];
        match metadata.icc_total {
            None => {
                metadata.icc_total = Some(total);
            },
            Some(prev) => {
                if prev != total {
                    metadata.icc_conflict = true;
                    return Ok(());
                }
            },
        }
        if !metadata.icc_chunks.contains_key(&seq) {
            metadata.icc_chunks.insert(seq, start + 14..start + payload.len());
        }
        Ok(())
    }
}

/// Identifier of an EXIF segment.
pub const EXIF_ID: [u8; 6] = [0x45, 0x78, 0x69, 0x66, 0, 0];

/// Identifier of an ICC profile segment.
pub const ICC_ID: [u8; 12] = [0x49, 0x43, 0x43, 0x5F, 0x50, 0x52, 0x4F, 0x46, 0x49, 0x4C, 0x45, 0];

/// Whether `payload` begins with `id`.
fn begins_with(payload: &[u8], id: &[u8]) -> (r: bool)
    ensures
        r == id@.is_prefix_of(payload@),
{
    let n: usize = id.len();
    if payload.len() < n {
        return false;
    }
    for i in 0..n
        invariant
            n == id@.len(),
            payload@.len() >= n,
            forall|k: int| 0 <= k < i ==> payload@[k] == id@[k],
    {
        if payload[i] != id[i] {
            assert(payload@.subrange(0, n as int)[i as int] != id@[i as int]);
            return false;
        }
    }
    assert(payload@.subrange(0, n as int) =~= id@);
    true
}

/// Copies the 16 counts of a DHT table and adds them up.
fn copy_counts(slice: &[u8]) -> (r: ([u8; 16], usize))
    requires
        slice@.len() == 16,
    ensures
        r.0@ == slice@,
        r.1 == (CodeBook { bits: slice@, values: Seq::empty() }).offset(17),
{
    let mut bits: [u8; 16] = [0u8; 16];
    let mut total: usize = 0;
    for i in 0..16usize
        invariant
            slice@.len() == 16,
            total <= 255 * i,
            total == (CodeBook { bits: slice@, values: Seq::empty() }).offset(i + 1),
            forall|k: int| 0 <= k < i ==> bits@[k] == slice@[k],
    {
        bits[i] = slice[i];
        total = total + slice[i] as usize;
    }
    assert(bits@ =~= slice@);
    (bits, total)
}

/// Whether some component has identifier `id`.
fn contains_component(components: &Vec<Component>, id: u8) -> (r: bool)
    ensures
        r == has_component(components@, id),
{
    let n: usize = components.len();
    for i in 0..n
        invariant
            n == components@.len(),
            forall|k: int| 0 <= k < i ==> (#[trigger] components@[k]).id != id,
    {
        if components[i].id == id {
            return true;
        }
    }
    false
}

/// Skips a segment that is of no interest; `why` is the error for a length
/// that does not count itself.
pub open spec fn skip_segment(buf: Seq<u8>, c: Cursor, why: &'static str) -> Cursor {
    let (c, len) = c.u16(buf);
    let c = c.check(len >= 2, DecodeError::Malformed(why));
    c.take(buf, len - 2).0
}

/// Reads a DRI segment.
pub open spec fn read_dri(buf: Seq<u8>, c: Cursor) -> (Cursor, u16) {
    let (c, len) = c.u16(buf);
    let c = c.check(len == 4, DecodeError::Malformed("bad DRI length"));
    c.u16(buf)
}

/// Reads an APP1 segment. The first one that is EXIF is kept.
pub open spec fn read_app1(buf: Seq<u8>, c: Cursor, m: Metadata) -> (Cursor, Metadata) {
    let (c, len) = c.u16(buf);
    let c = c.check(len >= 2, DecodeError::Malformed("bad APP1 length"));
    let start = c.pos;
    let (c, payload) = c.take(buf, len - 2);
    if c.err is None && m.exif is None && EXIF_ID@.is_prefix_of(payload) {
        (
            c,
            Metadata {
                exif: Some(Range { start: (start + 6) as usize, end: (start + payload.len()) as usize }),
                ..m
            },
        )
    } else {
        (c, m)
    }
}

/// Reads an APP2 segment. Chunks of an ICC profile are kept: of each
/// number the first, and only those that agree with the first chunk on how
/// many there are. One that disagrees is noted.
pub open spec fn read_app2(buf: Seq<u8>, c: Cursor, m: Metadata) -> (Cursor, Metadata) {
    let (c, len) = c.u16(buf);
    let c = c.check(len >= 2, DecodeError::Malformed("bad APP2 length"));
    let start = c.pos;
    let (c, payload) = c.take(buf, len - 2);
    if c.err is None && payload.len() >= 14 && ICC_ID@.is_prefix_of(payload) {
        let seq = payload[12];
        let total = payload[13];
        let chunk = Range { start: (start + 14) as usize, end: (start + payload.len()) as usize };
        if m.icc_total is Some && m.icc_total != Some(total) {
            (c, Metadata { icc_conflict: true, ..m })
        } else {
            (
                c,
                Metadata {
                    icc_total: Some(total),
                    icc_chunks: if m.icc_chunks.contains_key(seq) {
                        m.icc_chunks
                    } else {
                        m.icc_chunks.insert(seq, chunk)
                    },
                    ..m
                },
            )
        }
    } else {
        (c, m)
    }
}

/// Puts 64 bytes in zig-zag order into natural order.
fn unzigzag(zz: &[u8]) -> (values: [u16; 64])
    requires
        zz@.len() == 64,
    ensures
        values@ == from_zigzag(zz@.map_values(|v: u8| v as u16)),
{
    let mut values: [u16; 64] = [0u16; 64];
    for k in 0..64usize
        invariant
            zz@.len() == 64,
            forall|i: int|
                0 <= i < 64 && ZIGZAG_INVERSE[i] < k ==> #[trigger] values@[i] == zz@[ZIGZAG_INVERSE[i] as int],
    {
        proof {
            law_zigzag_is_permutation(k as int);
        }
        values[ZIGZAG[k]] = zz[k] as u16;
        assert forall|i: int| 0 <= i < 64 && ZIGZAG_INVERSE[i] < k + 1 implies #[trigger] values@[i]
            == zz@[ZIGZAG_INVERSE[i] as int] by {
            law_zigzag_is_permutation(i);
        }
    }
    assert forall|i: int| 0 <= i < 64 implies #[trigger] values@[i] == zz@[ZIGZAG_INVERSE[i] as int] by {
        law_zigzag_is_permutation(i);
    }
    assert(values@ =~= from_zigzag(zz@.map_values(|v: u8| v as u16)));
    values
}

/// Model of a frame header that may be missing.
pub open spec fn frame_model(frame: Option<FrameHeader>) -> Option<Frame> {
    match frame {
        Some(f) => Some(f@),
        None => None,
    }
}

/// What a marker walk has collected so far.
pub ghost struct Walk {
    pub c: Cursor,
    pub frame: Option<Frame>,
    pub quant: Seq<Quant>,
    pub huffman: Seq<Huff>,
    pub restart_interval: u16,
    pub metadata: Metadata,
}

/// Handles one segment before the first scan. The scan header comes back
/// once SOS is met.
pub open spec fn header_segment(buf: Seq<u8>, w: Walk, marker: u8) -> (Walk, Option<Scan>) {
    if marker == M_SOF0 || marker == M_SOF2 {
        let (c, frame) = read_sof(buf, w.c, marker == M_SOF2);
        if c.err is None {
            (Walk { c, frame: Some(frame), ..w }, None)
        } else {
            (Walk { c, ..w }, None)
        }
    } else if marker == M_DQT {
        let (c, quant) = read_dqt(buf, w.c, w.quant);
        (Walk { c, quant, ..w }, None)
    } else if marker == M_DHT {
        let (c, huffman) = read_dht(buf, w.c, w.huffman);
        (Walk { c, huffman, ..w }, None)
    } else if marker == M_DRI {
        let (c, restart_interval) = read_dri(buf, w.c);
        (Walk { c, restart_interval, ..w }, None)
    } else if marker == M_SOS {
        match w.frame {
            Some(frame) => {
                let (c, scan) = read_sos(buf, w.c, frame);
                if c.err is None {
                    (Walk { c, ..w }, Some(scan))
                } else {
                    (Walk { c, ..w }, None)
                }
            },
            None => (Walk { c: w.c.fail(DecodeError::Malformed("SOS before SOF")), ..w }, None),
        }
    } else if marker == M_EOI {
        (Walk { c: w.c.fail(DecodeError::Malformed("EOI before SOS")), ..w }, None)
    } else if marker == 0xE1 {
        let (c, metadata) = read_app1(buf, w.c, w.metadata);
        (Walk { c, metadata, ..w }, None)
    } else if marker == 0xE2 {
        let (c, metadata) = read_app2(buf, w.c, w.metadata);
        (Walk { c, metadata, ..w }, None)
    } else if marker == M_COM || 0xE0 <= marker <= 0xEF {
        (Walk { c: skip_segment(buf, w.c, "bad segment length"), ..w }, None)
    } else if is_other_sof(marker) {
        (Walk { c: w.c.fail(DecodeError::Unsupported("non-baseline/progressive SOFn")), ..w }, None)
    } else {
        (Walk { c: skip_segment(buf, w.c, "bad unknown segment length"), ..w }, None)
    }
}

/// Markers of frame types that are not decoded.
pub open spec fn is_other_sof(marker: u8) -> bool {
    marker == 0xC1 || 0xC3 <= marker <= 0xC7 || 0xC9 <= marker <= 0xCF
}

/// Handles segments up to and including the first SOS.
pub open spec fn walk_to_scan(buf: Seq<u8>, w: Walk) -> (Walk, Option<Scan>)
    decreases buf.len() - w.c.pos,
{
    if w.c.err is Some || w.c.pos < 0 {
        (w, None)
    } else {
        let (c, marker) = read_marker(buf, w.c);
        let w1 = Walk { c, ..w };
        if c.err is Some {
            (w1, None)
        } else {
            let (w2, scan) = header_segment(buf, w1, marker);
            if w2.c.err is Some || scan is Some {
                (w2, scan)
            } else {
                proof {
                    lemma_marker_advances(buf, w.c);
                    lemma_header_segment_advances(buf, w1, marker);
                }
                walk_to_scan(buf, w2)
            }
        }
    }
}

/// Reads the headers of a stream: SOI, then segments up to and including
/// the first SOS.
pub open spec fn read_headers(buf: Seq<u8>, c: Cursor) -> (Walk, Option<Scan>) {
    let (c, b0) = c.u8(buf);
    let c = c.check(b0 == 0xFF, DecodeError::Malformed("missing SOI marker"));
    let (c, b1) = c.u8(buf);
    let c = c.check(b1 == M_SOI, DecodeError::Malformed("missing SOI marker"));
    walk_to_scan(
        buf,
        Walk {
            c,
            frame: None,
            quant: Seq::empty(),
            huffman: Seq::empty(),
            restart_interval: 0,
            metadata: Metadata { exif: None, icc_chunks: Map::empty(), icc_total: None, icc_conflict: false },
        },
    )
}

/// The tables that segments between scans can replace, and where the walk
/// through those segments is.
pub ghost struct Tables {
    pub c: Cursor,
    pub quant: Seq<Quant>,
    pub huffman: Seq<Huff>,
    pub restart_interval: u16,
}

/// What a marker between two scans leads to.
pub ghost enum Between {
    /// Go on with the next marker.
    More,
    /// The image ends.
    End,
    /// Another scan begins.
    Next(Scan),
}

/// Handles one segment between two scans of `frame`.
pub open spec fn inner_segment(buf: Seq<u8>, w: Tables, frame: Frame, marker: u8) -> (Tables, Between) {
    if marker == M_SOS {
        let (c, scan) = read_sos(buf, w.c, frame);
        (Tables { c, ..w }, Between::Next(scan))
    } else if marker == M_EOI {
        (w, Between::End)
    } else if marker == M_DHT {
        let (c, huffman) = read_dht(buf, w.c, w.huffman);
        (Tables { c, huffman, ..w }, Between::More)
    } else if marker == M_DQT {
        let (c, quant) = read_dqt(buf, w.c, w.quant);
        (Tables { c, quant, ..w }, Between::More)
    } else if marker == M_DRI {
        let (c, interval) = read_dri(buf, w.c);
        (
            Tables {
                c,
                restart_interval: if c.err is None {
                    interval
                } else {
                    w.restart_interval
                },
                ..w
            },
            Between::More,
        )
    } else if marker == M_COM || 0xE0 <= marker <= 0xEF {
        (Tables { c: skip_segment(buf, w.c, "bad segment length"), ..w }, Between::More)
    } else if marker == M_SOF0 || marker == M_SOF2 || is_other_sof(marker) {
        (Tables { c: w.c.fail(DecodeError::Malformed("unexpected SOF between scans")), ..w }, Between::More)
    } else {
        (Tables { c: skip_segment(buf, w.c, "bad unknown segment length"), ..w }, Between::More)
    }
}

/// Handles segments up to the next SOS or EOI. `pending` is a marker that
/// is already consumed, if one is.
pub open spec fn walk_between(buf: Seq<u8>, w: Tables, frame: Frame, pending: Option<u8>) -> (Tables, Between)
    decreases buf.len() - w.c.pos,
{
    if w.c.err is Some || w.c.pos < 0 {
        (w, Between::More)
    } else {
        let (c, marker) = match pending {
            Some(m) => (w.c, m),
            None => read_marker(buf, w.c),
        };
        let w1 = Tables { c, ..w };
        if c.err is Some {
            (w1, Between::More)
        } else {
            let (w2, b) = inner_segment(buf, w1, frame, marker);
            if w2.c.err is Some || !(b is More) {
                (w2, b)
            } else {
                proof {
                    lemma_marker_advances(buf, w.c);
                    lemma_inner_segment_advances(buf, w1, frame, marker);
                }
                walk_between(buf, w2, frame, None)
            }
        }
    }
}

/// Positions that the skips lead to.
proof fn lemma_skip_bounds(buf: Seq<u8>, pos: int)
    requires
        0 <= pos,
    ensures
        pos <= skip_to_ff(buf, pos),
        pos <= skip_ff(buf, pos),
        pos <= buf.len() ==> skip_to_ff(buf, pos) <= buf.len() && skip_ff(buf, pos) <= buf.len(),
    decreases buf.len() - pos,
{
    if pos < buf.len() {
        lemma_skip_bounds(buf, pos + 1);
    }
}

/// Reading a marker advances the cursor.
pub proof fn lemma_marker_advances(buf: Seq<u8>, c: Cursor)
    requires
        0 <= c.pos,
        c.err is None,
    ensures
        read_marker(buf, c).0.pos >= c.pos,
        read_marker(buf, c).0.err is None ==> c.pos < read_marker(buf, c).0.pos <= buf.len(),
{
    lemma_skip_bounds(buf, c.pos);
    lemma_skip_bounds(buf, skip_to_ff(buf, c.pos));
}

/// Reading components advances the cursor.
proof fn lemma_frame_components_advance(buf: Seq<u8>, c: Cursor, n: nat, acc: Seq<Component>)
    requires
        0 <= c.pos,
    ensures
        read_frame_components(buf, c, n, acc).0.pos >= c.pos,
        ({
            let d = read_frame_components(buf, c, n, acc).0;
            d.err is None && c.pos <= buf.len() ==> d.pos <= buf.len() && c.err is None
        }),
        c.err is Some ==> read_frame_components(buf, c, n, acc).0 == c,
    decreases n,
{
    if c.err is None && n > 0 {
        let (c1, id) = c.u8(buf);
        let (c2, hv) = c1.u8(buf);
        let (c3, qt) = c2.u8(buf);
        let c4 = c3.check(
            sampling_ok(hv as int / 16) && sampling_ok(hv as int % 16),
            DecodeError::Unsupported("sampling factor not 1/2/4"),
        );
        let c5 = c4.check(qt <= 3, DecodeError::Malformed("quant table selector out of range"));
        lemma_frame_components_advance(
            buf,
            c5,
            (n - 1) as nat,
            acc.push(Component { id, h: (hv / 16) as u8, v: (hv % 16) as u8, qt }),
        );
    }
}

/// Reading quantization tables advances the cursor.
proof fn lemma_quant_tables_advance(buf: Seq<u8>, c: Cursor, remaining: int, acc: Seq<Quant>)
    requires
        0 <= c.pos,
    ensures
        read_quant_tables(buf, c, remaining, acc).0.pos >= c.pos,
        ({
            let d = read_quant_tables(buf, c, remaining, acc).0;
            d.err is None && c.pos <= buf.len() ==> d.pos <= buf.len() && c.err is None
        }),
    decreases remaining,
{
    if c.err is None && remaining > 0 {
        let (c1, pq_tq) = c.u8(buf);
        let c2 = c1.check(pq_tq % 16 <= 3, DecodeError::Malformed("DQT id out of range"));
        let c3 = c2.check(pq_tq / 16 == 0, DecodeError::Unsupported("16-bit DQT precision"));
        let c4 = c3.check(remaining - 1 >= 64, DecodeError::Malformed("DQT short payload"));
        let (c5, zz) = c4.take(buf, 64);
        if c5.err is None {
            lemma_quant_tables_advance(
                buf,
                c5,
                remaining - 65,
                acc.push(
                    Quant {
                        id: (pq_tq % 16) as u8,
                        values: from_zigzag(zz.map_values(|v: u8| v as u16)),
                    },
                ),
            );
        }
    }
}

/// Reading Huffman tables advances the cursor.
proof fn lemma_huffman_tables_advance(buf: Seq<u8>, c: Cursor, remaining: int, acc: Seq<Huff>)
    requires
        0 <= c.pos,
    ensures
        read_huffman_tables(buf, c, remaining, acc).0.pos >= c.pos,
        ({
            let d = read_huffman_tables(buf, c, remaining, acc).0;
            d.err is None && c.pos <= buf.len() ==> d.pos <= buf.len() && c.err is None
        }),
    decreases remaining,
{
    if c.err is None && remaining > 0 {
        let (c1, tc_th) = c.u8(buf);
        let c2 = c1.check(tc_th / 16 <= 1, DecodeError::Malformed("DHT class out of range"));
        let c3 = c2.check(tc_th % 16 <= 3, DecodeError::Malformed("DHT id out of range"));
        let c4 = c3.check(remaining - 1 >= 16, DecodeError::Malformed("DHT bits truncated"));
        let (c5, bits) = c4.take(buf, 16);
        let total = CodeBook { bits, values: Seq::empty() }.offset(17);
        if c5.err is None {
            CodeBook { bits, values: Seq::empty() }.lemma_code_bound(17);
        }
        let c6 = c5.check(total <= 256, DecodeError::Malformed("DHT symbol count > 256"));
        let c7 = c6.check(remaining - 17 >= total, DecodeError::Malformed("DHT values truncated"));
        let (c8, values) = c7.take(buf, total);
        if c8.err is None {
            lemma_huffman_tables_advance(
                buf,
                c8,
                remaining - 17 - total,
                acc.push(
                    Huff {
                        class: (tc_th / 16) as u8,
                        id: (tc_th % 16) as u8,
                        book: CodeBook { bits, values },
                    },
                ),
            );
        }
    }
}

/// Reading scan components advances the cursor.
proof fn lemma_scan_components_advance(
    buf: Seq<u8>,
    c: Cursor,
    frame: Frame,
    n: nat,
    acc: Seq<ScanComponent>,
)
    requires
        0 <= c.pos,
    ensures
        read_scan_components(buf, c, frame, n, acc).0.pos >= c.pos,
        ({
            let d = read_scan_components(buf, c, frame, n, acc).0;
            d.err is None && c.pos <= buf.len() ==> d.pos <= buf.len() && c.err is None
        }),
        c.err is Some ==> read_scan_components(buf, c, frame, n, acc).0 == c,
    decreases n,
{
    if c.err is None && n > 0 {
        let (c1, cs) = c.u8(buf);
        let (c2, td_ta) = c1.u8(buf);
        let c3 = c2.check(
            has_component(frame.components, cs),
            DecodeError::Malformed("SOS component id not in frame"),
        );
        let c4 = c3.check(
            td_ta / 16 <= 3 && td_ta % 16 <= 3,
            DecodeError::Malformed("SOS table selector out of range"),
        );
        lemma_scan_components_advance(
            buf,
            c4,
            frame,
            (n - 1) as nat,
            acc.push(
                ScanComponent {
                    component_id: cs,
                    dc_table: (td_ta / 16) as u8,
                    ac_table: (td_ta % 16) as u8,
                },
            ),
        );
    }
}

/// Reading a SOS segment advances the cursor.
pub proof fn lemma_sos_advances(buf: Seq<u8>, c: Cursor, frame: Frame)
    requires
        0 <= c.pos,
        c.err is None,
    ensures
        read_sos(buf, c, frame).0.pos >= c.pos,
        read_sos(buf, c, frame).0.err is None ==> c.pos < read_sos(buf, c, frame).0.pos <= buf.len(),
{
    let (c1, len) = c.u16(buf);
    let c2 = c1.check(len >= 6, DecodeError::Malformed("SOS length too small"));
    let (c3, ns) = c2.u8(buf);
    let c4 = c3.check(1 <= ns <= 4, DecodeError::Malformed("SOS Ns out of range"));
    let c5 = c4.check(len == 6 + 2 * ns, DecodeError::Malformed("SOS length / Ns mismatch"));
    lemma_scan_components_advance(buf, c5, frame, ns as nat, Seq::empty());
}

/// A segment before the first scan that goes on advances the cursor.
pub proof fn lemma_header_segment_advances(buf: Seq<u8>, w: Walk, marker: u8)
    requires
        0 <= w.c.pos <= buf.len(),
        w.c.err is None,
    ensures
        header_segment(buf, w, marker).0.c.pos >= w.c.pos,
        header_segment(buf, w, marker).0.c.err is None ==> w.c.pos < header_segment(buf, w, marker).0.c.pos
            <= buf.len(),
{
    if marker == M_SOF0 || marker == M_SOF2 {
        let (c1, len) = w.c.u16(buf);
        let c2 = c1.check(len >= 8, DecodeError::Malformed("SOF length too small"));
        let (c3, precision) = c2.u8(buf);
        let c4 = c3.check(precision == 8, DecodeError::Unsupported("non-8-bit precision"));
        let (c5, height) = c4.u16(buf);
        let (c6, width) = c5.u16(buf);
        let c7 = c6.check(
            width != 0 && height != 0,
            DecodeError::InvalidDimensions("zero dimension"),
        );
        let c8 = c7.check(
            width <= MAX_DIMENSION && height <= MAX_DIMENSION,
            DecodeError::InvalidDimensions(
                "image dimension exceeds 16384 (raise the cap explicitly to opt in)",
            ),
        );
        let (c9, nf) = c8.u8(buf);
        let c10 = c9.check(len == 8 + 3 * nf, DecodeError::Malformed("SOF length / Nf mismatch"));
        let c11 = c10.check(1 <= nf <= 4, DecodeError::InvalidDimensions("unsupported component count"));
        lemma_frame_components_advance(buf, c11, nf as nat, Seq::empty());
    } else if marker == M_DQT {
        lemma_dqt_advances(buf, w.c, w.quant);
    } else if marker == M_DHT {
        lemma_dht_advances(buf, w.c, w.huffman);
    } else if marker == M_SOS {
        match w.frame {
            Some(frame) => {
                lemma_sos_advances(buf, w.c, frame);
            },
            None => {},
        }
    }
}

/// Reading a DQT segment advances the cursor.
proof fn lemma_dqt_advances(buf: Seq<u8>, c: Cursor, acc: Seq<Quant>)
    requires
        0 <= c.pos,
        c.err is None,
    ensures
        read_dqt(buf, c, acc).0.pos >= c.pos,
        read_dqt(buf, c, acc).0.err is None ==> c.pos < read_dqt(buf, c, acc).0.pos <= buf.len(),
{
    let (c1, len) = c.u16(buf);
    let c2 = c1.check(len >= 2, DecodeError::Malformed("DQT length too small"));
    lemma_quant_tables_advance(buf, c2, len - 2, acc);
}

/// Reading a DHT segment advances the cursor.
proof fn lemma_dht_advances(buf: Seq<u8>, c: Cursor, acc: Seq<Huff>)
    requires
        0 <= c.pos,
        c.err is None,
    ensures
        read_dht(buf, c, acc).0.pos >= c.pos,
        read_dht(buf, c, acc).0.err is None ==> c.pos < read_dht(buf, c, acc).0.pos <= buf.len(),
{
    let (c1, len) = c.u16(buf);
    let c2 = c1.check(len >= 2, DecodeError::Malformed("DHT length too small"));
    lemma_huffman_tables_advance(buf, c2, len - 2, acc);
}

/// A segment between two scans that goes on advances the cursor.
pub proof fn lemma_inner_segment_advances(buf: Seq<u8>, w: Tables, frame: Frame, marker: u8)
    requires
        0 <= w.c.pos,
        w.c.err is None,
    ensures
        inner_segment(buf, w, frame, marker).0.c.pos >= w.c.pos,
        inner_segment(buf, w, frame, marker).0.c.err is None && !(inner_segment(buf, w, frame, marker).1 is End)
            ==> w.c.pos < inner_segment(buf, w, frame, marker).0.c.pos <= buf.len(),
{
    if marker == M_SOS {
        lemma_sos_advances(buf, w.c, frame);
    } else if marker == M_DHT {
        lemma_dht_advances(buf, w.c, w.huffman);
    } else if marker == M_DQT {
        lemma_dqt_advances(buf, w.c, w.quant);
    }
}

/// The walk between two scans ends past where it began if it finds another
/// scan.
pub proof fn lemma_walk_between_advances(buf: Seq<u8>, w: Tables, frame: Frame, pending: Option<u8>)
    requires
        0 <= w.c.pos,
        w.c.err is None,
    ensures
        ({
            let (w2, b) = walk_between(buf, w, frame, pending);
            w2.c.err is None && b is Next ==> w.c.pos < w2.c.pos <= buf.len()
        }),
    decreases buf.len() - w.c.pos,
{
    let (c, marker) = match pending {
        Some(m) => (w.c, m),
        None => read_marker(buf, w.c),
    };
    let w1 = Tables { c, ..w };
    lemma_marker_advances(buf, w.c);
    if c.err is None {
        let (w2, b) = inner_segment(buf, w1, frame, marker);
        lemma_inner_segment_advances(buf, w1, frame, marker);
        if w2.c.err is None && b is More {
            lemma_walk_between_advances(buf, w2, frame, None);
        }
    }
}

impl Component {
    /// The sampling factors and the table selector are in range.
    pub open spec fn wf(self) -> bool {
        &&& sampling_ok(self.h as int)
        &&& sampling_ok(self.v as int)
        &&& self.qt <= 3
    }
}

impl Frame {
    /// A frame that is decoded: 8-bit samples, neither dimension zero nor
    /// beyond the limit, one to four components. A single component is not
    /// subsampled.
    pub open spec fn wf(self) -> bool {
        &&& self.precision == 8
        &&& 1 <= self.width <= MAX_DIMENSION
        &&& 1 <= self.height <= MAX_DIMENSION
        &&& 1 <= self.components.len() <= 4
        &&& forall|i: int| 0 <= i < self.components.len() ==> (#[trigger] self.components[i]).wf()
        &&& self.components.len() == 1 ==> self.components[0].h == 1 && self.components[0].v == 1
    }
}

impl ScanComponent {
    /// The entry refers to a component of the frame, and its table selectors
    /// are in range.
    pub open spec fn wf(self, frame: Frame) -> bool {
        &&& has_component(frame.components, self.component_id)
        &&& self.dc_table <= 3
        &&& self.ac_table <= 3
    }
}

impl Scan {
    /// One to four components, all of them of the frame and with table
    /// selectors in range.
    pub open spec fn wf(self, frame: Frame) -> bool {
        &&& 1 <= self.components.len() <= 4
        &&& forall|i: int|
            0 <= i < self.components.len() ==> (#[trigger] self.components[i]).wf(frame)
        &&& self.ah <= 15
        &&& self.al <= 15
    }
}

impl Quant {
    /// A table of 64 entries for one of the four slots.
    pub open spec fn wf(self) -> bool {
        &&& self.id <= 3
        &&& self.values.len() == 64
    }
}

impl Huff {
    /// A table for one of the four slots of its class, with as many symbols as
    /// codes.
    pub open spec fn wf(self) -> bool {
        &&& self.class <= 1
        &&& self.id <= 3
        &&& self.book.bits.len() == 16
        &&& self.book.values.len() == self.book.offset(17)
    }
}

/// All quantization tables are in order.
pub open spec fn quants_wf(quant: Seq<Quant>) -> bool {
    forall|i: int| 0 <= i < quant.len() ==> (#[trigger] quant[i]).wf()
}

/// All Huffman tables are in order.
pub open spec fn huffs_wf(huffman: Seq<Huff>) -> bool {
    forall|i: int| 0 <= i < huffman.len() ==> (#[trigger] huffman[i]).wf()
}

/// Ranges lie within the data.
pub open spec fn ranges_within(m: Metadata, len: int) -> bool {
    &&& m.exif matches Some(r) ==> 0 <= r.start <= r.end <= len
    &&& forall|k: u8|
        #[trigger] m.icc_chunks.contains_key(k) ==> 0 <= m.icc_chunks[k].start <= m.icc_chunks[k].end <= len
}

impl Headers {
    /// Everything collected is in order.
    pub open spec fn wf(self) -> bool {
        &&& self.frame.wf()
        &&& quants_wf(self.quant)
        &&& huffs_wf(self.huffman)
    }
}

impl Walk {
    /// Everything collected so far is in order.
    pub open spec fn wf(self, len: int) -> bool {
        &&& self.frame matches Some(f) ==> f.wf()
        &&& quants_wf(self.quant)
        &&& huffs_wf(self.huffman)
        &&& ranges_within(self.metadata, len)
    }
}

/// The components that are read are in order.
proof fn lemma_frame_components_wf(buf: Seq<u8>, c: Cursor, n: nat, acc: Seq<Component>)
    requires
        forall|i: int| 0 <= i < acc.len() ==> (#[trigger] acc[i]).wf(),
    ensures
        ({
            let (d, r) = read_frame_components(buf, c, n, acc);
            d.err is None ==> r.len() == acc.len() + n && forall|i: int|
                0 <= i < r.len() ==> (#[trigger] r[i]).wf()
        }),
    decreases n,
{
    reveal_with_fuel(read_frame_components, 2);
    if c.err is None && n > 0 {
        let (c1, id) = c.u8(buf);
        let (c2, hv) = c1.u8(buf);
        let (c3, qt) = c2.u8(buf);
        let c4 = c3.check(
            sampling_ok(hv as int / 16) && sampling_ok(hv as int % 16),
            DecodeError::Unsupported("sampling factor not 1/2/4"),
        );
        let c5 = c4.check(qt <= 3, DecodeError::Malformed("quant table selector out of range"));
        let next = acc.push(Component { id, h: (hv / 16) as u8, v: (hv % 16) as u8, qt });
        if c5.err is None {
            assert forall|i: int| 0 <= i < next.len() implies (#[trigger] next[i]).wf() by {
                if i < acc.len() {
                    assert(acc[i].wf());
                }
            }
            lemma_frame_components_wf(buf, c5, (n - 1) as nat, next);
        }
    }
}

/// Every frame that SOF yields is within the limits: dimensions from 1 to
/// 16384, one to four components, sampling factors 1, 2 or 4.
pub proof fn law_accepted_frames_are_bounded(buf: Seq<u8>, c: Cursor, progressive: bool)
    ensures
        read_sof(buf, c, progressive).0.err is None ==> read_sof(buf, c, progressive).1.wf(),
{
    let (c1, len) = c.u16(buf);
    let c2 = c1.check(len >= 8, DecodeError::Malformed("SOF length too small"));
    let (c3, precision) = c2.u8(buf);
    let c4 = c3.check(precision == 8, DecodeError::Unsupported("non-8-bit precision"));
    let (c5, height) = c4.u16(buf);
    let (c6, width) = c5.u16(buf);
    let c7 = c6.check(width != 0 && height != 0, DecodeError::InvalidDimensions("zero dimension"));
    let c8 = c7.check(
        width <= MAX_DIMENSION && height <= MAX_DIMENSION,
        DecodeError::InvalidDimensions(
            "image dimension exceeds 16384 (raise the cap explicitly to opt in)",
        ),
    );
    let (c9, nf) = c8.u8(buf);
    let c10 = c9.check(len == 8 + 3 * nf, DecodeError::Malformed("SOF length / Nf mismatch"));
    let c11 = c10.check(1 <= nf <= 4, DecodeError::InvalidDimensions("unsupported component count"));
    lemma_frame_components_wf(buf, c11, nf as nat, Seq::empty());
    if c11.err is None {
        let (d, comps) = read_frame_components(buf, c11, nf as nat, Seq::empty());
        if d.err is None {
            assert forall|i: int| 0 <= i < comps.len() implies (#[trigger] normalized(comps)[i]).wf() by {
                assert(comps[i].wf());
            }
        }
    }
}

/// The scan components that are read are in order.
proof fn lemma_scan_components_wf(
    buf: Seq<u8>,
    c: Cursor,
    frame: Frame,
    n: nat,
    acc: Seq<ScanComponent>,
)
    requires
        forall|i: int| 0 <= i < acc.len() ==> (#[trigger] acc[i]).wf(frame),
    ensures
        ({
            let (d, r) = read_scan_components(buf, c, frame, n, acc);
            d.err is None ==> r.len() == acc.len() + n && forall|i: int|
                0 <= i < r.len() ==> (#[trigger] r[i]).wf(frame)
        }),
    decreases n,
{
    reveal_with_fuel(read_scan_components, 2);
    if c.err is None && n > 0 {
        let (c1, cs) = c.u8(buf);
        let (c2, td_ta) = c1.u8(buf);
        let c3 = c2.check(
            has_component(frame.components, cs),
            DecodeError::Malformed("SOS component id not in frame"),
        );
        let c4 = c3.check(
            td_ta / 16 <= 3 && td_ta % 16 <= 3,
            DecodeError::Malformed("SOS table selector out of range"),
        );
        if c4.err is None {
            lemma_scan_components_wf(
                buf,
                c4,
                frame,
                (n - 1) as nat,
                acc.push(
                    ScanComponent {
                        component_id: cs,
                        dc_table: (td_ta / 16) as u8,
                        ac_table: (td_ta % 16) as u8,
                    },
                ),
            );
        }
    }
}

/// Every scan that SOS yields has one to four entries, all of which refer to
/// components of the frame and to table slots 0 to 3.
pub proof fn law_scans_refer_to_the_frame(buf: Seq<u8>, c: Cursor, frame: Frame)
    ensures
        read_sos(buf, c, frame).0.err is None ==> read_sos(buf, c, frame).1.wf(frame),
{
    let (c1, len) = c.u16(buf);
    let c2 = c1.check(len >= 6, DecodeError::Malformed("SOS length too small"));
    let (c3, ns) = c2.u8(buf);
    let c4 = c3.check(1 <= ns <= 4, DecodeError::Malformed("SOS Ns out of range"));
    let c5 = c4.check(len == 6 + 2 * ns, DecodeError::Malformed("SOS length / Ns mismatch"));
    lemma_scan_components_wf(buf, c5, frame, ns as nat, Seq::empty());
}

/// The quantization tables that are read are in order.
proof fn lemma_quant_tables_wf(buf: Seq<u8>, c: Cursor, remaining: int, acc: Seq<Quant>)
    requires
        quants_wf(acc),
    ensures
        quants_wf(read_quant_tables(buf, c, remaining, acc).1),
    decreases remaining,
{
    if c.err is None && remaining > 0 {
        let (c1, pq_tq) = c.u8(buf);
        let c2 = c1.check(pq_tq % 16 <= 3, DecodeError::Malformed("DQT id out of range"));
        let c3 = c2.check(pq_tq / 16 == 0, DecodeError::Unsupported("16-bit DQT precision"));
        let c4 = c3.check(remaining - 1 >= 64, DecodeError::Malformed("DQT short payload"));
        let (c5, zz) = c4.take(buf, 64);
        if c5.err is None {
            lemma_quant_tables_wf(
                buf,
                c5,
                remaining - 65,
                acc.push(
                    Quant {
                        id: (pq_tq % 16) as u8,
                        values: from_zigzag(zz.map_values(|v: u8| v as u16)),
                    },
                ),
            );
        }
    }
}

/// The Huffman tables that are read are in order.
proof fn lemma_huffman_tables_wf(buf: Seq<u8>, c: Cursor, remaining: int, acc: Seq<Huff>)
    requires
        huffs_wf(acc),
    ensures
        huffs_wf(read_huffman_tables(buf, c, remaining, acc).1),
    decreases remaining,
{
    if c.err is None && remaining > 0 {
        let (c1, tc_th) = c.u8(buf);
        let c2 = c1.check(tc_th / 16 <= 1, DecodeError::Malformed("DHT class out of range"));
        let c3 = c2.check(tc_th % 16 <= 3, DecodeError::Malformed("DHT id out of range"));
        let c4 = c3.check(remaining - 1 >= 16, DecodeError::Malformed("DHT bits truncated"));
        let (c5, bits) = c4.take(buf, 16);
        let total = CodeBook { bits, values: Seq::empty() }.offset(17);
        let c6 = c5.check(total <= 256, DecodeError::Malformed("DHT symbol count > 256"));
        let c7 = c6.check(remaining - 17 >= total, DecodeError::Malformed("DHT values truncated"));
        let (c8, values) = c7.take(buf, total);
        if c8.err is None && total >= 0 {
            CodeBook { bits, values }.lemma_offset_of_bits(Seq::empty(), 17);
            lemma_huffman_tables_wf(
                buf,
                c8,
                remaining - 17 - total,
                acc.push(
                    Huff {
                        class: (tc_th / 16) as u8,
                        id: (tc_th % 16) as u8,
                        book: CodeBook { bits, values },
                    },
                ),
            );
        }
    }
}

/// A segment keeps what is collected in order.
proof fn lemma_header_segment_wf(buf: Seq<u8>, w: Walk, marker: u8)
    requires
        w.wf(buf.len() as int),
        0 <= w.c.pos,
        buf.len() <= usize::MAX,
    ensures
        header_segment(buf, w, marker).0.wf(buf.len() as int),
        header_segment(buf, w, marker).1 matches Some(scan) ==> header_segment(buf, w, marker).0.frame is Some
            && scan.wf(header_segment(buf, w, marker).0.frame->0),
{
    let (c1, len) = w.c.u16(buf);
    if marker == M_SOF0 || marker == M_SOF2 {
        law_accepted_frames_are_bounded(buf, w.c, marker == M_SOF2);
    } else if marker == M_DQT {
        let c2 = c1.check(len >= 2, DecodeError::Malformed("DQT length too small"));
        lemma_quant_tables_wf(buf, c2, len - 2, w.quant);
    } else if marker == M_DHT {
        let c2 = c1.check(len >= 2, DecodeError::Malformed("DHT length too small"));
        lemma_huffman_tables_wf(buf, c2, len - 2, w.huffman);
    } else if marker == M_SOS {
        match w.frame {
            Some(frame) => {
                law_scans_refer_to_the_frame(buf, w.c, frame);
            },
            None => {},
        }
    }
}

/// The walk keeps what is collected in order.
proof fn lemma_walk_to_scan_wf(buf: Seq<u8>, w: Walk)
    requires
        w.wf(buf.len() as int),
        buf.len() <= usize::MAX,
    ensures
        walk_to_scan(buf, w).0.wf(buf.len() as int),
        walk_to_scan(buf, w).1 matches Some(scan) ==> walk_to_scan(buf, w).0.frame is Some && scan.wf(
            walk_to_scan(buf, w).0.frame->0,
        ),
    decreases buf.len() - w.c.pos,
{
    if w.c.err is None && w.c.pos >= 0 {
        let (c, marker) = read_marker(buf, w.c);
        let w1 = Walk { c, ..w };
        lemma_marker_advances(buf, w.c);
        if c.err is None {
            let (w2, scan) = header_segment(buf, w1, marker);
            lemma_header_segment_wf(buf, w1, marker);
            lemma_header_segment_advances(buf, w1, marker);
            if w2.c.err is None && scan is None {
                lemma_walk_to_scan_wf(buf, w2);
            }
        }
    }
}

/// Headers that reading a stream yields are in order: the frame within its
/// limits, the tables in their slots, the scan over components of the
/// frame, and the metadata ranges within the data.
pub proof fn law_headers_are_in_order(buf: Seq<u8>, c: Cursor)
    requires
        buf.len() <= usize::MAX,
    ensures
        read_headers(buf, c).0.wf(buf.len() as int),
        read_headers(buf, c).1 matches Some(scan) ==> read_headers(buf, c).0.frame is Some && scan.wf(
            read_headers(buf, c).0.frame->0,
        ),
{
    let (c1, b0) = c.u8(buf);
    let c2 = c1.check(b0 == 0xFF, DecodeError::Malformed("missing SOI marker"));
    let (c3, b1) = c2.u8(buf);
    let c4 = c3.check(b1 == M_SOI, DecodeError::Malformed("missing SOI marker"));
    lemma_walk_to_scan_wf(
        buf,
        Walk {
            c: c4,
            frame: None,
            quant: Seq::empty(),
            huffman: Seq::empty(),
            restart_interval: 0,
            metadata: Metadata { exif: None, icc_chunks: Map::empty(), icc_total: None, icc_conflict: false },
        },
    );
}

/// The walk between two scans keeps the tables in order and yields a scan
/// of the frame.
pub proof fn law_walk_between_keeps_order(buf: Seq<u8>, w: Tables, frame: Frame, pending: Option<u8>)
    requires
        quants_wf(w.quant),
        huffs_wf(w.huffman),
    ensures
        ({
            let (w2, b) = walk_between(buf, w, frame, pending);
            &&& quants_wf(w2.quant)
            &&& huffs_wf(w2.huffman)
            &&& (w2.c.err is None ==> (b matches Between::Next(scan) ==> scan.wf(frame)))
        }),
    decreases buf.len() - w.c.pos,
{
    if w.c.err is None && w.c.pos >= 0 {
        let (c, marker) = match pending {
            Some(m) => (w.c, m),
            None => read_marker(buf, w.c),
        };
        let w1 = Tables { c, ..w };
        lemma_marker_advances(buf, w.c);
        if c.err is None {
            let (w2, b) = inner_segment(buf, w1, frame, marker);
            let (c1, len) = c.u16(buf);
            if marker == M_SOS {
                law_scans_refer_to_the_frame(buf, c, frame);
            } else if marker == M_DQT {
                let c2 = c1.check(len >= 2, DecodeError::Malformed("DQT length too small"));
                lemma_quant_tables_wf(buf, c2, len - 2, w.quant);
            } else if marker == M_DHT {
                let c2 = c1.check(len >= 2, DecodeError::Malformed("DHT length too small"));
                lemma_huffman_tables_wf(buf, c2, len - 2, w.huffman);
            }
            lemma_inner_segment_advances(buf, w1, frame, marker);
            if w2.c.err is None && b is More {
                law_walk_between_keeps_order(buf, w2, frame, None);
            }
        }
    }
}

impl<'a> MarkerReader<'a> {
    /// Reads the headers up to and including the first SOS. On success the
    /// reader is at the first byte of entropy-coded data.
    pub fn read_to_scan(&mut self) -> (r: Result<(DecoderHeaders, ScanHeader)>)
        ensures
            final(self).data() == old(self).data(),
            ({
                let (w, scan) = read_headers(old(self).data(), old(self).cursor());
                &&& final(self).at() == w.c.pos
                &&& match scan {
                    Some(s) => r matches Ok((h, sh)) && sh@ == s && w.frame is Some && w.c.err is None && h@ == (
                    Headers {
                        frame: w.frame->0,
                        quant: w.quant,
                        huffman: w.huffman,
                        restart_interval: w.restart_interval,
                        metadata: w.metadata,
                    }),
                    None => w.c.err is Some && r == Err::<(DecoderHeaders, ScanHeader), DecodeError>(w.c.err->0),
                }
            }),
    {
        let ghost buf = self.data();
        let ghost target = read_headers(buf, self.cursor());
        let b0 = self.read_u8()?;
        if b0 != 0xFF {
            return Err(DecodeError::Malformed("missing SOI marker"));
        }
        let b1 = self.read_u8()?;
        if b1 != M_SOI {
            return Err(DecodeError::Malformed("missing SOI marker"));
        }
        let mut frame: Option<FrameHeader> = None;
        let mut quant: Vec<QuantTable> = Vec::new();
        let mut huffman: Vec<HuffmanTableSpec> = Vec::new();
        let mut restart_interval: u16 = 0;
        let mut metadata = DecoderMetadata::default();
        assert(quants(quant@) =~= Seq::empty());
        assert(huffs(huffman@) =~= Seq::empty());
        loop
            invariant
                self.data() == buf,
                buf == old(self).data(),
                target == read_headers(old(self).data(), old(self).cursor()),
                target == walk_to_scan(
                    buf,
                    Walk {
                        c: self.cursor(),
                        frame: frame_model(frame),
                        quant: quants(quant@),
                        huffman: huffs(huffman@),
                        restart_interval,
                        metadata: metadata@,
                    },
                ),
                self.at() >= 0,
            decreases buf.len() - self.at(),
        {
            let ghost w0 = Walk {
                c: self.cursor(),
                frame: frame_model(frame),
                quant: quants(quant@),
                huffman: huffs(huffman@),
                restart_interval,
                metadata: metadata@,
            };
            proof {
                lemma_marker_advances(buf, w0.c);
            }
            let marker = self.read_marker()?;
            let ghost w1 = Walk { c: self.cursor(), ..w0 };
            proof {
                lemma_header_segment_advances(buf, w1, marker);
            }
            if marker == M_SOF0 || marker == M_SOF2 {
                frame = Some(self.parse_sof(marker == M_SOF2)?);
            } else if marker == M_DQT {
                self.parse_dqt(&mut quant)?;
            } else if marker == M_DHT {
                self.parse_dht(&mut huffman)?;
            } else if marker == M_DRI {
                restart_interval = self.parse_dri()?;
            } else if marker == M_SOS {
                match frame {
                    Some(frame) => {
                        let scan = self.parse_sos(&frame)?;
                        return Ok((DecoderHeaders { frame, quant, huffman, restart_interval, metadata }, scan));
                    },
                    None => {
                        return Err(DecodeError::Malformed("SOS before SOF"));
                    },
                }
            } else if marker == M_EOI {
                return Err(DecodeError::Malformed("EOI before SOS"));
            } else if marker == 0xE1 {
                self.parse_app1(&mut metadata)?;
            } else if marker == 0xE2 {
                self.parse_app2(&mut metadata)?;
            } else if marker == M_COM || (0xE0 <= marker && marker <= 0xEF) {
                self.skip_segment("bad segment length")?;
            } else if marker == 0xC1 || (0xC3 <= marker && marker <= 0xC7) || (0xC9 <= marker && marker
                <= 0xCF) {
                return Err(DecodeError::Unsupported("non-baseline/progressive SOFn"));
            } else {
                self.skip_segment("bad unknown segment length")?;
            }
        }
    }

    /// Walks the segments between two scans. Returns the header of the
    /// next scan, or `None` at the end of the image, and brings the tables
    /// and the restart interval up to date. `pending_marker` is a marker
    /// that the entropy decoder has consumed already.
    pub fn next_scan_or_end(
        &mut self,
        frame: &FrameHeader,
        huffman: &mut Vec<HuffmanTableSpec>,
        quant: &mut Vec<QuantTable>,
        restart_interval: &mut u16,
        pending_marker: Option<u8>,
    ) -> (r: Result<Option<ScanHeader>>)
        ensures
            final(self).data() == old(self).data(),
            ({
                let (w, b) = walk_between(
                    old(self).data(),
                    Tables {
                        c: old(self).cursor(),
                        quant: quants(old(quant)@),
                        huffman: huffs(old(huffman)@),
                        restart_interval: *old(restart_interval),
                    },
                    frame@,
                    pending_marker,
                );
                &&& final(self).at() == w.c.pos
                &&& quants(final(quant)@) == w.quant
                &&& huffs(final(huffman)@) == w.huffman
                &&& *final(restart_interval) == w.restart_interval
                &&& match w.c.err {
                    Some(e) => r == Err::<Option<ScanHeader>, DecodeError>(e),
                    None => match b {
                        Between::Next(s) => r matches Ok(Some(sh)) && sh@ == s,
                        Between::End => r == Ok::<Option<ScanHeader>, DecodeError>(None),
                        Between::More => false,
                    },
                }
            }),
    {
        let ghost buf = self.data();
        let ghost start = Tables {
            c: self.cursor(),
            quant: quants(quant@),
            huffman: huffs(huffman@),
            restart_interval: *restart_interval,
        };
        let ghost target = walk_between(buf, start, frame@, pending_marker);
        let mut next: Option<u8> = pending_marker;
        loop
            invariant
                self.data() == buf,
                buf == old(self).data(),
                start == (Tables {
                    c: old(self).cursor(),
                    quant: quants(old(quant)@),
                    huffman: huffs(old(huffman)@),
                    restart_interval: *old(restart_interval),
                }),
                target == walk_between(buf, start, frame@, pending_marker),
                target == walk_between(
                    buf,
                    Tables {
                        c: self.cursor(),
                        quant: quants(quant@),
                        huffman: huffs(huffman@),
                        restart_interval: *restart_interval,
                    },
                    frame@,
                    next,
                ),
                self.at() >= 0,
            decreases buf.len() - self.at(),
        {
            let ghost w0 = Tables {
                c: self.cursor(),
                quant: quants(quant@),
                huffman: huffs(huffman@),
                restart_interval: *restart_interval,
            };
            proof {
                lemma_marker_advances(buf, w0.c);
            }
            let marker = match next {
                Some(m) => m,
                None => self.read_marker()?,
            };
            next = None;
            let ghost w1 = Tables { c: self.cursor(), ..w0 };
            proof {
                lemma_inner_segment_advances(buf, w1, frame@, marker);
            }
            if marker == M_SOS {
                let scan = self.parse_sos(frame)?;
                return Ok(Some(scan));
            } else if marker == M_EOI {
                return Ok(None);
            } else if marker == M_DHT {
                self.parse_dht(huffman)?;
            } else if marker == M_DQT {
                self.parse_dqt(quant)?;
            } else if marker == M_DRI {
                *restart_interval = self.parse_dri()?;
            } else if marker == M_COM || (0xE0 <= marker && marker <= 0xEF) {
                self.skip_segment("bad segment length")?;
            } else if marker == M_SOF0 || marker == M_SOF2 || marker == 0xC1 || (0xC3 <= marker && marker
                <= 0xC7) || (0xC9 <= marker && marker <= 0xCF) {
                return Err(DecodeError::Malformed("unexpected SOF between scans"));
            } else {
                self.skip_segment("bad unknown segment length")?;
            }
        }
    }
}

/// Frames that are coded otherwise than baseline or progressive Huffman are
/// refused.
pub proof fn law_other_frame_types_are_refused(buf: Seq<u8>, w: Walk, marker: u8)
    requires
        w.c.err is None,
        is_other_sof(marker),
        marker != M_DHT,
    ensures
        header_segment(buf, w, marker).0.c.err == Some(
            DecodeError::Unsupported("non-baseline/progressive SOFn"),
        ),
        header_segment(buf, w, marker).1 is None,
{
}

/// The first EXIF payload stays.
pub proof fn law_first_exif_wins(buf: Seq<u8>, c: Cursor, m: Metadata)
    requires
        m.exif is Some,
    ensures
        read_app1(buf, c, m).1 == m,
{
}

/// Of ICC chunks with the same number the first stays, and the announced
/// total is that of the first segment.
pub proof fn law_first_icc_chunk_wins(buf: Seq<u8>, c: Cursor, m: Metadata)
    ensures
        m.icc_total is Some ==> read_app2(buf, c, m).1.icc_total == m.icc_total,
        forall|k: u8|
            m.icc_chunks.contains_key(k) ==> #[trigger] read_app2(buf, c, m).1.icc_chunks.contains_key(k)
                && read_app2(buf, c, m).1.icc_chunks[k] == m.icc_chunks[k],
{
}

/// At `pos` stands a segment: `FF`, the marker, a two-byte length that
/// counts itself and the payload, and the payload.
pub open spec fn segment_at(buf: Seq<u8>, pos: int, marker: u8, payload: Seq<u8>) -> bool {
    &&& 0 <= pos
    &&& pos + 4 + payload.len() <= buf.len()
    &&& buf.len() <= usize::MAX
    &&& buf[pos] == 0xFF
    &&& buf[pos + 1] == marker
    &&& 0 < marker < 0xFF
    &&& buf[pos + 2] * 256 + buf[pos + 3] == payload.len() + 2
    &&& forall|i: int| 0 <= i < payload.len() ==> buf[pos + 4 + i] == #[trigger] payload[i]
}

/// The walk, moved to another position.
pub open spec fn walk_at(w: Walk, pos: int) -> Walk {
    Walk { c: Cursor::at(pos), ..w }
}

/// Where a segment stands, its marker is read, then its length, then its
/// payload, and the cursor is behind it.
pub proof fn lemma_segment_is_read(buf: Seq<u8>, pos: int, marker: u8, payload: Seq<u8>)
    requires
        segment_at(buf, pos, marker, payload),
    ensures
        read_marker(buf, Cursor::at(pos)) == (Cursor::at(pos + 2), marker),
        Cursor::at(pos + 2).u16(buf) == (Cursor::at(pos + 4), (payload.len() + 2) as u16),
        payload.len() + 2 <= 0xFFFF,
        Cursor::at(pos + 4).take(buf, payload.len() as int) == (Cursor::at(pos + 4 + payload.len()), payload),
{
    reveal_with_fuel(skip_to_ff, 2);
    reveal_with_fuel(skip_ff, 2);
    let got = buf.subrange(pos + 4, pos + 4 + payload.len());
    assert forall|i: int| 0 <= i < payload.len() implies got[i] == payload[i] by {
        assert(buf[pos + 4 + i] == payload[i]);
    }
    assert(got =~= payload);
}

/// Segments that hold nothing of interest do not matter: a walk that meets
/// a comment, or an application segment other than APP1 and APP2, finds
/// what a walk that begins behind that segment finds.
pub proof fn law_skipped_segments_do_not_matter(buf: Seq<u8>, w: Walk, pos: int, marker: u8, payload: Seq<u8>)
    requires
        w.c == Cursor::at(pos),
        segment_at(buf, pos, marker, payload),
        marker == 0xFE || marker == 0xE0 || 0xE3 <= marker <= 0xEF,
    ensures
        walk_to_scan(buf, w) == walk_to_scan(buf, walk_at(w, pos + 4 + payload.len())),
{
    lemma_segment_is_read(buf, pos, marker, payload);
}

/// The same of segments between scans, where no application segment is of
/// interest.
pub proof fn law_skipped_segments_between_scans_do_not_matter(
    buf: Seq<u8>,
    w: Tables,
    frame: Frame,
    pos: int,
    marker: u8,
    payload: Seq<u8>,
)
    requires
        w.c == Cursor::at(pos),
        segment_at(buf, pos, marker, payload),
        marker == 0xFE || 0xE0 <= marker <= 0xEF,
    ensures
        walk_between(buf, w, frame, None) == walk_between(
            buf,
            Tables { c: Cursor::at(pos + 4 + payload.len()), ..w },
            frame,
            None,
        ),
        walk_between(buf, Tables { c: Cursor::at(pos + 2), ..w }, frame, Some(marker)) == walk_between(
            buf,
            Tables { c: Cursor::at(pos + 4 + payload.len()), ..w },
            frame,
            None,
        ),
{
    lemma_segment_is_read(buf, pos, marker, payload);
}

/// Bytes in front of a marker that are not `FF`, and further `FF` bytes,
/// do not matter.
pub proof fn law_bytes_before_a_marker_do_not_matter(buf: Seq<u8>, w: Walk, pos: int)
    requires
        w.c == Cursor::at(pos),
        0 <= pos,
        pos + 1 < buf.len(),
        buf[pos] != 0xFF || buf[pos + 1] == 0xFF,
    ensures
        walk_to_scan(buf, w) == walk_to_scan(buf, walk_at(w, pos + 1)),
{
    reveal_with_fuel(skip_to_ff, 3);
    reveal_with_fuel(skip_ff, 3);
    assert(read_marker(buf, Cursor::at(pos)) == read_marker(buf, Cursor::at(pos + 1)));
}

/// A DRI segment sets the restart interval to the number that it holds.
pub proof fn law_dri_sets_the_interval(buf: Seq<u8>, w: Walk, pos: int, payload: Seq<u8>)
    requires
        w.c == Cursor::at(pos),
        segment_at(buf, pos, 0xDD, payload),
        payload.len() == 2,
    ensures
        walk_to_scan(buf, w) == walk_to_scan(
            buf,
            Walk { restart_interval: (payload[0] * 256 + payload[1]) as u16, ..walk_at(w, pos + 6) },
        ),
{
    lemma_segment_is_read(buf, pos, 0xDD, payload);
    assert(buf[pos + 4 + 0] == payload[0]);
    assert(buf[pos + 4 + 1] == payload[1]);
}

/// A DQT segment with one table adds that table: the `k`-th byte after the
/// one that names the slot is the entry of the coefficient that comes `k`-th
/// in zig-zag order.
pub proof fn law_dqt_adds_its_table(buf: Seq<u8>, w: Walk, pos: int, payload: Seq<u8>, table: Quant)
    requires
        w.c == Cursor::at(pos),
        segment_at(buf, pos, 0xDB, payload),
        payload.len() == 65,
        payload[0] <= 3,
        table.id == payload[0],
        table.values.len() == 64,
        forall|k: int| 0 <= k < 64 ==> table.values[#[trigger] ZIGZAG[k] as int] == payload[1 + k],
    ensures
        walk_to_scan(buf, w) == walk_to_scan(
            buf,
            Walk { quant: w.quant.push(table), ..walk_at(w, pos + 69) },
        ),
{
    lemma_segment_is_read(buf, pos, 0xDB, payload);
    reveal_with_fuel(read_quant_tables, 2);
    assert(buf[pos + 4 + 0] == payload[0]);
    let zz = buf.subrange(pos + 5, pos + 69);
    let natural = from_zigzag(zz.map_values(|v: u8| v as u16));
    assert forall|i: int| 0 <= i < 64 implies #[trigger] natural[i] == table.values[i] by {
        law_zigzag_is_permutation(i);
        let k = ZIGZAG_INVERSE[i] as int;
        assert(ZIGZAG[k] as int == i);
        assert(buf[pos + 4 + (1 + k)] == payload[1 + k]);
    }
    assert(natural =~= table.values);
}

/// A DHT segment with one table adds that table: its class and slot from the
/// first byte, the numbers of codes of each length from the next sixteen,
/// and the symbols from the rest.
pub proof fn law_dht_adds_its_table(buf: Seq<u8>, w: Walk, pos: int, payload: Seq<u8>, table: Huff)
    requires
        w.c == Cursor::at(pos),
        segment_at(buf, pos, 0xC4, payload),
        payload.len() == 17 + table.book.values.len(),
        table.class <= 1,
        table.id <= 3,
        payload[0] == 16 * table.class + table.id,
        table.book.bits == payload.subrange(1, 17),
        table.book.values == payload.subrange(17, payload.len() as int),
        table.book.values.len() == table.book.offset(17),
        table.book.values.len() <= 256,
    ensures
        walk_to_scan(buf, w) == walk_to_scan(
            buf,
            Walk { huffman: w.huffman.push(table), ..walk_at(w, pos + 4 + payload.len()) },
        ),
{
    lemma_segment_is_read(buf, pos, 0xC4, payload);
    reveal_with_fuel(read_huffman_tables, 2);
    assert(buf[pos + 4 + 0] == payload[0]);
    let n = table.book.values.len() as int;
    let bits = buf.subrange(pos + 5, pos + 21);
    assert forall|i: int| 0 <= i < 16 implies bits[i] == table.book.bits[i] by {
        assert(buf[pos + 4 + (1 + i)] == payload[1 + i]);
    }
    assert(bits =~= table.book.bits);
    let values = buf.subrange(pos + 21, pos + 21 + n);
    assert forall|i: int| 0 <= i < n implies values[i] == table.book.values[i] by {
        assert(buf[pos + 4 + (17 + i)] == payload[17 + i]);
    }
    assert(values =~= table.book.values);
    table.book.lemma_offset_of_bits(Seq::empty(), 17);
}

/// Component descriptors are read one after the other, three bytes each.
pub proof fn lemma_frame_components_are_read(buf: Seq<u8>, pos: int, n: nat, acc: Seq<Component>)
    requires
        0 <= pos,
        pos + 3 * n <= buf.len(),
        forall|i: int|
            0 <= i < n ==> #[trigger] sampling_ok(buf[pos + 3 * i + 1] as int / 16) && sampling_ok(
                buf[pos + 3 * i + 1] as int % 16,
            ) && buf[pos + 3 * i + 2] <= 3,
    ensures
        read_frame_components(buf, Cursor::at(pos), n, acc) == (
            Cursor::at(pos + 3 * n),
            acc + Seq::new(
                n,
                |i: int|
                    Component {
                        id: buf[pos + 3 * i],
                        h: (buf[pos + 3 * i + 1] / 16) as u8,
                        v: (buf[pos + 3 * i + 1] % 16) as u8,
                        qt: buf[pos + 3 * i + 2],
                    },
            ),
        ),
    decreases n,
{
    let all = Seq::new(
        n,
        |i: int|
            Component {
                id: buf[pos + 3 * i],
                h: (buf[pos + 3 * i + 1] / 16) as u8,
                v: (buf[pos + 3 * i + 1] % 16) as u8,
                qt: buf[pos + 3 * i + 2],
            },
    );
    if n > 0 {
        assert(sampling_ok(buf[pos + 3 * 0 + 1] as int / 16));
        assert forall|i: int| 0 <= i < n - 1 implies #[trigger] sampling_ok(
            buf[(pos + 3) + 3 * i + 1] as int / 16,
        ) && sampling_ok(buf[(pos + 3) + 3 * i + 1] as int % 16) && buf[(pos + 3) + 3 * i + 2] <= 3 by {
            assert(sampling_ok(buf[pos + 3 * (i + 1) + 1] as int / 16));
        }
        let next = acc.push(all[0]);
        lemma_frame_components_are_read(buf, pos + 3, (n - 1) as nat, next);
        let r = read_frame_components(buf, Cursor::at(pos + 3), (n - 1) as nat, next).1;
        assert(r =~= acc + all);
    } else {
        assert(acc + all =~= acc);
    }
}

/// A SOF segment of a frame with 8-bit samples and two to four components
/// yields that frame: after the precision come the height, the width and
/// the number of components, and for each component its identifier, its
/// sampling factors in the two halves of a byte, and its table.
pub proof fn law_sof_yields_its_frame(buf: Seq<u8>, w: Walk, pos: int, payload: Seq<u8>, frame: Frame)
    requires
        w.c == Cursor::at(pos),
        segment_at(
            buf,
            pos,
            if frame.progressive {
                0xC2
            } else {
                0xC0
            },
            payload,
        ),
        frame.wf(),
        frame.components.len() >= 2,
        payload.len() == 6 + 3 * frame.components.len(),
        payload[0] == 8,
        payload[1] * 256 + payload[2] == frame.height,
        payload[3] * 256 + payload[4] == frame.width,
        payload[5] == frame.components.len(),
        forall|i: int|
            0 <= i < frame.components.len() ==> {
                let c = #[trigger] frame.components[i];
                &&& payload[6 + 3 * i] == c.id
                &&& payload[7 + 3 * i] == 16 * c.h + c.v
                &&& payload[8 + 3 * i] == c.qt
            },
    ensures
        walk_to_scan(buf, w) == walk_to_scan(
            buf,
            Walk { frame: Some(frame), ..walk_at(w, pos + 4 + payload.len()) },
        ),
{
    let n = frame.components.len();
    lemma_segment_is_read(buf, pos, buf[pos + 1], payload);
    assert forall|i: int| 0 <= i < payload.len() implies buf[pos + 4 + i] == payload[i] by {}
    assert(buf[pos + 4 + 0] == payload[0]);
    assert(buf[pos + 4 + 1] == payload[1]);
    assert(buf[pos + 4 + 2] == payload[2]);
    assert(buf[pos + 4 + 3] == payload[3]);
    assert(buf[pos + 4 + 4] == payload[4]);
    assert(buf[pos + 4 + 5] == payload[5]);
    let at = pos + 10;
    assert forall|i: int| 0 <= i < n implies #[trigger] sampling_ok(buf[at + 3 * i + 1] as int / 16)
        && sampling_ok(buf[at + 3 * i + 1] as int % 16) && buf[at + 3 * i + 2] <= 3 && buf[at + 3 * i + 1]
        / 16 == frame.components[i].h && buf[at + 3 * i + 1] % 16 == frame.components[i].v && buf[at + 3 * i
        + 2] == frame.components[i].qt && buf[at + 3 * i] == frame.components[i].id by {
        assert(frame.components[i].wf());
        assert(buf[pos + 4 + (6 + 3 * i)] == payload[6 + 3 * i]);
        assert(buf[pos + 4 + (7 + 3 * i)] == payload[7 + 3 * i]);
        assert(buf[pos + 4 + (8 + 3 * i)] == payload[8 + 3 * i]);
    }
    lemma_frame_components_are_read(buf, at, n, Seq::empty());
    let (d, got) = read_frame_components(buf, Cursor::at(at), n, Seq::empty());
    assert forall|i: int| 0 <= i < n implies got[i] == frame.components[i] by {
        assert(sampling_ok(buf[at + 3 * i + 1] as int / 16));
    }
    assert(got =~= frame.components);
}

/// Scan entries are read one after the other, two bytes each.
proof fn lemma_scan_components_are_read(
    buf: Seq<u8>,
    pos: int,
    frame: Frame,
    comps: Seq<ScanComponent>,
    n: nat,
    acc: Seq<ScanComponent>,
)
    requires
        0 <= pos,
        pos + 2 * n <= buf.len(),
        n <= comps.len(),
        forall|i: int|
            0 <= i < comps.len() ==> (#[trigger] comps[i]).wf(frame) && buf[pos + 2 * (i - (comps.len() - n))]
                == comps[i].component_id || i < comps.len() - n,
        forall|i: int|
            comps.len() - n <= i < comps.len() ==> buf[pos + 2 * (i - (comps.len() - n)) + 1] == 16 * (
            #[trigger] comps[i]).dc_table + comps[i].ac_table,
    ensures
        read_scan_components(buf, Cursor::at(pos), frame, n, acc) == (
            Cursor::at(pos + 2 * n),
            acc + comps.subrange(comps.len() - n, comps.len() as int),
        ),
    decreases n,
{
    let rest = comps.subrange(comps.len() - n, comps.len() as int);
    if n > 0 {
        let first = comps[comps.len() - n];
        assert(first.wf(frame));
        assert(buf[pos] == first.component_id);
        assert(buf[pos + 1] == 16 * first.dc_table + first.ac_table);
        lemma_scan_components_are_read(buf, pos + 2, frame, comps, (n - 1) as nat, acc.push(first));
        let r = read_scan_components(buf, Cursor::at(pos + 2), frame, (n - 1) as nat, acc.push(first)).1;
        assert(r =~= acc + rest);
    } else {
        assert(acc + rest =~= acc);
    }
}

/// A SOS segment ends the walk and yields its scan: for each component its
/// identifier and its DC and AC tables in the two halves of a byte, then the
/// band, then the bit positions in the two halves of a byte. The scan's data
/// begin behind the segment.
pub proof fn law_sos_yields_its_scan(buf: Seq<u8>, w: Walk, pos: int, payload: Seq<u8>, frame: Frame, scan: Scan)
    requires
        w.c == Cursor::at(pos),
        w.frame == Some(frame),
        segment_at(buf, pos, 0xDA, payload),
        scan.wf(frame),
        payload.len() == 4 + 2 * scan.components.len(),
        payload[0] == scan.components.len(),
        forall|i: int|
            0 <= i < scan.components.len() ==> {
                let c = #[trigger] scan.components[i];
                &&& payload[1 + 2 * i] == c.component_id
                &&& payload[2 + 2 * i] == 16 * c.dc_table + c.ac_table
            },
        payload[payload.len() - 3] == scan.ss,
        payload[payload.len() - 2] == scan.se,
        payload[payload.len() - 1] == 16 * scan.ah + scan.al,
    ensures
        walk_to_scan(buf, w) == (walk_at(w, pos + 4 + payload.len()), Some(scan)),
{
    let n = scan.components.len();
    lemma_segment_is_read(buf, pos, 0xDA, payload);
    assert(buf[pos + 4 + 0] == payload[0]);
    assert(buf[pos + 4 + (payload.len() - 3)] == payload[payload.len() - 3]);
    assert(buf[pos + 4 + (payload.len() - 2)] == payload[payload.len() - 2]);
    assert(buf[pos + 4 + (payload.len() - 1)] == payload[payload.len() - 1]);
    assert forall|i: int| 0 <= i < n implies buf[pos + 5 + 2 * i] == (#[trigger] scan.components[i]).component_id
        && buf[pos + 5 + 2 * i + 1] == 16 * scan.components[i].dc_table + scan.components[i].ac_table by {
        assert(buf[pos + 4 + (1 + 2 * i)] == payload[1 + 2 * i]);
        assert(buf[pos + 4 + (2 + 2 * i)] == payload[2 + 2 * i]);
    }
    lemma_scan_components_are_read(buf, pos + 5, frame, scan.components, n, Seq::empty());
    let got = read_scan_components(buf, Cursor::at(pos + 5), frame, n, Seq::empty()).1;
    assert(got =~= scan.components);
}

/// An APP1 segment with the EXIF identifier, met before any other, makes the
/// bytes behind the identifier the EXIF payload.
pub proof fn law_exif_is_the_bytes_behind_its_identifier(
    buf: Seq<u8>,
    w: Walk,
    pos: int,
    payload: Seq<u8>,
    exif: Seq<u8>,
)
    requires
        w.c == Cursor::at(pos),
        w.metadata.exif is None,
        segment_at(buf, pos, 0xE1, payload),
        payload == seq![0x45u8, 0x78, 0x69, 0x66, 0, 0] + exif,
    ensures
        ({
            let range = Range { start: (pos + 10) as usize, end: (pos + 10 + exif.len()) as usize };
            &&& walk_to_scan(buf, w) == walk_to_scan(
                buf,
                Walk {
                    metadata: Metadata { exif: Some(range), ..w.metadata },
                    ..walk_at(w, pos + 4 + payload.len())
                },
            )
            &&& buf.subrange(range.start as int, range.end as int) == exif
        }),
{
    lemma_segment_is_read(buf, pos, 0xE1, payload);
    let id = seq![0x45u8, 0x78, 0x69, 0x66, 0, 0];
    assert(EXIF_ID@ =~= id);
    assert(payload.subrange(0, 6) =~= id);
    let got = buf.subrange(pos + 10, pos + 10 + exif.len());
    assert forall|i: int| 0 <= i < exif.len() implies got[i] == exif[i] by {
        assert(buf[pos + 4 + (6 + i)] == payload[6 + i]);
    }
    assert(got =~= exif);
}

/// An APP2 segment with the ICC identifier records the bytes behind its
/// header as the chunk of its number, if it is the first of that number and
/// agrees with the segments before it on how many chunks there are.
pub proof fn law_icc_chunk_is_the_bytes_behind_its_header(
    buf: Seq<u8>,
    w: Walk,
    pos: int,
    payload: Seq<u8>,
    number: u8,
    total: u8,
    chunk: Seq<u8>,
)
    requires
        w.c == Cursor::at(pos),
        w.metadata.icc_total is None || w.metadata.icc_total == Some(total),
        !w.metadata.icc_chunks.contains_key(number),
        segment_at(buf, pos, 0xE2, payload),
        payload == seq![0x49u8, 0x43, 0x43, 0x5F, 0x50, 0x52, 0x4F, 0x46, 0x49, 0x4C, 0x45, 0] + seq![number, total]
            + chunk,
    ensures
        ({
            let range = Range { start: (pos + 18) as usize, end: (pos + 18 + chunk.len()) as usize };
            &&& walk_to_scan(buf, w) == walk_to_scan(
                buf,
                Walk {
                    metadata: Metadata {
                        icc_total: Some(total),
                        icc_chunks: w.metadata.icc_chunks.insert(number, range),
                        ..w.metadata
                    },
                    ..walk_at(w, pos + 4 + payload.len())
                },
            )
            &&& buf.subrange(range.start as int, range.end as int) == chunk
        }),
{
    lemma_segment_is_read(buf, pos, 0xE2, payload);
    assert(ICC_ID@ =~= seq![0x49u8, 0x43, 0x43, 0x5F, 0x50, 0x52, 0x4F, 0x46, 0x49, 0x4C, 0x45, 0]);
    assert(payload.subrange(0, 12) =~= ICC_ID@);
    assert(payload[12] == number);
    assert(payload[13] == total);
    let got = buf.subrange(pos + 18, pos + 18 + chunk.len());
    assert forall|i: int| 0 <= i < chunk.len() implies got[i] == chunk[i] by {
        assert(buf[pos + 4 + (14 + i)] == payload[14 + i]);
    }
    assert(got =~= chunk);
}

/// Tables and the restart interval are read between scans as they are
/// before the first one.
pub proof fn law_segments_between_scans_are_read_alike(buf: Seq<u8>, w: Walk, frame: Frame, marker: u8)
    requires
        w.c.err is None,
        marker == 0xDB || marker == 0xC4 || marker == 0xDD,
    ensures
        ({
            let a = header_segment(buf, w, marker);
            let b = inner_segment(
                buf,
                Tables { c: w.c, quant: w.quant, huffman: w.huffman, restart_interval: w.restart_interval },
                frame,
                marker,
            );
            &&& a.0.c == b.0.c
            &&& a.0.quant == b.0.quant
            &&& a.0.huffman == b.0.huffman
            &&& a.0.c.err is None ==> a.0.restart_interval == b.0.restart_interval
            &&& a.1 is None
            &&& b.1 is More
        }),
{
}

/// A SOS segment between scans yields the scan that it would yield before
/// the first one, and EOI ends the image.
pub proof fn law_scans_between_scans_are_read_alike(buf: Seq<u8>, w: Walk, frame: Frame)
    requires
        w.frame == Some(frame),
    ensures
        ({
            let t = Tables { c: w.c, quant: w.quant, huffman: w.huffman, restart_interval: w.restart_interval };
            let a = header_segment(buf, w, 0xDA);
            let b = inner_segment(buf, t, frame, 0xDA);
            &&& a.0.c == b.0.c
            &&& a.1 matches Some(scan) ==> b.1 == Between::Next(scan)
            &&& inner_segment(buf, t, frame, 0xD9) == (t, Between::End)
        }),
{
}

} // verus!
