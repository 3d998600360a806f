//! JPEG decoder for baseline and progressive Huffman streams.
//!
//! [`Decoder::new`] reads the headers of a stream; [`Decoder::decode`] runs
//! its scans and yields packed pixels.

use vstd::prelude::*;

pub mod baseline;
pub mod coding;
pub mod compose;
pub mod error;
pub mod huffman;
pub mod limits;
pub mod markers;
pub mod moved;
pub mod order;
pub mod progressive;

use crate::color::{PixelFormat, PixelLayout};
use baseline::decode_baseline_multi;
use compose::compose_output;
pub use error::{DecodeError, Result};
use markers::{DecoderHeaders, DecoderMetadata, MarkerReader, ScanHeader};
use progressive::decode_progressive;

verus! {

use baseline::{baseline_scans, blank_samples};
use compose::{composed, law_composed_is_packed};
use markers::{
    law_headers_are_in_order, ranges_within, read_headers, Cursor, Headers, Metadata, Scan, Tables,
};
use progressive::progressive_samples;

/// What a stream holds, as far as its headers tell.
#[derive(Clone, Copy, Debug)]
pub struct ImageInfo {
    /// Width in pixels.
    pub width: u32,
    /// Height in pixels.
    pub height: u32,
    /// Number of components.
    pub components: u8,
    /// Whether the image is coded progressively.
    pub progressive: bool,
}

/// A stream whose headers have been read.
pub struct Decoder<'a> {
    src: &'a [u8],
    headers: DecoderHeaders,
    first_scan: ScanHeader,
    entropy_start: usize,
    icc: Option<Vec<u8>>,
}

/// Model of [`Decoder`]: the data, the headers, the first scan and where its
/// entropy-coded data begin.
pub ghost struct Parsed {
    pub src: Seq<u8>,
    pub headers: Headers,
    pub first_scan: Scan,
    pub entropy_start: int,
}

/// Reads the headers of a stream.
pub open spec fn parsed(src: Seq<u8>) -> Result<Parsed> {
    let (w, scan) = read_headers(src, Cursor::at(0));
    match scan {
        None => Err(w.c.err->0),
        Some(s) => Ok(
            Parsed {
                src,
                headers: Headers {
                    frame: w.frame->0,
                    quant: w.quant,
                    huffman: w.huffman,
                    restart_interval: w.restart_interval,
                    metadata: w.metadata,
                },
                first_scan: s,
                entropy_start: w.c.pos,
            },
        ),
    }
}

/// The chunk numbers 1 to `n`.
pub open spec fn chunk_numbers(n: u8) -> Set<u8> {
    Set::new(|k: u8| 1 <= k <= n)
}

/// The first `n` chunks, one after the other.
pub open spec fn joined_chunks(src: Seq<u8>, m: Metadata, n: nat) -> Seq<u8>
    decreases n,
{
    if n == 0 {
        Seq::empty()
    } else {
        let chunk = m.icc_chunks[n as u8];
        joined_chunks(src, m, (n - 1) as nat) + src.subrange(chunk.start as int, chunk.end as int)
    }
}

/// The ICC profile: its chunks in the order of their numbers. There is none
/// unless the numbers are exactly 1 to the announced total, at least 1, on
/// which all segments agree.
pub open spec fn icc_of(src: Seq<u8>, m: Metadata) -> Option<Seq<u8>> {
    match m.icc_total {
        Some(total) => if total >= 1 && !m.icc_conflict && m.icc_chunks.dom() =~= chunk_numbers(total) {
            Some(joined_chunks(src, m, total as nat))
        } else {
            None
        },
        None => None,
    }
}

impl Parsed {
    /// The EXIF payload of the first EXIF segment.
    pub open spec fn exif(self) -> Option<Seq<u8>> {
        match self.headers.metadata.exif {
            Some(r) => Some(self.src.subrange(r.start as int, r.end as int)),
            None => None,
        }
    }

    /// The ICC profile.
    pub open spec fn icc_profile(self) -> Option<Seq<u8>> {
        icc_of(self.src, self.headers.metadata)
    }

    /// The decoded samples, component by component.
    pub open spec fn samples(self) -> Result<Seq<Seq<u8>>> {
        let tables = Tables {
            c: Cursor::at(self.entropy_start),
            quant: self.headers.quant,
            huffman: self.headers.huffman,
            restart_interval: self.headers.restart_interval,
        };
        if self.headers.frame.progressive {
            progressive_samples(self.src, self.headers.frame, tables, self.first_scan)
        } else {
            baseline_scans(
                self.src,
                self.headers.frame,
                tables,
                self.first_scan,
                blank_samples(self.headers.frame),
            )
        }
    }

    /// The decoded pixels in `layout`.
    pub open spec fn pixels(self, layout: PixelLayout) -> Result<Seq<u8>> {
        match self.samples() {
            Ok(samples) => composed(samples, self.headers.frame, layout),
            Err(e) => Err(e),
        }
    }
}

/// There are `n` numbers from 1 to `n`.
proof fn lemma_chunk_numbers(n: u8)
    ensures
        chunk_numbers(n).finite(),
        chunk_numbers(n).len() == n,
    decreases n,
{
    if n == 0 {
        assert(chunk_numbers(n) =~= Set::empty());
    } else {
        let m = (n - 1) as u8;
        lemma_chunk_numbers(m);
        assert(chunk_numbers(n) =~= chunk_numbers(m).insert(n));
    }
}

/// Joins the chunks of the ICC profile, if they are complete.
fn assemble_icc(src: &[u8], meta: &DecoderMetadata) -> (r: Option<Vec<u8>>)
    requires
        ranges_within(meta@, src@.len() as int),
    ensures
        match icc_of(src@, meta@) {
            Some(profile) => r matches Some(v) && v@ == profile,
            None => r is None,
        },
{
    let total = match meta.icc_total {
        Some(total) => total,
        None => return None,
    };
    proof {
        lemma_chunk_numbers(total);
    }
    if total == 0 || meta.icc_conflict || meta.icc_chunks.len() != total as usize {
        return None;
    }
    let ghost chunks = meta.icc_chunks@;
    let mut out: Vec<u8> = Vec::new();
    let mut seq: u8 = 0;
    while seq < total
        invariant
            seq <= total,
            chunks == meta.icc_chunks@,
            meta.icc_total == Some(total),
            ranges_within(meta@, src@.len() as int),
            forall|k: u8| 1 <= k <= seq ==> #[trigger] chunks.contains_key(k),
            out@ == joined_chunks(src@, meta@, seq as nat),
        decreases total - seq,
    {
        let next: u8 = seq + 1;
        match meta.icc_chunks.get(&next) {
            Some(range) => {
                assert(chunks.contains_key(next));
                let start: usize = range.start;
                let end: usize = range.end;
                let mut chunk = vstd::slice::slice_to_vec(&src[start..end]);
                assert(chunk@ =~= src@.subrange(start as int, end as int));
                out.append(&mut chunk);
            },
            None => {
                assert(chunk_numbers(total).contains(next));
                return None;
            },
        }
        seq = next;
    }
    proof {
        assert(chunk_numbers(total).subset_of(chunks.dom()));
        vstd::set_lib::lemma_subset_equality(chunk_numbers(total), chunks.dom());
    }
    Some(out)
}

impl<'a> View for Decoder<'a> {
    type V = Parsed;

    closed spec fn view(&self) -> Parsed {
        Parsed {
            src: self.src@,
            headers: self.headers@,
            first_scan: self.first_scan@,
            entropy_start: self.entropy_start as int,
        }
    }
}

impl<'a> Decoder<'a> {
    /// The headers are in order, and the ICC profile is the one that the
    /// metadata tell of.
    #[verifier::type_invariant]
    spec fn inv(self) -> bool {
        &&& self.headers@.wf()
        &&& self.first_scan@.wf(self.headers@.frame)
        &&& ranges_within(self.headers@.metadata, self.src@.len() as int)
        &&& match icc_of(self.src@, self.headers@.metadata) {
            Some(profile) => self.icc matches Some(v) && v@ == profile,
            None => self.icc is None,
        }
    }

    /// Reads the headers of a stream. Fails where they are malformed or ask
    /// for something that is not decoded.
    pub fn new(src: &'a [u8]) -> (r: Result<Self>)
        ensures
            match parsed(src@) {
                Ok(p) => r matches Ok(d) && d@ == p,
                Err(e) => r == Err::<Self, DecodeError>(e),
            },
    {
        let mut reader = MarkerReader::new(src);
        let len: usize = src.len();
        proof {
            law_headers_are_in_order(src@, Cursor::at(0));
        }
        let (headers, first_scan) = match reader.read_to_scan() {
            Ok(parts) => parts,
            Err(e) => return Err(e),
        };
        let entropy_start: usize = reader.pos();
        let icc = assemble_icc(src, &headers.metadata);
        Ok(Decoder { src, headers, first_scan, entropy_start, icc })
    }

    /// Dimensions and kind of the image.
    pub fn info(&self) -> (r: ImageInfo)
        ensures
            r.width == self@.headers.frame.width,
            r.height == self@.headers.frame.height,
            r.components == self@.headers.frame.components.len(),
            r.progressive == self@.headers.frame.progressive,
    {
        proof {
            use_type_invariant(self);
        }
        ImageInfo {
            width: self.headers.frame.width as u32,
            height: self.headers.frame.height as u32,
            components: self.headers.frame.components.len() as u8,
            progressive: self.headers.frame.progressive,
        }
    }

    /// The EXIF payload, without its identifier, of the first segment that
    /// has one.
    pub fn exif(&self) -> (r: Option<&[u8]>)
        ensures
            match self@.exif() {
                Some(bytes) => r matches Some(b) && b@ == bytes,
                None => r is None,
            },
    {
        proof {
            use_type_invariant(self);
        }
        match &self.headers.metadata.exif {
            Some(range) => {
                let start: usize = range.start;
                let end: usize = range.end;
                Some(&self.src[start..end])
            },
            None => None,
        }
    }

    /// The ICC profile, joined from its chunks. `None` where the stream has
    /// none, where a chunk is missing or has a number beyond the total, and
    /// where segments disagree on the total.
    pub fn icc_profile(&self) -> (r: Option<&[u8]>)
        ensures
            match self@.icc_profile() {
                Some(bytes) => r matches Some(b) && b@ == bytes,
                None => r is None,
            },
    {
        proof {
            use_type_invariant(self);
        }
        match &self.icc {
            Some(profile) => Some(profile.as_slice()),
            None => None,
        }
    }

    /// Decodes the image to packed pixels in `format`, row by row from the
    /// top.
    pub fn decode(self, format: PixelFormat) -> (r: Result<Vec<u8>>)
        ensures
            match self@.pixels(format.spec_layout()) {
                Ok(pixels) => r matches Ok(out) && out@ == pixels,
                Err(e) => r == Err::<Vec<u8>, DecodeError>(e),
            },
    {
        proof {
            use_type_invariant(&self);
        }
        let layout = PixelLayout::from(format);
        let ghost p = self@;
        let Decoder { src, headers, first_scan, entropy_start, icc: _ } = self;
        let planes = if headers.frame.progressive {
            match decode_progressive(src, entropy_start, &headers, first_scan) {
                Ok(planes) => planes,
                Err(e) => return Err(e),
            }
        } else {
            match decode_baseline_multi(src, entropy_start, &headers, first_scan) {
                Ok(planes) => planes,
                Err(e) => return Err(e),
            }
        };
        compose_output(&planes, &headers, layout)
    }
}

/// Reads the headers of a stream and decodes it.
pub fn decode(src: &[u8], format: PixelFormat) -> (r: Result<Vec<u8>>)
    ensures
        match parsed(src@) {
            Ok(p) => match p.pixels(format.spec_layout()) {
                Ok(pixels) => r matches Ok(out) && out@ == pixels,
                Err(e) => r == Err::<Vec<u8>, DecodeError>(e),
            },
            Err(e) => r == Err::<Vec<u8>, DecodeError>(e),
        },
{
    match Decoder::new(src) {
        Ok(decoder) => decoder.decode(format),
        Err(e) => Err(e),
    }
}

/// Decoding a stream gives `width * height` pixels of `bpp` bytes.
pub proof fn law_decoded_size(src: Seq<u8>, format: PixelFormat)
    requires
        src.len() <= usize::MAX,
    ensures
        parsed(src) matches Ok(p) ==> p.pixels(format.spec_layout()) matches Ok(pixels) ==> pixels.len()
            == p.headers.frame.height * (p.headers.frame.width * format.spec_layout().bpp),
{
    law_headers_are_in_order(src, Cursor::at(0));
    if let Ok(p) = parsed(src) {
        let layout = format.spec_layout();
        if let Ok(samples) = p.samples() {
            let frame = p.headers.frame;
            assert(0 < frame.width * layout.bpp) by (nonlinear_arith)
                requires
                    0 < frame.width,
                    0 < layout.bpp,
            ;
            law_composed_is_packed(samples, frame, layout, 0, 0);
        }
    }
}

/// Once the samples of a stream are decoded, a format fails only for the
/// number of components.
pub proof fn law_formats_differ_only_in_components(p: Parsed, format: PixelFormat)
    requires
        p.samples() is Ok,
    ensures
        p.pixels(format.spec_layout()) is Ok <==> match format {
            PixelFormat::Cmyk => p.headers.frame.components.len() == 4,
            PixelFormat::Gray => p.headers.frame.components.len() != 4,
            _ => p.headers.frame.components.len() == 1 || p.headers.frame.components.len() == 3,
        },
{
}

/// An ICC profile begins with its first chunk.
pub proof fn law_icc_begins_with_its_first_chunk(src: Seq<u8>, m: Metadata)
    requires
        ranges_within(m, src.len() as int),
    ensures
        icc_of(src, m) matches Some(profile) ==> ({
            let first = m.icc_chunks[1];
            let chunk = src.subrange(first.start as int, first.end as int);
            chunk.is_prefix_of(profile)
        }),
{
    if let Some(profile) = icc_of(src, m) {
        lemma_joined_begins(src, m, m.icc_total->0 as nat);
    }
}

proof fn lemma_joined_begins(src: Seq<u8>, m: Metadata, n: nat)
    requires
        1 <= n <= 255,
    ensures
        src.subrange(m.icc_chunks[1].start as int, m.icc_chunks[1].end as int).is_prefix_of(
            joined_chunks(src, m, n),
        ),
    decreases n,
{
    let chunk = src.subrange(m.icc_chunks[1].start as int, m.icc_chunks[1].end as int);
    if n == 1 {
        assert(joined_chunks(src, m, 0) =~= Seq::empty());
        assert(joined_chunks(src, m, 1) =~= chunk);
    } else {
        lemma_joined_begins(src, m, (n - 1) as nat);
        let before = joined_chunks(src, m, (n - 1) as nat);
        assert(chunk =~= joined_chunks(src, m, n).subrange(0, chunk.len() as int)) by {
            assert(before.subrange(0, chunk.len() as int) =~= chunk);
        }
    }
}

/// Where chunk `k` of an ICC profile begins: behind the chunks before it.
pub open spec fn chunk_offset(m: Metadata, k: nat) -> int
    decreases k,
{
    if k <= 1 {
        0
    } else {
        chunk_offset(m, (k - 1) as nat) + (m.icc_chunks[(k - 1) as u8].end - m.icc_chunks[(k - 1) as u8].start)
    }
}

/// An ICC profile is its chunks in the order of their numbers: chunk `k`
/// stands in it behind the chunks of lower numbers, and nothing else does.
pub proof fn law_icc_is_its_chunks_in_order(src: Seq<u8>, m: Metadata, k: nat)
    requires
        ranges_within(m, src.len() as int),
        icc_of(src, m) is Some,
        1 <= k <= m.icc_total->0,
    ensures
        ({
            let profile = icc_of(src, m)->0;
            let chunk = src.subrange(m.icc_chunks[k as u8].start as int, m.icc_chunks[k as u8].end as int);
            let at = chunk_offset(m, k);
            &&& profile.subrange(at, at + chunk.len()) == chunk
            &&& profile.len() == chunk_offset(m, m.icc_total->0 as nat + 1)
        }),
{
    let total = m.icc_total->0;
    assert forall|i: u8| 1 <= i <= total implies #[trigger] m.icc_chunks.contains_key(i) by {
        assert(chunk_numbers(total).contains(i));
    }
    lemma_chunk_in_place(src, m, total as nat, k);
}

/// Chunk `k` among the first `n`.
proof fn lemma_chunk_in_place(src: Seq<u8>, m: Metadata, n: nat, k: nat)
    requires
        ranges_within(m, src.len() as int),
        1 <= k <= n <= 255,
        forall|i: u8| 1 <= i <= n ==> #[trigger] m.icc_chunks.contains_key(i),
    ensures
        ({
            let all = joined_chunks(src, m, n);
            let chunk = src.subrange(m.icc_chunks[k as u8].start as int, m.icc_chunks[k as u8].end as int);
            let at = chunk_offset(m, k);
            &&& 0 <= at
            &&& at + chunk.len() <= all.len()
            &&& all.subrange(at, at + chunk.len()) == chunk
            &&& all.len() == chunk_offset(m, n + 1)
        }),
    decreases n,
{
    let last = m.icc_chunks[n as u8];
    assert(m.icc_chunks.contains_key(n as u8));
    assert(m.icc_chunks.contains_key(k as u8));
    let chunk = src.subrange(m.icc_chunks[k as u8].start as int, m.icc_chunks[k as u8].end as int);
    let at = chunk_offset(m, k);
    let all = joined_chunks(src, m, n);
    if n == 1 {
        assert(joined_chunks(src, m, 0) =~= Seq::empty());
        assert(all.subrange(at, at + chunk.len()) =~= chunk);
    } else {
        let before = joined_chunks(src, m, (n - 1) as nat);
        if k < n {
            lemma_chunk_in_place(src, m, (n - 1) as nat, k);
            assert(all.subrange(at, at + chunk.len()) =~= before.subrange(at, at + chunk.len()));
        } else {
            lemma_chunk_in_place(src, m, (n - 1) as nat, 1);
            assert(all.subrange(at, at + chunk.len()) =~= chunk);
        }
    }
}

} // verus!
