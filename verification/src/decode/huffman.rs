//! Bit reader and Huffman decoding.

use vstd::arithmetic::div_mod::{
    lemma_div_basics, lemma_div_denominator, lemma_fundamental_div_mod, lemma_fundamental_div_mod_converse,
    lemma_mod_bound, lemma_mod_breakdown, lemma_small_mod,
};
use vstd::arithmetic::power2::{
    lemma2_to64, lemma_pow2_adds, lemma_pow2_pos, lemma_pow2_strictly_increases, lemma_pow2_unfold, pow2,
};
use vstd::prelude::*;

use super::error::{DecodeError, Result};
use super::markers::HuffmanTableSpec;

verus! {

use crate::arch::scalar::huffman::{category, lemma_bit_length, magnitude_bits};
use crate::arch::scalar::quant::magnitude;

/// State of a bit reader: the next byte to fetch, the bits fetched but not
/// yet consumed (`nbits` of them, as the number `buf`), and the marker that
/// ended the entropy-coded data, once one was met.
#[verifier::ext_equal]
pub ghost struct BitState {
    pub pos: int,
    pub buf: int,
    pub nbits: int,
    pub marker: Option<u8>,
}

/// A state, and whether the fetch that led to it found its data.
pub ghost struct Fetch {
    pub st: BitState,
    pub ok: bool,
}

impl BitState {
    /// Eight more bits, with value `v`, fetched from `bytes` more bytes.
    pub open spec fn push_byte(self, v: int, bytes: int) -> BitState {
        BitState {
            pos: self.pos + bytes,
            buf: self.buf * 256 + v,
            nbits: self.nbits + 8,
            marker: self.marker,
        }
    }

    /// 32 more bits, with value `v`, fetched from four more bytes.
    pub open spec fn push_word(self, v: int) -> BitState {
        BitState {
            pos: self.pos + 4,
            buf: self.buf * 0x1_0000_0000 + v,
            nbits: self.nbits + 32,
            marker: self.marker,
        }
    }

    /// The value of the next `n` bits.
    pub open spec fn top(self, n: int) -> int {
        self.buf / pow2((self.nbits - n) as nat) as int
    }

    /// The state after the next `n` bits are consumed.
    pub open spec fn drop(self, n: int) -> BitState {
        BitState {
            pos: self.pos,
            buf: self.buf % pow2((self.nbits - n) as nat) as int,
            nbits: self.nbits - n,
            marker: self.marker,
        }
    }
}

/// Fetches one data byte. A stuffed `FF 00` is the byte `FF`; `FF` before
/// any other byte is a marker, which is recorded and read as zero bits, as
/// is everything after it.
pub open spec fn fetch_byte(src: Seq<u8>, s: BitState) -> Fetch {
    if s.marker is Some {
        Fetch { st: s.push_byte(0, 0), ok: true }
    } else if s.pos >= src.len() {
        Fetch { st: s, ok: false }
    } else if src[s.pos] != 0xFF {
        Fetch { st: s.push_byte(src[s.pos] as int, 1), ok: true }
    } else if s.pos + 1 >= src.len() {
        Fetch { st: BitState { pos: s.pos + 1, ..s }, ok: false }
    } else if src[s.pos + 1] == 0 {
        Fetch { st: s.push_byte(0xFF, 2), ok: true }
    } else {
        Fetch { st: BitState { marker: Some(src[s.pos + 1]), ..s.push_byte(0, 2) }, ok: true }
    }
}

/// Fetches bytes until at least `need` bits are there.
pub open spec fn fetch_until(src: Seq<u8>, s: BitState, need: int) -> Fetch
    decreases
            (if need > s.nbits {
                need - s.nbits
            } else {
                0
            }),
{
    if s.nbits >= need {
        Fetch { st: s, ok: true }
    } else {
        let f = fetch_byte(src, s);
        if f.ok {
            fetch_until(src, f.st, need)
        } else {
            f
        }
    }
}

/// Four bytes can be fetched in one step: there is room for them and none
/// of them is `FF`.
pub open spec fn can_burst(src: Seq<u8>, s: BitState) -> bool {
    &&& s.marker is None
    &&& s.nbits <= 32
    &&& s.pos + 4 <= src.len()
    &&& src[s.pos] != 0xFF
    &&& src[s.pos + 1] != 0xFF
    &&& src[s.pos + 2] != 0xFF
    &&& src[s.pos + 3] != 0xFF
}

/// The value of four bytes, most significant first.
pub open spec fn be32(src: Seq<u8>, pos: int) -> int {
    src[pos] * 0x100_0000 + src[pos + 1] * 0x1_0000 + src[pos + 2] * 0x100 + src[pos + 3]
}

/// Refills the reader to at least `need` bits.
pub open spec fn refill(src: Seq<u8>, s: BitState, need: int) -> Fetch {
    if can_burst(src, s) {
        fetch_until(src, s.push_word(be32(src, s.pos)), need)
    } else {
        fetch_until(src, s, need)
    }
}

/// Refills the reader if it holds fewer than `need` bits.
pub open spec fn ensure_bits(src: Seq<u8>, s: BitState, need: int) -> Fetch {
    if s.nbits >= need {
        Fetch { st: s, ok: true }
    } else {
        refill(src, s, need)
    }
}

/// Reads `n` bits, most significant first.
pub open spec fn read_bits(src: Seq<u8>, s: BitState, n: int) -> (BitState, Result<u32>) {
    let f = ensure_bits(src, s, n);
    if f.ok {
        (f.st.drop(n), Ok(f.st.top(n) as u32))
    } else {
        (f.st, Err(DecodeError::UnexpectedEof))
    }
}

/// A Huffman code: how many codes there are of each length from 1 to 16,
/// and the symbols in order of increasing code.
#[verifier::ext_equal]
pub ghost struct CodeBook {
    pub bits: Seq<u8>,
    pub values: Seq<u8>,
}

impl CodeBook {
    /// Number of codes of length `l`.
    pub open spec fn count(self, l: int) -> int {
        self.bits[l - 1] as int
    }

    /// Number of codes shorter than `l`.
    pub open spec fn offset(self, l: int) -> int
        decreases l,
    {
        if l <= 1 {
            0
        } else {
            self.offset(l - 1) + self.count(l - 1)
        }
    }

    /// The first code of length `l`, in canonical order.
    pub open spec fn first_code(self, l: int) -> int
        decreases l,
    {
        if l <= 1 {
            0
        } else {
            2 * (self.first_code(l - 1) + self.count(l - 1))
        }
    }

    /// `c` is a code of length `l`.
    pub open spec fn is_code(self, l: int, c: int) -> bool {
        self.first_code(l) <= c < self.first_code(l) + self.count(l)
    }

    /// The symbol of code `c` of length `l`.
    pub open spec fn symbol(self, l: int, c: int) -> u8 {
        self.values[self.offset(l) + c - self.first_code(l)]
    }

    /// The length of the shortest code, of length `l` or more, that the
    /// `width`-bit number `key` begins with.
    pub open spec fn prefix_length(self, key: int, width: int, l: int) -> Option<int>
        decreases width + 1 - l,
    {
        if l > width {
            None
        } else if self.is_code(l, key / pow2((width - l) as nat) as int) {
            Some(l)
        } else {
            self.prefix_length(key, width, l + 1)
        }
    }

    /// As many symbols as codes, and at least one.
    pub open spec fn complete(self) -> bool {
        &&& self.bits.len() == 16
        &&& self.values.len() == self.offset(17)
        &&& self.values.len() >= 1
    }

    /// The codes of up to 8 bits fit in 8 bits.
    pub open spec fn short_codes_fit(self) -> bool {
        self.first_code(8) + self.count(8) <= 256
    }
}

/// Reads the rest of a code that is longer than 8 bits, one bit at a time.
/// `c` is the code so far, of length `l - 1`.
pub open spec fn read_long_symbol(src: Seq<u8>, s: BitState, book: CodeBook, c: int, l: int) -> (BitState, Result<u8>)
    decreases 17 - l,
{
    if l > 16 {
        (s, Err(DecodeError::Malformed("invalid huffman code (>16 bits)")))
    } else {
        let f = ensure_bits(src, s, 1);
        if f.ok {
            let next = 2 * c + f.st.top(1);
            if book.is_code(l, next) {
                (f.st.drop(1), Ok(book.symbol(l, next)))
            } else {
                read_long_symbol(src, f.st.drop(1), book, next, l + 1)
            }
        } else {
            (f.st, Err(DecodeError::UnexpectedEof))
        }
    }
}

/// Reads one Huffman symbol.
pub open spec fn read_symbol(src: Seq<u8>, s: BitState, book: CodeBook) -> (BitState, Result<u8>) {
    let f = ensure_bits(src, s, 8);
    if f.ok {
        let key = f.st.top(8);
        match book.prefix_length(key, 8, 1) {
            Some(l) => (f.st.drop(l), Ok(book.symbol(l, key / pow2((8 - l) as nat) as int))),
            None => read_long_symbol(src, f.st.drop(8), book, key, 9),
        }
    } else {
        (f.st, Err(DecodeError::UnexpectedEof))
    }
}

/// Most-significant-first bit reader over an entropy-coded segment.
pub struct BitReader<'a> {
    src: &'a [u8],
    pos: usize,
    buf: u64,
    nbits: u32,
    marker: Option<u8>,
}

impl<'a> View for BitReader<'a> {
    type V = BitState;

    closed spec fn view(&self) -> BitState {
        BitState { pos: self.pos as int, buf: self.buf as int, nbits: self.nbits as int, marker: self.marker }
    }
}

impl<'a> BitReader<'a> {
    /// The data that the reader runs over.
    pub closed spec fn data(&self) -> Seq<u8> {
        self.src@
    }

    /// The buffer holds no more than it says.
    pub open spec fn inv(&self) -> bool {
        &&& 0 <= self@.nbits <= 64
        &&& 0 <= self@.buf < pow2(self@.nbits as nat)
        &&& self@.pos >= 0
    }

    /// A reader that starts at byte `pos` of `src`.
    pub fn new(src: &'a [u8], pos: usize) -> (r: Self)
        ensures
            r.inv(),
            r.data() == src@,
            r@ == (BitState { pos: pos as int, buf: 0, nbits: 0, marker: None }),
    {
        proof {
            lemma2_to64();
        }
        BitReader { src, pos, buf: 0, nbits: 0, marker: None }
    }

    /// The next byte to fetch.
    pub fn pos(&self) -> (r: usize)
        ensures
            r == self@.pos,
    {
        self.pos
    }

    /// The marker that ended the entropy-coded data, if one was met.
    pub fn marker(&self) -> (r: Option<u8>)
        ensures
            r == self@.marker,
    {
        self.marker
    }

    /// Discards the bits that are fetched but not consumed.
    pub fn reset_bit_buffer(&mut self)
        requires
            old(self).inv(),
        ensures
            final(self).inv(),
            final(self).data() == old(self).data(),
            final(self)@ == (BitState { buf: 0, nbits: 0, ..old(self)@ }),
    {
        proof {
            lemma2_to64();
        }
        self.buf = 0;
        self.nbits = 0;
    }

    /// Forgets the marker, so that the reader goes on with the next byte.
    pub fn clear_marker(&mut self)
        requires
            old(self).inv(),
        ensures
            final(self).inv(),
            final(self).data() == old(self).data(),
            final(self)@ == (BitState { marker: None, ..old(self)@ }),
    {
        self.marker = None;
    }

    /// Refills the buffer to at least `need` bits.
    fn fill(&mut self, need: u32) -> (r: Result<()>)
        requires
            old(self).inv(),
            need <= 32,
        ensures
            final(self).inv(),
            final(self).data() == old(self).data(),
            final(self)@ == refill(old(self).data(), old(self)@, need as int).st,
            r is Ok == refill(old(self).data(), old(self)@, need as int).ok,
            r is Ok ==> final(self)@.nbits >= need,
            r matches Err(e) ==> e == DecodeError::UnexpectedEof,
    {
        let ghost src = self.data();
        let ghost target = refill(src, self@, need as int);
        let len: usize = self.src.len();
        if self.marker.is_none() && self.nbits <= 32 && len >= 4 && self.pos <= len - 4 {
            let b0 = self.src[self.pos];
            let b1 = self.src[self.pos + 1];
            let b2 = self.src[self.pos + 2];
            let b3 = self.src[self.pos + 3];
            if b0 != 0xFF && b1 != 0xFF && b2 != 0xFF && b3 != 0xFF {
                let chunk: u64 = (b0 as u64) * 0x100_0000 + (b1 as u64) * 0x1_0000 + (b2 as u64) * 0x100 + (
                b3 as u64);
                proof {
                    lemma2_to64();
                    lemma_push_fits(self.buf as int, self.nbits as int, 32, chunk as int);
                }
                self.buf = self.buf * 0x1_0000_0000 + chunk;
                self.nbits = self.nbits + 32;
                self.pos = self.pos + 4;
            }
        }
        while self.nbits < need
            invariant
                self.inv(),
                self.data() == src,
                src == old(self).data(),
                target == refill(old(self).data(), old(self)@, need as int),
                need <= 32,
                len == src.len(),
                fetch_until(src, self@, need as int) == target,
            decreases (if need > self.nbits { need - self.nbits } else { 0 }),
        {
            proof {
                lemma2_to64();
                if self.nbits < 31 {
                    lemma_pow2_strictly_increases(self.nbits as nat, 31);
                }
            }
            if self.marker.is_some() {
                proof {
                    lemma_push_fits(self.buf as int, self.nbits as int, 8, 0);
                }
                self.buf = self.buf * 256;
                self.nbits = self.nbits + 8;
            } else {
                if self.pos >= len {
                    return Err(DecodeError::UnexpectedEof);
                }
                let b = self.src[self.pos];
                self.pos = self.pos + 1;
                if b == 0xFF {
                    if self.pos >= len {
                        return Err(DecodeError::UnexpectedEof);
                    }
                    let next = self.src[self.pos];
                    self.pos = self.pos + 1;
                    if next == 0x00 {
                        proof {
                            lemma_push_fits(self.buf as int, self.nbits as int, 8, 0xFF);
                        }
                        self.buf = self.buf * 256 + 0xFF;
                        self.nbits = self.nbits + 8;
                    } else {
                        proof {
                            lemma_push_fits(self.buf as int, self.nbits as int, 8, 0);
                        }
                        self.marker = Some(next);
                        self.buf = self.buf * 256;
                        self.nbits = self.nbits + 8;
                    }
                } else {
                    proof {
                        lemma_push_fits(self.buf as int, self.nbits as int, 8, b as int);
                    }
                    self.buf = self.buf * 256 + b as u64;
                    self.nbits = self.nbits + 8;
                }
            }
        }
        Ok(())
    }

    /// Refills the buffer if it holds fewer than `need` bits.
    fn ensure(&mut self, need: u32) -> (r: Result<()>)
        requires
            old(self).inv(),
            need <= 32,
        ensures
            final(self).inv(),
            final(self).data() == old(self).data(),
            final(self)@ == ensure_bits(old(self).data(), old(self)@, need as int).st,
            r is Ok == ensure_bits(old(self).data(), old(self)@, need as int).ok,
            r is Ok ==> final(self)@.nbits >= need,
            r matches Err(e) ==> e == DecodeError::UnexpectedEof,
    {
        if self.nbits < need {
            self.fill(need)
        } else {
            Ok(())
        }
    }

    /// The next `n` bits, without consuming them.
    fn peek_bits(&self, n: u32) -> (v: u32)
        requires
            self.inv(),
            1 <= n <= 16,
            n <= self@.nbits,
        ensures
            v == self@.top(n as int),
            v < pow2(n as nat),
    {
        proof {
            vstd::bits::lemma_u64_shr_is_div(self.buf, (self.nbits - n) as u64);
            lemma_top_bound(self@, n as int);
            lemma2_to64();
            if n < 16 {
                lemma_pow2_strictly_increases(n as nat, 16);
            }
        }
        (self.buf >> ((self.nbits - n) as u64)) as u32
    }

    /// Consumes `n` bits.
    fn drop_bits(&mut self, n: u32)
        requires
            old(self).inv(),
            1 <= n <= old(self)@.nbits,
        ensures
            final(self).inv(),
            final(self).data() == old(self).data(),
            final(self)@ == old(self)@.drop(n as int),
    {
        self.nbits = self.nbits - n;
        proof {
            lemma_pow2_pos(self.nbits as nat);
            lemma2_to64();
            vstd::bits::lemma_u64_pow2_no_overflow(self.nbits as nat);
            vstd::bits::lemma_u64_shl_is_mul(1, self.nbits as u64);
        }
        let unit: u64 = 1u64 << (self.nbits as u64);
        self.buf = self.buf % unit;
    }

    /// Reads `n` bits, most significant first.
    pub fn get_bits(&mut self, n: u32) -> (r: Result<u32>)
        requires
            old(self).inv(),
            1 <= n <= 16,
        ensures
            final(self).inv(),
            final(self).data() == old(self).data(),
            (final(self)@, r) == read_bits(old(self).data(), old(self)@, n as int),
            r matches Ok(v) ==> v < pow2(n as nat),
    {
        match self.ensure(n) {
            Ok(_) => {
                let v = self.peek_bits(n);
                self.drop_bits(n);
                Ok(v)
            },
            Err(e) => Err(e),
        }
    }

    /// Reads one bit.
    pub fn get_bit(&mut self) -> (r: Result<u32>)
        requires
            old(self).inv(),
        ensures
            final(self).inv(),
            final(self).data() == old(self).data(),
            (final(self)@, r) == read_bits(old(self).data(), old(self)@, 1),
            r matches Ok(v) ==> v < 2,
    {
        proof {
            lemma2_to64();
        }
        self.get_bits(1)
    }
}

/// Appending bits to a buffer keeps it within its number of bits.
proof fn lemma_push_fits(buf: int, nbits: int, count: nat, v: int)
    requires
        0 <= nbits,
        0 <= buf < pow2(nbits as nat),
        0 <= v < pow2(count),
        nbits + count <= 64,
    ensures
        0 <= buf * pow2(count) + v < pow2((nbits + count) as nat),
        pow2((nbits + count) as nat) <= 0x1_0000_0000_0000_0000,
        count == 8 ==> pow2(count) == 256,
        count == 32 ==> pow2(count) == 0x1_0000_0000,
{
    lemma2_to64();
    lemma_pow2_adds(nbits as nat, count);
    let a = pow2(nbits as nat) as int;
    let c = pow2(count) as int;
    assert(0 <= buf * c + v < a * c) by (nonlinear_arith)
        requires
            0 <= buf < a,
            0 <= v < c,
    ;
    if nbits + count < 64 {
        lemma_pow2_strictly_increases((nbits + count) as nat, 64);
    }
}

/// The next `n` bits are an `n`-bit number.
pub proof fn lemma_top_bound(s: BitState, n: int)
    requires
        0 <= n <= s.nbits,
        0 <= s.buf < pow2(s.nbits as nat),
    ensures
        0 <= s.top(n) < pow2(n as nat),
{
    let p = pow2((s.nbits - n) as nat) as int;
    let q = pow2(n as nat) as int;
    lemma_pow2_pos((s.nbits - n) as nat);
    lemma_pow2_adds(n as nat, (s.nbits - n) as nat);
    let b = s.buf;
    assert(0 <= b / p < q) by (nonlinear_arith)
        requires
            p > 0,
            0 <= b < q * p,
    ;
}

impl CodeBook {
    /// The first `width`-bit number that begins with a code of length `l`
    /// or more.
    pub open spec fn region_start(self, width: int, l: int) -> int {
        self.first_code(l) * pow2((width - l) as nat)
    }

    /// The first `width`-bit number past those that begin with a code of
    /// length `l` or less.
    pub open spec fn region_end(self, width: int, l: int) -> int {
        (self.first_code(l) + self.count(l)) * pow2((width - l) as nat)
    }

    /// Codes are not negative, and 24 bits hold them.
    pub proof fn lemma_code_bound(self, l: int)
        requires
            1 <= l <= 17,
            self.bits.len() == 16,
        ensures
            0 <= self.first_code(l) <= 255 * pow2(l as nat) - 510,
            self.first_code(l) < 0x400_0000,
            0 <= self.offset(l) <= 255 * (l - 1),
        decreases l,
    {
        lemma2_to64();
        if l > 1 {
            self.lemma_code_bound(l - 1);
            lemma_pow2_unfold(l as nat);
        }
        if l < 17 {
            lemma_pow2_strictly_increases(l as nat, 17);
        }
    }

    /// Offsets do not depend on the symbols.
    pub proof fn lemma_offset_of_bits(self, values: Seq<u8>, l: int)
        ensures
            self.offset(l) == (CodeBook { bits: self.bits, values }).offset(l),
        decreases l,
    {
        if l > 1 {
            self.lemma_offset_of_bits(values, l - 1);
        }
    }

    /// Offsets grow with the length.
    proof fn lemma_offset_monotonic(self, a: int, b: int)
        requires
            1 <= a <= b <= 17,
            self.bits.len() == 16,
        ensures
            self.offset(a) <= self.offset(b),
        decreases b - a,
    {
        if a < b {
            self.lemma_offset_monotonic(a, b - 1);
        }
    }

    /// The codes of length `l + 1` follow those of length `l` immediately.
    proof fn lemma_regions_adjoin(self, width: int, l: int)
        requires
            1 <= l < width,
        ensures
            self.region_end(width, l) == self.region_start(width, l + 1),
    {
        lemma_pow2_unfold((width - l) as nat);
        let f = self.first_code(l) + self.count(l);
        let p = pow2((width - l - 1) as nat) as int;
        assert(f * (2 * p) == (2 * f) * p) by (nonlinear_arith);
    }

    /// Regions of longer codes lie above those of shorter ones.
    proof fn lemma_regions_ascend(self, width: int, a: int, b: int)
        requires
            1 <= a < b <= width <= 16,
            self.bits.len() == 16,
        ensures
            self.region_end(width, a) <= self.region_start(width, b),
        decreases b - a,
    {
        self.lemma_regions_adjoin(width, a);
        if a + 1 < b {
            self.lemma_regions_ascend(width, a + 1, b);
            let f = self.first_code(a + 1);
            let c = self.count(a + 1);
            let p = pow2((width - a - 1) as nat) as int;
            assert(f * p <= (f + c) * p) by (nonlinear_arith)
                requires
                    c >= 0,
                    p >= 0,
            ;
        }
    }

    /// Whether a number begins with a code of length `l` can be read off
    /// its position among the regions.
    proof fn lemma_is_code_region(self, key: int, width: int, l: int)
        requires
            1 <= l <= width,
        ensures
            self.is_code(l, key / pow2((width - l) as nat) as int) == (self.region_start(width, l) <= key
                < self.region_end(width, l)),
    {
        let p = pow2((width - l) as nat) as int;
        lemma_pow2_pos((width - l) as nat);
        lemma_quotient_at_least(key, p, self.first_code(l));
        lemma_quotient_at_least(key, p, self.first_code(l) + self.count(l));
    }

    /// A number in the region of length `l` begins with a code of length
    /// `l` and with no shorter one.
    proof fn lemma_prefix_found(self, key: int, width: int, l: int, from: int)
        requires
            1 <= from <= l <= width <= 16,
            self.bits.len() == 16,
            self.region_start(width, l) <= key < self.region_end(width, l),
        ensures
            self.prefix_length(key, width, from) == Some(l),
        decreases l - from,
    {
        self.lemma_is_code_region(key, width, from);
        if from < l {
            self.lemma_regions_ascend(width, from, l);
            self.lemma_prefix_found(key, width, l, from + 1);
        }
    }

    /// A number past all regions begins with no code.
    proof fn lemma_prefix_missing(self, key: int, width: int, from: int)
        requires
            1 <= from <= width + 1 <= 17,
            self.bits.len() == 16,
            self.region_end(width, width) <= key,
        ensures
            self.prefix_length(key, width, from) == None::<int>,
        decreases width + 1 - from,
    {
        if from <= width {
            self.lemma_is_code_region(key, width, from);
            if from < width {
                self.lemma_regions_ascend(width, from, width);
                let f = self.first_code(width);
                let c = self.count(width);
                let p = pow2((width - width) as nat) as int;
                assert(f * p <= (f + c) * p) by (nonlinear_arith)
                    requires
                        c >= 0,
                        p >= 0,
                ;
            }
            self.lemma_prefix_missing(key, width, from + 1);
        }
    }

    /// What `prefix_length` finds is a code, and a number of the region of
    /// its length.
    proof fn lemma_prefix_is_code(self, key: int, width: int, from: int)
        requires
            1 <= from,
        ensures
            self.prefix_length(key, width, from) matches Some(l) ==> from <= l <= width && self.is_code(
                l,
                key / pow2((width - l) as nat) as int,
            ),
        decreases width + 1 - from,
    {
        if from <= width && !self.is_code(from, key / pow2((width - from) as nat) as int) {
            self.lemma_prefix_is_code(key, width, from + 1);
        }
    }
}

/// `c <= x / p` is `c * p <= x`.
proof fn lemma_quotient_at_least(x: int, p: int, c: int)
    requires
        p > 0,
    ensures
        (c <= x / p) == (c * p <= x),
{
    lemma_fundamental_div_mod(x, p);
    let q = x / p;
    let r = x % p;
    if c <= q {
        assert(c * p <= x) by (nonlinear_arith)
            requires
                x == p * q + r,
                r >= 0,
                c <= q,
                p > 0,
        ;
    } else {
        assert(c * p > x) by (nonlinear_arith)
            requires
                x == p * q + r,
                r < p,
                c >= q + 1,
                p > 0,
        ;
    }
}

/// `sizes` and `codes` list the length and the code of every symbol of the
/// code, in canonical order.
pub open spec fn canonical(book: CodeBook, sizes: Seq<u8>, codes: Seq<u32>) -> bool {
    &&& sizes.len() == book.offset(17)
    &&& codes.len() == book.offset(17)
    &&& forall|l: int, k: int|
        1 <= l <= 16 && 0 <= k < book.count(l) ==> #[trigger] canonical_at(book, sizes, codes, l, k)
}

/// Entry `k` among the codes of length `l`.
pub open spec fn canonical_at(book: CodeBook, sizes: Seq<u8>, codes: Seq<u32>, l: int, k: int) -> bool {
    &&& sizes[book.offset(l) + k] == l
    &&& codes[book.offset(l) + k] == book.first_code(l) + k
}

/// What is wrong with the counts and symbols of a table, if anything.
pub open spec fn count_error(book: CodeBook) -> Option<DecodeError> {
    if book.values.len() != book.offset(17) {
        Some(DecodeError::Malformed("DHT bits/values mismatch"))
    } else if book.values.len() == 0 {
        Some(DecodeError::Malformed("empty DHT table"))
    } else {
        None
    }
}

/// Expands a table into the length and the canonical code of each symbol.
fn build_canonical_huffman(spec: &HuffmanTableSpec) -> (r: Result<(Vec<u8>, Vec<u32>)>)
    ensures
        match count_error(spec.book()) {
            Some(e) => r == Err::<(Vec<u8>, Vec<u32>), DecodeError>(e),
            None => r matches Ok(sc) && spec.book().complete() && canonical(spec.book(), sc.0@, sc.1@),
        },
{
    let mut huffsize: Vec<u8> = Vec::new();
    let mut huffcode: Vec<u32> = Vec::new();
    let mut code: u32 = 0;
    let ghost book = spec.book();
    for l_idx in 0..16usize
        invariant
            book == spec.book(),
            huffsize@.len() == book.offset(l_idx + 1),
            huffcode@.len() == book.offset(l_idx + 1),
            code == book.first_code(l_idx + 1),
            forall|l: int, k: int|
                1 <= l <= l_idx && 0 <= k < book.count(l) ==> #[trigger] canonical_at(
                    book,
                    huffsize@,
                    huffcode@,
                    l,
                    k,
                ),
    {
        let count = spec.bits[l_idx];
        let ghost l_now = l_idx + 1;
        proof {
            book.lemma_code_bound(l_now);
        }
        for n in 0..count
            invariant
                l_now == l_idx + 1,
                1 <= l_now <= 16,
                book == spec.book(),
                count == book.count(l_now),
                huffsize@.len() == book.offset(l_now) + n,
                huffcode@.len() == book.offset(l_now) + n,
                code == book.first_code(l_now) + n,
                0 <= book.first_code(l_now) < 0x400_0000,
                0 <= book.offset(l_now),
                forall|l: int, k: int|
                    (1 <= l < l_now && 0 <= k < book.count(l)) || (l == l_now && 0 <= k < n)
                        ==> #[trigger] canonical_at(book, huffsize@, huffcode@, l, k),
        {
            let ghost sizes0 = huffsize@;
            let ghost codes0 = huffcode@;
            huffsize.push((l_idx + 1) as u8);
            huffcode.push(code);
            code = code + 1;
            assert forall|l: int, k: int|
                (1 <= l < l_now && 0 <= k < book.count(l)) || (l == l_now && 0 <= k
                    < n + 1) implies #[trigger] canonical_at(book, huffsize@, huffcode@, l, k) by {
                if !(l == l_now && k == n) {
                    assert(canonical_at(book, sizes0, codes0, l, k));
                    book.lemma_code_bound(l);
                    if l < l_now {
                        book.lemma_offset_monotonic(l + 1, l_now);
                    }
                }
            }
        }
        code = code * 2;
    }
    if huffsize.len() != spec.values.len() {
        return Err(DecodeError::Malformed("DHT bits/values mismatch"));
    }
    if huffsize.len() == 0 {
        return Err(DecodeError::Malformed("empty DHT table"));
    }
    Ok((huffsize, huffcode))
}

/// Lookup table for one Huffman code.
pub struct HuffmanDecodeTable {
    /// Indexed by the next 8 bits: `(length << 8) | symbol`, or 0 where no
    /// code of up to 8 bits begins them.
    pub look: [u16; 256],
    /// The largest code of each length, or `i32::MIN` where there is none.
    max_code: [i32; 17],
    /// For each length, what to add to a code to get its symbol's index.
    val_offset: [i32; 17],
    /// Symbols in order of increasing code.
    values: Vec<u8>,
    /// Number of codes of each length.
    bits: Ghost<Seq<u8>>,
}

/// Entry of the 8-bit lookup table for `key`.
pub open spec fn look_entry(book: CodeBook, key: int) -> int {
    match book.prefix_length(key, 8, 1) {
        Some(l) => 256 * l + book.symbol(l, key / pow2((8 - l) as nat) as int),
        None => 0,
    }
}

impl HuffmanDecodeTable {
    /// The code that the table decodes.
    pub closed spec fn book(&self) -> CodeBook {
        CodeBook { bits: self.bits@, values: self.values@ }
    }

    /// The lookup tables are those of the code.
    pub closed spec fn wf(&self) -> bool {
        let book = self.book();
        &&& book.complete()
        &&& book.short_codes_fit()
        &&& forall|key: int| 0 <= key < 256 ==> #[trigger] self.look[key] == look_entry(book, key)
        &&& forall|l: int|
            1 <= l <= 16 ==> #[trigger] self.max_code[l] == if book.count(l) > 0 {
                book.first_code(l) + book.count(l) - 1
            } else {
                i32::MIN as int
            }
        &&& forall|l: int|
            1 <= l <= 16 && book.count(l) > 0 ==> #[trigger] self.val_offset[l] == book.offset(l)
                - book.first_code(l)
    }

    /// Builds the lookup tables for a code.
    pub fn from_spec(spec: &HuffmanTableSpec) -> (r: Result<Self>)
        ensures
            match decode_table_error(spec.book()) {
                Some(e) => r == Err::<HuffmanDecodeTable, DecodeError>(e),
                None => r matches Ok(t) && t.wf() && t.book() == spec.book(),
            },
    {
        let ghost book = spec.book();
        let (_huffsize, huffcode) = match build_canonical_huffman(spec) {
            Ok(sc) => sc,
            Err(e) => {
                return Err(e);
            },
        };
        let mut look: [u16; 256] = [0u16; 256];
        let mut p_fast: usize = 0;
        proof {
            lemma2_to64();
            assert(0 * pow2(7) == 0);
        }
        for l_idx in 0..8usize
            invariant
                book == spec.book(),
                book.complete(),
                canonical(book, _huffsize@, huffcode@),
                count_error(book) is None,
                p_fast == book.offset(l_idx + 1),
                0 <= (if l_idx < 8 { book.region_start(8, l_idx + 1) } else { book.region_end(8, 8) }) <= 256,
                forall|key: int|
                    0 <= key < 256 && key < (if l_idx < 8 {
                        book.region_start(8, l_idx + 1)
                    } else {
                        book.region_end(8, 8)
                    }) ==> #[trigger] look@[key] == look_entry(book, key),
                forall|key: int|
                    0 <= key < 256 && key >= (if l_idx < 8 {
                        book.region_start(8, l_idx + 1)
                    } else {
                        book.region_end(8, 8)
                    }) ==> #[trigger] look@[key] == 0,
        {
            let ghost l = l_idx + 1;
            let width: u32 = (7 - l_idx) as u32;
            proof {
                lemma_pow2_pos(width as nat);
                lemma2_to64();
                if width < 7 {
                    lemma_pow2_strictly_increases(width as nat, 7);
                }
                vstd::bits::lemma_u32_shl_is_mul(1, width);
                book.lemma_code_bound(l);
                book.lemma_offset_monotonic(l + 1, 17);
            }
            let span: u32 = 1u32 << width;
            assert(span == pow2((8 - l) as nat));
            let count = spec.bits[l_idx];
            for n in 0..count
                invariant
                    count == book.count(l),
                    l == l_idx + 1,
                    1 <= l <= 8,
                    book == spec.book(),
                    book.complete(),
                    canonical(book, _huffsize@, huffcode@),
                    count_error(book) is None,
                    span == pow2((8 - l) as nat),
                    1 <= span <= 128,
                    0 <= book.first_code(l) < 0x400_0000,
                    book.offset(l + 1) <= book.values.len(),
                    p_fast == book.offset(l) + n,
                    0 <= book.offset(l) <= 255 * 15,
                    (book.first_code(l) + n) * span <= 256,
                    forall|key: int|
                        0 <= key < 256 && key < (book.first_code(l) + n) * span ==> #[trigger] look@[key]
                            == look_entry(book, key),
                    forall|key: int|
                        0 <= key < 256 && key >= (book.first_code(l) + n) * span ==> #[trigger] look@[key] == 0,
            {
                assert(canonical_at(book, _huffsize@, huffcode@, l, n as int));
                let code = huffcode[p_fast];
                let sym = spec.values[p_fast];
                proof {
                    lemma2_to64();
                    lemma_aligned(code as int, l, 8);
                    book.lemma_short_codes(l, n as int);
                }
                if code >= 256 / span {
                    return Err(DecodeError::Malformed("oversubscribed DHT table"));
                }
                let base: u32 = code * span;
                let entry: u16 = ((l_idx + 1) as u16) * 256 + sym as u16;
                proof {
                    assert((code + 1) * span == base + span) by (nonlinear_arith)
                        requires
                            base == code * span,
                    ;
                    assert forall|key: int| base <= key < base + span implies look_entry(book, key) == entry by {
                        book.lemma_slot(key, 8, l, n as int);
                    }
                }
                for j in 0..span
                    invariant
                        base + span <= 256,
                        forall|key: int|
                            0 <= key < 256 && key < base + j ==> #[trigger] look@[key] == look_entry(
                                book,
                                key,
                            ),
                        forall|key: int| base + j <= key < 256 ==> #[trigger] look@[key] == 0,
                        forall|key: int| base <= key < base + span ==> look_entry(book, key) == entry,
                {
                    look[(base + j) as usize] = entry;
                }
                p_fast = p_fast + 1;
                assert((book.first_code(l) + n + 1) * span == base + span) by (nonlinear_arith)
                    requires
                        base == code * span,
                        code == book.first_code(l) + n,
                ;
            }
            proof {
                if l < 8 {
                    book.lemma_regions_adjoin(8, l);
                }
            }
        }
        proof {
            lemma2_to64();
            assert(book.region_end(8, 8) == (book.first_code(8) + book.count(8)) * 1);
            assert forall|key: int| 0 <= key < 256 implies #[trigger] look@[key] == look_entry(book, key) by {
                if key >= book.region_end(8, 8) {
                    book.lemma_prefix_missing(key, 8, 1);
                }
            }
        }
        let mut max_code: [i32; 17] = [i32::MIN; 17];
        let mut val_offset: [i32; 17] = [0i32; 17];
        let mut p_slow: usize = 0;
        for l_idx in 0..16usize
            invariant
                book == spec.book(),
                book.complete(),
                canonical(book, _huffsize@, huffcode@),
                p_slow == book.offset(l_idx + 1),
                forall|l: int|
                    1 <= l <= 16 ==> #[trigger] max_code@[l] == if l <= l_idx && book.count(l) > 0 {
                        book.first_code(l) + book.count(l) - 1
                    } else {
                        i32::MIN as int
                    },
                forall|l: int|
                    1 <= l <= l_idx && book.count(l) > 0 ==> #[trigger] val_offset@[l] == book.offset(l)
                        - book.first_code(l),
        {
            let ghost l = l_idx + 1;
            let cnt: usize = spec.bits[l_idx] as usize;
            proof {
                book.lemma_code_bound(l);
                book.lemma_offset_monotonic(l + 1, 17);
            }
            if cnt > 0 {
                assert(canonical_at(book, _huffsize@, huffcode@, l, 0));
                assert(canonical_at(book, _huffsize@, huffcode@, l, cnt - 1));
                val_offset[l_idx + 1] = (p_slow as i32) - (huffcode[p_slow] as i32);
                p_slow = p_slow + cnt;
                max_code[l_idx + 1] = huffcode[p_slow - 1] as i32;
            }
        }
        let values = clone_bytes(&spec.values);
        let t = HuffmanDecodeTable { look, max_code, val_offset, values, bits: Ghost(spec.bits@) };
        assert(t.book() == book);
        Ok(t)
    }
}

/// What is wrong with a table for [`HuffmanDecodeTable`], if anything. A
/// code of up to 8 bits that does not fit in its length has no place in
/// the lookup table.
pub open spec fn decode_table_error(book: CodeBook) -> Option<DecodeError> {
    match count_error(book) {
        Some(e) => Some(e),
        None => if book.short_codes_fit() {
            None
        } else {
            Some(DecodeError::Malformed("oversubscribed DHT table"))
        },
    }
}

/// Copies a byte vector.
pub fn clone_bytes(v: &Vec<u8>) -> (r: Vec<u8>)
    ensures
        r@ == v@,
{
    let mut r: Vec<u8> = Vec::new();
    let mut i: usize = 0;
    while i < v.len()
        invariant
            i <= v@.len(),
            r@ == v@.subrange(0, i as int),
        decreases v@.len() - i,
    {
        r.push(v[i]);
        i = i + 1;
        assert(r@ =~= v@.subrange(0, i as int));
    }
    assert(r@ =~= v@);
    r
}

/// A code that fits in `l` bits takes an aligned stretch of `width`-bit
/// numbers.
proof fn lemma_aligned(code: int, l: int, width: int)
    requires
        0 <= l <= width,
        0 <= code,
    ensures
        pow2(width as nat) as int / pow2((width - l) as nat) as int == pow2(l as nat),
        code < pow2(l as nat) ==> (code + 1) * pow2((width - l) as nat) <= pow2(width as nat),
        code >= pow2(l as nat) ==> code * pow2((width - l) as nat) >= pow2(width as nat),
{
    let p = pow2((width - l) as nat) as int;
    let q = pow2(l as nat) as int;
    lemma_pow2_pos((width - l) as nat);
    lemma_pow2_adds(l as nat, (width - l) as nat);
    assert(pow2(width as nat) == q * p);
    vstd::arithmetic::div_mod::lemma_div_multiples_vanish(q, p);
    assert(p * q == q * p) by (nonlinear_arith);
    if code < q {
        assert((code + 1) * p <= q * p) by (nonlinear_arith)
            requires
                code + 1 <= q,
                p >= 0,
        ;
    } else {
        assert(code * p >= q * p) by (nonlinear_arith)
            requires
                code >= q,
                p >= 0,
        ;
    }
}

impl CodeBook {
    /// A code of up to 8 bits that does not fit in its length pushes the
    /// 8-bit codes past 256.
    proof fn lemma_short_codes(self, l: int, k: int)
        requires
            1 <= l <= 8,
            0 <= k < self.count(l),
            self.bits.len() == 16,
        ensures
            self.first_code(l) + k >= pow2(l as nat) ==> !self.short_codes_fit(),
    {
        lemma2_to64();
        self.lemma_code_bound(l);
        if self.first_code(l) + k >= pow2(l as nat) {
            let c = self.first_code(l) + k;
            let p = pow2((8 - l) as nat) as int;
            lemma_pow2_pos((8 - l) as nat);
            lemma_aligned(c, l, 8);
            assert(self.region_end(8, l) > 256) by (nonlinear_arith)
                requires
                    c * p >= 256,
                    p > 0,
                    self.region_end(8, l) == (self.first_code(l) + self.count(l)) * p,
                    c < self.first_code(l) + self.count(l),
            ;
            if l < 8 {
                self.lemma_regions_ascend(8, l, 8);
            }
            assert(self.region_start(8, 8) == self.first_code(8) * 1);
            assert(self.region_end(8, 8) == (self.first_code(8) + self.count(8)) * 1);
        }
    }

    /// The numbers that begin with entry `k` among the codes of length
    /// `l` are looked up as that code.
    proof fn lemma_slot(self, key: int, width: int, l: int, k: int)
        requires
            1 <= l <= width <= 16,
            0 <= k < self.count(l),
            self.bits.len() == 16,
            (self.first_code(l) + k) * pow2((width - l) as nat) <= key,
            key < (self.first_code(l) + k + 1) * pow2((width - l) as nat),
        ensures
            self.prefix_length(key, width, 1) == Some(l),
            key / pow2((width - l) as nat) as int == self.first_code(l) + k,
    {
        let p = pow2((width - l) as nat) as int;
        let c = self.first_code(l) + k;
        lemma_pow2_pos((width - l) as nat);
        lemma_quotient_at_least(key, p, c);
        lemma_quotient_at_least(key, p, c + 1);
        self.lemma_is_code_region(key, width, l);
        self.lemma_prefix_found(key, width, l, 1);
    }
}

impl CodeBook {
    /// A number that begins with no code lies past all regions.
    proof fn lemma_no_prefix_is_high(self, key: int, width: int, from: int)
        requires
            1 <= from <= width <= 16,
            self.prefix_length(key, width, from) is None,
            key >= self.region_start(width, from),
        ensures
            key >= self.region_end(width, width),
        decreases width - from,
    {
        self.lemma_is_code_region(key, width, from);
        if from < width {
            self.lemma_regions_adjoin(width, from);
            self.lemma_no_prefix_is_high(key, width, from + 1);
        }
    }
}

impl<'a> BitReader<'a> {
    /// Decodes one Huffman symbol.
    pub fn decode_symbol(&mut self, tbl: &HuffmanDecodeTable) -> (r: Result<u8>)
        requires
            old(self).inv(),
            tbl.wf(),
        ensures
            final(self).inv(),
            final(self).data() == old(self).data(),
            (final(self)@, r) == read_symbol(old(self).data(), old(self)@, tbl.book()),
    {
        let ghost src = self.data();
        let ghost book = tbl.book();
        let ghost target = read_symbol(src, self@, book);
        match self.ensure(8) {
            Ok(_) => {},
            Err(e) => {
                return Err(e);
            },
        }
        let key = self.peek_bits(8);
        proof {
            lemma2_to64();
            book.lemma_prefix_is_code(key as int, 8, 1);
        }
        let entry = tbl.look[key as usize];
        if entry != 0 {
            let length: u32 = (entry / 256) as u32;
            let symbol: u8 = (entry % 256) as u8;
            self.drop_bits(length);
            return Ok(symbol);
        }
        self.drop_bits(8);
        let mut code: i32 = key as i32;
        let mut l: usize = 9;
        proof {
            assert(book.region_start(8, 1) == 0 * pow2(7));
            book.lemma_no_prefix_is_high(key as int, 8, 1);
            assert(book.region_end(8, 8) == (book.first_code(8) + book.count(8)) * 1);
        }
        while l <= 16
            invariant
                self.inv(),
                self.data() == src,
                src == old(self).data(),
                book == tbl.book(),
                tbl.wf(),
                target == read_symbol(old(self).data(), old(self)@, book),
                9 <= l <= 17,
                read_long_symbol(src, self@, book, code as int, l as int) == target,
                book.first_code(l - 1) + book.count(l - 1) <= code < pow2((l - 1) as nat),
                code >= 0,
            decreases 17 - l,
        {
            match self.ensure(1) {
                Ok(_) => {},
                Err(e) => {
                    return Err(e);
                },
            }
            proof {
                lemma2_to64();
                lemma_pow2_unfold(l as nat);
                if l < 16 {
                    lemma_pow2_strictly_increases(l as nat, 16);
                }
                book.lemma_code_bound(l as int);
                book.lemma_offset_monotonic(l + 1, 17);
            }
            let bit = self.peek_bits(1);
            code = code * 2 + bit as i32;
            self.drop_bits(1);
            if code <= tbl.max_code[l] {
                let index: usize = (code + tbl.val_offset[l]) as usize;
                return Ok(tbl.values[index]);
            }
            l = l + 1;
        }
        Err(DecodeError::Malformed("invalid huffman code (>16 bits)"))
    }
}

/// Width in bits of the key of the combined AC lookup.
pub const FAST_AC_PEEK_WIDTH: u32 = 10;

/// Width in bits of the key of the combined DC lookup.
pub const FAST_DC_PEEK_WIDTH: u32 = 10;

/// The symbol that a 10-bit key begins with, and the length of its code.
pub open spec fn key_symbol(book: CodeBook, key: int) -> Option<(int, u8)> {
    match book.prefix_length(key, 10, 1) {
        Some(l) => Some((l, book.symbol(l, key / pow2((10 - l) as nat) as int))),
        None => None,
    }
}

/// Run, size and total length of the AC term that a 10-bit key begins
/// with, where its code and its magnitude bits both fit in the key.
pub open spec fn fast_ac_term(book: CodeBook, key: int) -> Option<(int, int, int)> {
    match key_symbol(book, key) {
        Some((l, sym)) => if l + sym % 16 <= 10 {
            Some((sym as int / 16, sym as int % 16, l + sym as int % 16))
        } else {
            None
        },
        None => None,
    }
}

/// Size and total length of the DC term that a 10-bit key begins with,
/// where its code and its magnitude bits both fit in the key.
pub open spec fn fast_dc_term(book: CodeBook, key: int) -> Option<(int, int)> {
    match key_symbol(book, key) {
        Some((l, sym)) => if l + sym <= 10 {
            Some((sym as int, l + sym as int))
        } else {
            None
        },
        None => None,
    }
}

/// One entry of the combined AC lookup, packed: run in bits 0 to 7, size
/// in bits 8 to 15, total length in bits 16 to 23, and a valid flag in
/// bit 24.
#[derive(Clone, Copy)]
pub struct FastAcEntry(u32);

impl FastAcEntry {
    /// The packed value.
    pub closed spec fn packed(self) -> int {
        self.0 as int
    }

    fn new(run: u8, size: u8, total_consumed: u8) -> (e: Self)
        ensures
            e.packed() == run + 256 * size + 65536 * total_consumed + 0x100_0000,
    {
        FastAcEntry(run as u32 + 256 * (size as u32) + 65536 * (total_consumed as u32) + 0x100_0000)
    }

    fn invalid() -> (e: Self)
        ensures
            e.packed() == 0,
    {
        FastAcEntry(0)
    }

    /// The entry holds a term.
    pub fn is_valid(self) -> (r: bool)
        ensures
            r == ((self.packed() / 0x100_0000) % 2 == 1),
    {
        (self.0 / 0x100_0000) % 2 == 1
    }

    /// Number of zero coefficients before this one.
    pub fn run(self) -> (r: u8)
        ensures
            r == self.packed() % 256,
    {
        (self.0 % 256) as u8
    }

    /// Number of magnitude bits.
    pub fn size(self) -> (r: u8)
        ensures
            r == (self.packed() / 256) % 256,
    {
        ((self.0 / 256) % 256) as u8
    }

    /// Length of the code and the magnitude bits together.
    pub fn total_consumed(self) -> (r: u8)
        ensures
            r == (self.packed() / 65536) % 256,
    {
        ((self.0 / 65536) % 256) as u8
    }
}

/// One entry of the combined DC lookup, packed: size in bits 0 to 7, total
/// length in bits 8 to 15, and a valid flag in bit 16.
#[derive(Clone, Copy)]
pub struct FastDcEntry(u32);

impl FastDcEntry {
    /// The packed value.
    pub closed spec fn packed(self) -> int {
        self.0 as int
    }

    fn new(size: u8, total_consumed: u8) -> (e: Self)
        ensures
            e.packed() == size + 256 * total_consumed + 65536,
    {
        FastDcEntry(size as u32 + 256 * (total_consumed as u32) + 65536)
    }

    fn invalid() -> (e: Self)
        ensures
            e.packed() == 0,
    {
        FastDcEntry(0)
    }

    /// The entry holds a term.
    pub fn is_valid(self) -> (r: bool)
        ensures
            r == ((self.packed() / 65536) % 2 == 1),
    {
        (self.0 / 65536) % 2 == 1
    }

    /// Number of magnitude bits.
    pub fn size(self) -> (r: u8)
        ensures
            r == self.packed() % 256,
    {
        (self.0 % 256) as u8
    }

    /// Length of the code and the magnitude bits together.
    pub fn total_consumed(self) -> (r: u8)
        ensures
            r == (self.packed() / 256) % 256,
    {
        ((self.0 / 256) % 256) as u8
    }
}

/// Packed entry of the AC lookup for `key`.
pub open spec fn ac_entry(book: CodeBook, key: int) -> int {
    match fast_ac_term(book, key) {
        Some((run, size, total)) => run + 256 * size + 65536 * total + 0x100_0000,
        None => 0,
    }
}

/// Packed entry of the DC lookup for `key`.
pub open spec fn dc_entry(book: CodeBook, key: int) -> int {
    match fast_dc_term(book, key) {
        Some((size, total)) => size + 256 * total + 65536,
        None => 0,
    }
}

/// Some symbol whose term would fit in a 10-bit key has a code that does
/// not fit in its own length. `ac` tells whether the low four bits of a
/// symbol are its size, or the whole of it.
pub open spec fn fast_codes_overflow(book: CodeBook, ac: bool) -> bool {
    exists|l: int, k: int| #[trigger] fast_code_overflows(book, ac, l, k)
}

/// The same for entry `k` among the codes of length `l`.
pub open spec fn fast_code_overflows(book: CodeBook, ac: bool, l: int, k: int) -> bool {
    &&& 1 <= l <= 10
    &&& 0 <= k < book.count(l)
    &&& l + term_size(book.values[book.offset(l) + k], ac) <= 10
    &&& book.first_code(l) + k >= pow2(l as nat)
}

/// Number of magnitude bits that a symbol announces.
pub open spec fn term_size(sym: u8, ac: bool) -> int {
    if ac {
        sym as int % 16
    } else {
        sym as int
    }
}

/// What is wrong with a table for a combined lookup, if anything.
pub open spec fn fast_table_error(book: CodeBook, ac: bool) -> Option<DecodeError> {
    match count_error(book) {
        Some(e) => Some(e),
        None => if fast_codes_overflow(book, ac) {
            Some(DecodeError::Malformed("oversubscribed DHT table"))
        } else {
            None
        },
    }
}

/// Combined AC lookup, indexed by the next 10 bits.
pub struct FastAcHuffmanTable {
    lut: Vec<FastAcEntry>,
    book: Ghost<CodeBook>,
}

/// Combined DC lookup, indexed by the next 10 bits.
pub struct FastDcHuffmanTable {
    lut: Vec<FastDcEntry>,
    book: Ghost<CodeBook>,
}

impl FastAcHuffmanTable {
    /// The code that the table decodes.
    pub closed spec fn book(&self) -> CodeBook {
        self.book@
    }

    /// The lookup table is that of the code.
    pub closed spec fn wf(&self) -> bool {
        &&& self.book@.complete()
        &&& self.lut@.len() == 1024
        &&& forall|key: int|
            0 <= key < 1024 ==> (#[trigger] self.lut@[key]).packed() == ac_entry(self.book@, key)
    }
}

impl FastDcHuffmanTable {
    /// The code that the table decodes.
    pub closed spec fn book(&self) -> CodeBook {
        self.book@
    }

    /// The lookup table is that of the code.
    pub closed spec fn wf(&self) -> bool {
        &&& self.book@.complete()
        &&& self.lut@.len() == 1024
        &&& forall|key: int|
            0 <= key < 1024 ==> (#[trigger] self.lut@[key]).packed() == dc_entry(self.book@, key)
    }
}

/// For a 10-bit key, `256 * length + symbol` of the term that it begins
/// with where the whole term fits in the key, and 0 otherwise.
pub open spec fn fast_slot(book: CodeBook, ac: bool, key: int) -> int {
    match key_symbol(book, key) {
        Some((l, sym)) => if l + term_size(sym, ac) <= 10 {
            256 * l + sym
        } else {
            0
        },
        None => 0,
    }
}

/// Tabulates [`fast_slot`] over all keys.
fn build_fast_slots(spec: &HuffmanTableSpec, ac: bool) -> (r: Result<Vec<u16>>)
    ensures
        match fast_table_error(spec.book(), ac) {
            Some(e) => r == Err::<Vec<u16>, DecodeError>(e),
            None => r matches Ok(slots) && spec.book().complete() && slots@.len() == 1024 && (forall|key: int|
                0 <= key < 1024 ==> #[trigger] slots@[key] == fast_slot(spec.book(), ac, key)),
        },
{
    let ghost book = spec.book();
    let (_huffsize, huffcode) = match build_canonical_huffman(spec) {
        Ok(sc) => sc,
        Err(e) => {
            return Err(e);
        },
    };
    let mut slots: Vec<u16> = vec![0u16; 1024];
    let mut p: usize = 0;
    let ghost mut edge: int = 0;
    proof {
        lemma2_to64();
        assert(book.region_start(10, 1) == 0 * pow2(9));
    }
    for l_idx in 0..10usize
        invariant
            book == spec.book(),
            book.complete(),
            canonical(book, _huffsize@, huffcode@),
            count_error(book) is None,
            slots@.len() == 1024,
            p == book.offset(l_idx + 1),
            edge == (if l_idx < 10 { book.region_start(10, l_idx + 1) } else { book.region_end(10, 10) }),
            0 <= edge,
            forall|key: int|
                0 <= key < 1024 && key < edge ==> #[trigger] slots@[key] == fast_slot(book, ac, key),
            forall|key: int| 0 <= key < 1024 && key >= edge ==> #[trigger] slots@[key] == 0,
            forall|l: int, k: int| 1 <= l <= l_idx ==> !#[trigger] fast_code_overflows(book, ac, l, k),
    {
        let ghost l = l_idx + 1;
        let width: u32 = (9 - l_idx) as u32;
        proof {
            lemma_pow2_pos(width as nat);
            lemma2_to64();
            if width < 9 {
                lemma_pow2_strictly_increases(width as nat, 9);
            }
            vstd::bits::lemma_u32_shl_is_mul(1, width);
            book.lemma_code_bound(l);
            book.lemma_offset_monotonic(l + 1, 17);
        }
        let span: u32 = 1u32 << width;
        let count = spec.bits[l_idx];
        for n in 0..count
            invariant
                count == book.count(l),
                l == l_idx + 1,
                1 <= l <= 10,
                book == spec.book(),
                book.complete(),
                canonical(book, _huffsize@, huffcode@),
                count_error(book) is None,
                slots@.len() == 1024,
                span == pow2((10 - l) as nat),
                1 <= span <= 512,
                0 <= book.first_code(l) < 0x400_0000,
                book.offset(l + 1) <= book.values.len(),
                p == book.offset(l) + n,
                0 <= book.offset(l) <= 255 * 15,
                edge == (book.first_code(l) + n) * span,
                0 <= edge,
                forall|key: int|
                    0 <= key < 1024 && key < edge ==> #[trigger] slots@[key] == fast_slot(book, ac, key),
                forall|key: int| 0 <= key < 1024 && key >= edge ==> #[trigger] slots@[key] == 0,
                forall|m: int, k: int|
                    (1 <= m < l || (m == l && k < n)) ==> !#[trigger] fast_code_overflows(book, ac, m, k),
        {
            assert(canonical_at(book, _huffsize@, huffcode@, l, n as int));
            let code = huffcode[p];
            let sym = spec.values[p];
            let size: u32 = if ac {
                (sym % 16) as u32
            } else {
                sym as u32
            };
            let ghost next = (code + 1) * span;
            proof {
                lemma2_to64();
                lemma_aligned(code as int, l, 10);
                assert(next == edge + span) by (nonlinear_arith)
                    requires
                        next == (code + 1) * span,
                        edge == code * span,
                ;
                assert forall|key: int| edge <= key < next implies #[trigger] fast_slot(book, ac, key) == if l
                    + size <= 10 {
                    256 * l + sym
                } else {
                    0
                } by {
                    book.lemma_slot(key, 10, l, n as int);
                }
            }
            if l_idx as u32 + 1 + size <= 10 {
                if code >= 1024 / span {
                    assert(fast_code_overflows(book, ac, l, n as int));
                    return Err(DecodeError::Malformed("oversubscribed DHT table"));
                }
                let base: u32 = code * span;
                let entry: u16 = ((l_idx + 1) as u16) * 256 + sym as u16;
                for j in 0..span
                    invariant
                        base == edge,
                        next == base + span,
                        base + span <= 1024,
                        slots@.len() == 1024,
                        entry == 256 * l + sym,
                        l + size <= 10,
                        forall|key: int|
                            0 <= key < 1024 && key < base + j ==> #[trigger] slots@[key] == fast_slot(
                                book,
                                ac,
                                key,
                            ),
                        forall|key: int| base + j <= key < 1024 ==> #[trigger] slots@[key] == 0,
                        forall|key: int|
                            edge <= key < next ==> #[trigger] fast_slot(book, ac, key) == if l + size <= 10 {
                                256 * l + sym
                            } else {
                                0
                            },
                {
                    assert(fast_slot(book, ac, base + j) == entry);
                    slots[(base + j) as usize] = entry;
                }
            }
            p = p + 1;
            proof {
                edge = next;
                assert(next == (book.first_code(l) + n + 1) * span);
            }
        }
        proof {
            if l < 10 {
                book.lemma_regions_adjoin(10, l);
            }
        }
    }
    proof {
        lemma2_to64();
        assert forall|key: int| 0 <= key < 1024 implies #[trigger] slots@[key] == fast_slot(book, ac, key) by {
            if key >= book.region_end(10, 10) {
                book.lemma_prefix_missing(key, 10, 1);
            }
        }
    }
    Ok(slots)
}

impl FastAcHuffmanTable {
    /// Builds the table from an AC table definition.
    pub fn from_spec(spec: &HuffmanTableSpec) -> (r: Result<Self>)
        ensures
            match fast_table_error(spec.book(), true) {
                Some(e) => r == Err::<FastAcHuffmanTable, DecodeError>(e),
                None => r matches Ok(t) && t.wf() && t.book() == spec.book(),
            },
    {
        let slots = match build_fast_slots(spec, true) {
            Ok(s) => s,
            Err(e) => {
                return Err(e);
            },
        };
        let mut lut: Vec<FastAcEntry> = Vec::new();
        for key in 0..1024usize
            invariant
                slots@.len() == 1024,
                forall|k: int| 0 <= k < 1024 ==> #[trigger] slots@[k] == fast_slot(spec.book(), true, k),
                lut@.len() == key,
                forall|k: int| 0 <= k < key ==> (#[trigger] lut@[k]).packed() == ac_entry(spec.book(), k),
        {
            let s = slots[key];
            proof {
                spec.book().lemma_prefix_is_code(key as int, 10, 1);
            }
            if s == 0 {
                lut.push(FastAcEntry::invalid());
            } else {
                let l: u8 = (s / 256) as u8;
                let sym: u8 = (s % 256) as u8;
                lut.push(FastAcEntry::new(sym / 16, sym % 16, l + sym % 16));
            }
        }
        Ok(FastAcHuffmanTable { lut, book: Ghost(spec.book()) })
    }

    /// The entry for the low 10 bits of `peek_key`.
    pub fn lookup(&self, peek_key: u32) -> (e: FastAcEntry)
        requires
            self.wf(),
        ensures
            e.packed() == ac_entry(self.book(), peek_key as int % 1024),
    {
        self.lut[(peek_key % 1024) as usize]
    }

    /// Number of keys that the table covers.
    pub fn fast_path_slot_count(&self) -> (n: usize)
        requires
            self.wf(),
        ensures
            n == count_keys(|key: int| fast_ac_term(self.book(), key) is Some, 1024),
    {
        let mut n: usize = 0;
        for key in 0..1024usize
            invariant
                self.wf(),
                n <= key,
                n == count_keys(|k: int| fast_ac_term(self.book(), k) is Some, key as nat),
        {
            proof {
                self.book().lemma_prefix_is_code(key as int, 10, 1);
            }
            assert(self.lut@[key as int].packed() == ac_entry(self.book(), key as int));
            if self.lut[key].is_valid() {
                n = n + 1;
            }
        }
        n
    }
}

impl FastDcHuffmanTable {
    /// Builds the table from a DC table definition.
    pub fn from_spec(spec: &HuffmanTableSpec) -> (r: Result<Self>)
        ensures
            match fast_table_error(spec.book(), false) {
                Some(e) => r == Err::<FastDcHuffmanTable, DecodeError>(e),
                None => r matches Ok(t) && t.wf() && t.book() == spec.book(),
            },
    {
        let slots = match build_fast_slots(spec, false) {
            Ok(s) => s,
            Err(e) => {
                return Err(e);
            },
        };
        let mut lut: Vec<FastDcEntry> = Vec::new();
        for key in 0..1024usize
            invariant
                slots@.len() == 1024,
                forall|k: int| 0 <= k < 1024 ==> #[trigger] slots@[k] == fast_slot(spec.book(), false, k),
                lut@.len() == key,
                forall|k: int| 0 <= k < key ==> (#[trigger] lut@[k]).packed() == dc_entry(spec.book(), k),
        {
            let s = slots[key];
            proof {
                spec.book().lemma_prefix_is_code(key as int, 10, 1);
            }
            if s == 0 {
                lut.push(FastDcEntry::invalid());
            } else {
                let l: u8 = (s / 256) as u8;
                let sym: u8 = (s % 256) as u8;
                lut.push(FastDcEntry::new(sym, l + sym));
            }
        }
        Ok(FastDcHuffmanTable { lut, book: Ghost(spec.book()) })
    }

    /// The entry for the low 10 bits of `peek_key`.
    pub fn lookup(&self, peek_key: u32) -> (e: FastDcEntry)
        requires
            self.wf(),
        ensures
            e.packed() == dc_entry(self.book(), peek_key as int % 1024),
    {
        self.lut[(peek_key % 1024) as usize]
    }

    /// Number of keys that the table covers.
    pub fn fast_path_slot_count(&self) -> (n: usize)
        requires
            self.wf(),
        ensures
            n == count_keys(|key: int| fast_dc_term(self.book(), key) is Some, 1024),
    {
        let mut n: usize = 0;
        for key in 0..1024usize
            invariant
                self.wf(),
                n <= key,
                n == count_keys(|k: int| fast_dc_term(self.book(), k) is Some, key as nat),
        {
            proof {
                self.book().lemma_prefix_is_code(key as int, 10, 1);
            }
            assert(self.lut@[key as int].packed() == dc_entry(self.book(), key as int));
            if self.lut[key].is_valid() {
                n = n + 1;
            }
        }
        n
    }
}

/// How many of the keys below `n` satisfy `p`.
pub open spec fn count_keys(p: spec_fn(int) -> bool, n: nat) -> int
    decreases n,
{
    if n == 0 {
        0
    } else {
        count_keys(p, (n - 1) as nat) + if p(n - 1) {
            1int
        } else {
            0int
        }
    }
}

/// One AC term read through the combined lookup. `magnitude_raw` holds the
/// magnitude bits as they stand in the stream.
pub struct FastAcDecoded {
    pub run: u8,
    pub size: u8,
    pub magnitude_raw: u32,
    /// Bits consumed from the stream.
    pub total_consumed: u8,
}

/// One DC term read through the combined lookup.
pub struct FastDcDecoded {
    pub size: u8,
    pub magnitude_raw: u32,
    /// Bits consumed from the stream.
    pub total_consumed: u8,
}

/// The magnitude bits within a 10-bit key: the `size` bits that end at bit
/// `total`, counted from the most significant.
pub open spec fn key_magnitude(key: int, size: int, total: int) -> int {
    (key / pow2((10 - total) as nat) as int) % pow2(size as nat) as int
}

/// Reads an AC term through the combined lookup.
pub open spec fn read_ac_fast(src: Seq<u8>, s: BitState, book: CodeBook) -> (
    BitState,
    Result<Option<FastAcDecoded>>,
) {
    let f = ensure_bits(src, s, 10);
    if f.ok {
        let key = f.st.top(10);
        match fast_ac_term(book, key) {
            Some((run, size, total)) => (
                f.st.drop(total),
                Ok(
                    Some(
                        FastAcDecoded {
                            run: run as u8,
                            size: size as u8,
                            magnitude_raw: key_magnitude(key, size, total) as u32,
                            total_consumed: total as u8,
                        },
                    ),
                ),
            ),
            None => (f.st, Ok(None)),
        }
    } else {
        (f.st, Err(DecodeError::UnexpectedEof))
    }
}

/// Reads a DC term through the combined lookup.
pub open spec fn read_dc_fast(src: Seq<u8>, s: BitState, book: CodeBook) -> (
    BitState,
    Result<Option<FastDcDecoded>>,
) {
    let f = ensure_bits(src, s, 10);
    if f.ok {
        let key = f.st.top(10);
        match fast_dc_term(book, key) {
            Some((size, total)) => (
                f.st.drop(total),
                Ok(
                    Some(
                        FastDcDecoded {
                            size: size as u8,
                            magnitude_raw: key_magnitude(key, size, total) as u32,
                            total_consumed: total as u8,
                        },
                    ),
                ),
            ),
            None => (f.st, Ok(None)),
        }
    } else {
        (f.st, Err(DecodeError::UnexpectedEof))
    }
}

/// Exec form of [`key_magnitude`].
fn magnitude_in_key(key: u32, size: u8, total: u8) -> (r: u32)
    requires
        key < 1024,
        size <= total <= 10,
    ensures
        r == key_magnitude(key as int, size as int, total as int),
{
    let shift: u32 = (10 - total) as u32;
    proof {
        vstd::bits::lemma_u32_shr_is_div(key, shift);
        lemma_pow2_pos(size as nat);
        lemma2_to64();
        if size < 16 {
            lemma_pow2_strictly_increases(size as nat, 16);
        }
        vstd::bits::lemma_u32_shl_is_mul(1, size as u32);
    }
    (key >> shift) % (1u32 << (size as u32))
}

/// The fields of a packed AC entry can be read back.
proof fn lemma_ac_entry_fields(book: CodeBook, key: int)
    ensures
        match fast_ac_term(book, key) {
            Some((run, size, total)) => {
                let e = ac_entry(book, key);
                &&& e % 256 == run
                &&& (e / 256) % 256 == size
                &&& (e / 65536) % 256 == total
                &&& (e / 0x100_0000) % 2 == 1
                &&& 0 <= run < 16
                &&& 0 <= size <= total <= 10
                &&& 1 <= total
            },
            None => (ac_entry(book, key) / 0x100_0000) % 2 == 0,
        },
{
    book.lemma_prefix_is_code(key, 10, 1);
}

/// The fields of a packed DC entry can be read back.
proof fn lemma_dc_entry_fields(book: CodeBook, key: int)
    ensures
        match fast_dc_term(book, key) {
            Some((size, total)) => {
                let e = dc_entry(book, key);
                &&& e % 256 == size
                &&& (e / 256) % 256 == total
                &&& (e / 65536) % 2 == 1
                &&& 0 <= size <= total <= 10
                &&& 1 <= total
            },
            None => (dc_entry(book, key) / 65536) % 2 == 0,
        },
{
    book.lemma_prefix_is_code(key, 10, 1);
}

/// Reads an AC term through the combined lookup. `None` means that the
/// term does not fit in the lookup; nothing is consumed then.
pub fn decode_ac_fast(br: &mut BitReader, tbl: &FastAcHuffmanTable) -> (r: Result<Option<FastAcDecoded>>)
    requires
        old(br).inv(),
        tbl.wf(),
    ensures
        final(br).inv(),
        final(br).data() == old(br).data(),
        (final(br)@, r) == read_ac_fast(old(br).data(), old(br)@, tbl.book()),
{
    match br.ensure(10) {
        Ok(_) => {},
        Err(e) => {
            return Err(e);
        },
    }
    let key = br.peek_bits(10);
    proof {
        lemma2_to64();
        lemma_ac_entry_fields(tbl.book(), key as int);
    }
    let entry = tbl.lookup(key);
    if !entry.is_valid() {
        return Ok(None);
    }
    let run = entry.run();
    let size = entry.size();
    let total = entry.total_consumed();
    let magnitude_raw = magnitude_in_key(key, size, total);
    br.drop_bits(total as u32);
    Ok(Some(FastAcDecoded { run, size, magnitude_raw, total_consumed: total }))
}

/// Reads a DC term through the combined lookup. `None` means that the term
/// does not fit in the lookup; nothing is consumed then.
pub fn decode_dc_fast(br: &mut BitReader, tbl: &FastDcHuffmanTable) -> (r: Result<Option<FastDcDecoded>>)
    requires
        old(br).inv(),
        tbl.wf(),
    ensures
        final(br).inv(),
        final(br).data() == old(br).data(),
        (final(br)@, r) == read_dc_fast(old(br).data(), old(br)@, tbl.book()),
{
    match br.ensure(10) {
        Ok(_) => {},
        Err(e) => {
            return Err(e);
        },
    }
    let key = br.peek_bits(10);
    proof {
        lemma2_to64();
        lemma_dc_entry_fields(tbl.book(), key as int);
    }
    let entry = tbl.lookup(key);
    if !entry.is_valid() {
        return Ok(None);
    }
    let size = entry.size();
    let total = entry.total_consumed();
    let magnitude_raw = magnitude_in_key(key, size, total);
    br.drop_bits(total as u32);
    Ok(Some(FastDcDecoded { size, magnitude_raw, total_consumed: total }))
}

/// The signed value that `s` magnitude bits stand for: numbers of the upper
/// half of the range stand for themselves, those of the lower half for the
/// negative values of the same category.
pub open spec fn extended(bits: int, s: int) -> int {
    if bits < pow2((s - 1) as nat) {
        bits - pow2(s as nat) + 1
    } else {
        bits
    }
}

/// The signed value of `s` magnitude bits.
pub fn extend(bits: u32, s: u32) -> (v: i32)
    requires
        1 <= s <= 16,
        bits <= 0x7fff_ffff,
    ensures
        v == extended(bits as int, s as int),
{
    proof {
        lemma2_to64();
        if s < 16 {
            lemma_pow2_strictly_increases(s as nat, 16);
        }
        lemma_pow2_unfold(s as nat);
        vstd::bits::lemma_u32_shl_is_mul(1, s);
        vstd::bits::lemma_u32_shl_is_mul(1, (s - 1) as u32);
    }
    let v: i32 = bits as i32;
    let half: i32 = (1u32 << (s - 1)) as i32;
    let whole: i32 = (1u32 << s) as i32;
    if v < half {
        v - whole + 1
    } else {
        v
    }
}

impl BitState {
    /// The buffer is a number of `nbits` bits.
    pub open spec fn holds(self) -> bool {
        &&& 0 <= self.nbits
        &&& 0 <= self.buf < pow2(self.nbits as nat)
    }

    /// The buffer holds no more than it says, and no more than 64 bits.
    pub open spec fn wf(self) -> bool {
        &&& self.holds()
        &&& self.nbits <= 64
    }
}

/// Fetching bytes keeps a state well-formed and gets the bits asked for.
proof fn lemma_fetch_until_wf(src: Seq<u8>, s: BitState, need: int)
    requires
        s.wf(),
        0 <= need <= 32,
    ensures
        fetch_until(src, s, need).st.wf(),
        fetch_until(src, s, need).ok ==> fetch_until(src, s, need).st.nbits >= need,
    decreases
            (if need > s.nbits {
                need - s.nbits
            } else {
                0
            }),
{
    if s.nbits < need {
        let f = fetch_byte(src, s);
        if f.ok {
            lemma2_to64();
            let v = f.st.buf - s.buf * 256;
            lemma_push_fits(s.buf, s.nbits, 8, v);
            lemma_fetch_until_wf(src, f.st, need);
        }
    }
}

/// So does refilling.
pub proof fn lemma_ensure_bits_wf(src: Seq<u8>, s: BitState, need: int)
    requires
        s.wf(),
        0 <= need <= 32,
    ensures
        ensure_bits(src, s, need).st.wf(),
        ensure_bits(src, s, need).ok ==> ensure_bits(src, s, need).st.nbits >= need,
{
    if s.nbits < need {
        if can_burst(src, s) {
            lemma2_to64();
            lemma_push_fits(s.buf, s.nbits, 32, be32(src, s.pos));
            lemma_fetch_until_wf(src, s.push_word(be32(src, s.pos)), need);
        } else {
            lemma_fetch_until_wf(src, s, need);
        }
    }
}

/// Once enough bits are there, asking for them again changes nothing.
pub proof fn lemma_ensure_bits_settles(src: Seq<u8>, s: BitState, need: int)
    requires
        s.wf(),
        0 <= need <= 32,
    ensures
        ({
            let f = ensure_bits(src, s, need);
            f.ok ==> f.st.wf() && ensure_bits(src, f.st, need) == f
        }),
{
    lemma_ensure_bits_wf(src, s, need);
}

/// Consuming bits in two steps is consuming them in one, and bits seen
/// after some were consumed are the bits seen from the start.
pub proof fn lemma_consume(s: BitState, a: int, b: int)
    requires
        s.holds(),
        0 <= a,
        0 <= b,
        a + b <= s.nbits,
    ensures
        s.drop(a).holds(),
        s.drop(a).drop(b) == s.drop(a + b),
        s.drop(a).top(b) == s.top(a + b) % pow2(b as nat) as int,
        s.top(a) == s.top(a + b) / pow2(b as nat) as int,
{
    let n = s.nbits;
    let x = s.buf;
    let p = pow2((n - a - b) as nat) as int;
    let q = pow2(b as nat) as int;
    lemma_pow2_pos((n - a - b) as nat);
    lemma_pow2_pos(b as nat);
    lemma_pow2_adds((n - a - b) as nat, b as nat);
    assert(pow2((n - a) as nat) == p * q);
    assert(p * q > 0) by (nonlinear_arith)
        requires
            p > 0,
            q > 0,
    ;
    lemma_mod_bound(x, p * q);
    lemma_mod_breakdown(x, p, q);
    let t = (x / p) % q;
    assert(x % (p * q) == p * t + x % p);
    lemma_mod_bound(x, p);
    lemma_fundamental_div_mod_converse(x % (p * q), p, t, x % p);
    lemma_div_denominator(x, p, q);
}

/// A code that a 10-bit key begins with is the one its first 8 bits begin
/// with, if it is that short; if not, they begin with none.
proof fn lemma_prefix_of_shorter_key(book: CodeBook, key: int, from: int)
    requires
        1 <= from <= 9,
        0 <= key,
    ensures
        book.prefix_length(key / 4, 8, from) == match book.prefix_length(key, 10, from) {
            Some(l) => if l <= 8 {
                Some(l)
            } else {
                None
            },
            None => None,
        },
    decreases 9 - from,
{
    book.lemma_prefix_is_code(key, 10, from);
    if from <= 8 {
        lemma2_to64();
        lemma_pow2_adds((8 - from) as nat, 2);
        lemma_pow2_pos((8 - from) as nat);
        lemma_div_denominator(key, 4, pow2((8 - from) as nat) as int);
        assert(4 * pow2((8 - from) as nat) == pow2((10 - from) as nat));
        lemma_prefix_of_shorter_key(book, key, from + 1);
    }
}

/// The symbol that a 10-bit key begins with is the one that
/// [`read_symbol`] reads.
proof fn lemma_key_symbol_is_read(src: Seq<u8>, s: BitState, book: CodeBook)
    requires
        s.wf(),
        s.nbits >= 10,
    ensures
        key_symbol(book, s.top(10)) matches Some((l, sym)) ==> 1 <= l <= 10 && read_symbol(src, s, book) == (
            s.drop(l),
            Ok::<u8, DecodeError>(sym),
        ),
{
    let key = s.top(10);
    lemma2_to64();
    lemma_top_bound(s, 10);
    lemma_consume(s, 8, 2);
    lemma_consume(s, 8, 1);
    lemma_consume(s, 9, 1);
    lemma_prefix_of_shorter_key(book, key, 1);
    book.lemma_prefix_is_code(key, 10, 1);
    match book.prefix_length(key, 10, 1) {
        Some(l) => {
            if l <= 8 {
                lemma_pow2_adds((8 - l) as nat, 2);
                lemma_pow2_pos((8 - l) as nat);
                lemma_div_denominator(key, 4, pow2((8 - l) as nat) as int);
                assert(4 * pow2((8 - l) as nat) == pow2((10 - l) as nat));
            } else {
                let key8 = s.top(8);
                let key9 = s.top(9);
                assert(s.drop(8).top(1) == key9 % 2);
                assert(2 * key8 + s.drop(8).top(1) == key9);
                assert(s.drop(9).top(1) == key % 2);
                assert(2 * key9 + s.drop(9).top(1) == key);
                assert(key9 == key / 2);
                assert(key8 == key / 4);
                assert(book.prefix_length(key8, 8, 1) is None);
                assert(key / pow2(0) as int == key);
                assert(s.drop(8).nbits >= 2);
                if l == 10 {
                    lemma_prefix_skips(book, key, 10, 9, 1);
                    assert(!book.is_code(9, key9));
                    assert(read_long_symbol(src, s.drop(8), book, key8, 9) == read_long_symbol(
                        src,
                        s.drop(8).drop(1),
                        book,
                        key9,
                        10,
                    ));
                    assert(s.drop(8).drop(1) == s.drop(9));
                    assert(book.is_code(10, key));
                    assert(read_long_symbol(src, s.drop(9), book, key9, 10) == (
                        s.drop(9).drop(1),
                        Ok::<u8, DecodeError>(book.symbol(10, key)),
                    ));
                } else {
                    assert(book.is_code(9, key9));
                }
            }
        },
        None => {},
    }
}

/// Lengths below the one that `prefix_length` finds have no code.
proof fn lemma_prefix_skips(book: CodeBook, key: int, width: int, l: int, from: int)
    requires
        1 <= from <= l <= width,
        match book.prefix_length(key, width, from) {
            Some(m) => l < m,
            None => true,
        },
    ensures
        !book.is_code(l, key / pow2((width - l) as nat) as int),
    decreases l - from,
{
    if from < l {
        lemma_prefix_skips(book, key, width, l, from + 1);
    }
}

/// The magnitude bits in a 10-bit key are the ones read after its code.
proof fn lemma_key_magnitude_is_read(src: Seq<u8>, s: BitState, l: int, size: int)
    requires
        s.wf(),
        s.nbits >= 10,
        1 <= l,
        1 <= size,
        l + size <= 10,
    ensures
        read_bits(src, s.drop(l), size) == (
            s.drop(l + size),
            Ok::<u32, DecodeError>(key_magnitude(s.top(10), size, l + size) as u32),
        ),
{
    lemma_consume(s, l, size);
    lemma_consume(s, l + size, 10 - l - size);
}

/// Reads an AC term: a symbol of run and size, and the magnitude bits that
/// the size announces. Ten bits are fetched first, where there are that
/// many.
pub open spec fn read_ac(src: Seq<u8>, s: BitState, book: CodeBook) -> (BitState, Result<(int, int, int)>) {
    let f = ensure_bits(src, s, 10);
    if f.ok {
        let (s1, sym) = read_symbol(src, f.st, book);
        match sym {
            Ok(v) => if v % 16 == 0 {
                (s1, Ok((v as int / 16, 0, 0)))
            } else {
                let (s2, bits) = read_bits(src, s1, v as int % 16);
                match bits {
                    Ok(b) => (s2, Ok((v as int / 16, v as int % 16, b as int))),
                    Err(e) => (s2, Err(e)),
                }
            },
            Err(e) => (s1, Err(e)),
        }
    } else {
        (f.st, Err(DecodeError::UnexpectedEof))
    }
}

/// Reads a DC term: the size, and the magnitude bits that it announces.
/// Ten bits are fetched first, where there are that many. No size goes
/// beyond 16.
pub open spec fn read_dc(src: Seq<u8>, s: BitState, book: CodeBook) -> (BitState, Result<(int, int)>) {
    let f = ensure_bits(src, s, 10);
    if f.ok {
        let (s1, sym) = read_symbol(src, f.st, book);
        match sym {
            Ok(v) => if v == 0 {
                (s1, Ok((0, 0)))
            } else if v > 16 {
                (s1, Err(DecodeError::Malformed("DC magnitude category > 16")))
            } else {
                let (s2, bits) = read_bits(src, s1, v as int);
                match bits {
                    Ok(b) => (s2, Ok((v as int, b as int))),
                    Err(e) => (s2, Err(e)),
                }
            },
            Err(e) => (s1, Err(e)),
        }
    } else {
        (f.st, Err(DecodeError::UnexpectedEof))
    }
}

/// A hit of the combined AC lookup is what [`read_ac`] reads.
pub proof fn lemma_fast_ac_is_read_ac(src: Seq<u8>, s: BitState, book: CodeBook)
    requires
        s.wf(),
    ensures
        read_ac_fast(src, s, book).1 matches Ok(Some(d)) ==> d.run <= 15 && d.size <= 10 && d.magnitude_raw
            < 1024 && read_ac(src, s, book) == (
            read_ac_fast(src, s, book).0,
            Ok::<(int, int, int), DecodeError>((d.run as int, d.size as int, d.magnitude_raw as int)),
        ),
        read_ac_fast(src, s, book).1 matches Err(e) ==> read_ac(src, s, book) == (
            read_ac_fast(src, s, book).0,
            Err::<(int, int, int), DecodeError>(e),
        ),
{
    let f = ensure_bits(src, s, 10);
    lemma_ensure_bits_wf(src, s, 10);
    if f.ok {
        let key = f.st.top(10);
        lemma_key_symbol_is_read(src, f.st, book);
        lemma_ac_entry_fields(book, key);
        match fast_ac_term(book, key) {
            Some((run, size, total)) => {
                lemma_magnitude_bound(key, size, total);
                if size > 0 {
                    lemma_key_magnitude_is_read(src, f.st, total - size, size);
                } else {
                    lemma2_to64();
                }
            },
            None => {},
        }
    }
}

/// A hit of the combined DC lookup is what [`read_dc`] reads.
pub proof fn lemma_fast_dc_is_read_dc(src: Seq<u8>, s: BitState, book: CodeBook)
    requires
        s.wf(),
    ensures
        read_dc_fast(src, s, book).1 matches Ok(Some(d)) ==> d.size <= 10 && d.magnitude_raw < 1024 && read_dc(
            src,
            s,
            book,
        ) == (
            read_dc_fast(src, s, book).0,
            Ok::<(int, int), DecodeError>((d.size as int, d.magnitude_raw as int)),
        ),
        read_dc_fast(src, s, book).1 matches Err(e) ==> read_dc(src, s, book) == (
            read_dc_fast(src, s, book).0,
            Err::<(int, int), DecodeError>(e),
        ),
{
    let f = ensure_bits(src, s, 10);
    lemma_ensure_bits_wf(src, s, 10);
    if f.ok {
        let key = f.st.top(10);
        lemma_key_symbol_is_read(src, f.st, book);
        book.lemma_prefix_is_code(key, 10, 1);
        match fast_dc_term(book, key) {
            Some((size, total)) => {
                lemma_magnitude_bound(key, size, total);
                if size > 0 {
                    lemma_key_magnitude_is_read(src, f.st, total - size, size);
                } else {
                    lemma2_to64();
                }
            },
            None => {},
        }
    }
}

/// Magnitude bits are a number of as many bits.
proof fn lemma_magnitude_bound(key: int, size: int, total: int)
    requires
        0 <= size <= 10,
    ensures
        0 <= key_magnitude(key, size, total) < pow2(size as nat) <= 1024,
{
    lemma2_to64();
    lemma_pow2_pos(size as nat);
    lemma_mod_bound(key / pow2((10 - total) as nat) as int, pow2(size as nat) as int);
    if size < 10 {
        lemma_pow2_strictly_increases(size as nat, 10);
    }
}

/// Fetches `k` data bytes.
pub open spec fn fetch_bytes(src: Seq<u8>, s: BitState, k: nat) -> Fetch
    decreases k,
{
    if k == 0 {
        Fetch { st: s, ok: true }
    } else {
        let f = fetch_byte(src, s);
        if f.ok {
            fetch_bytes(src, f.st, (k - 1) as nat)
        } else {
            f
        }
    }
}

/// Fetching `k` bytes leads from `s` to `t`.
pub open spec fn leads_to(src: Seq<u8>, s: BitState, t: BitState, k: nat) -> bool {
    fetch_bytes(src, s, k) == (Fetch { st: t, ok: true })
}

/// Two states of one stream that have consumed the same bits of it: one of
/// them has fetched further ahead than the other, or as far.
pub open spec fn same_stream(src: Seq<u8>, s: BitState, t: BitState) -> bool {
    ||| exists|k: nat| #[trigger] leads_to(src, s, t, k)
    ||| exists|k: nat| #[trigger] leads_to(src, t, s, k)
}

/// Fetching bytes in two steps is fetching them in one.
pub proof fn lemma_fetch_bytes_add(src: Seq<u8>, s: BitState, a: nat, b: nat)
    ensures
        fetch_bytes(src, s, a + b).ok ==> fetch_bytes(src, s, a).ok,
        fetch_bytes(src, s, a).ok ==> fetch_bytes(src, s, a + b) == fetch_bytes(
            src,
            fetch_bytes(src, s, a).st,
            b,
        ),
    decreases a,
{
    if a > 0 {
        let f = fetch_byte(src, s);
        if f.ok {
            lemma_fetch_bytes_add(src, f.st, (a - 1) as nat, b);
        }
    }
}

/// A byte that is fetched comes after the bits that are there: it changes
/// neither the first of them nor what consuming them leaves.
proof fn lemma_fetch_byte_appends(src: Seq<u8>, s: BitState, n: int)
    requires
        s.holds(),
        0 <= n <= s.nbits,
        fetch_byte(src, s).ok,
    ensures
        fetch_byte(src, s).st.holds(),
        fetch_byte(src, s).st.nbits == s.nbits + 8,
        fetch_byte(src, s).st.top(n) == s.top(n),
        fetch_byte(src, s.drop(n)) == (Fetch { st: fetch_byte(src, s).st.drop(n), ok: true }),
        s.drop(n).holds(),
{
    let t = fetch_byte(src, s).st;
    let v = t.buf - s.buf * 256;
    assert(0 <= v < 256);
    let d = pow2((s.nbits - n) as nat) as int;
    let whole = pow2(s.nbits as nat) as int;
    lemma2_to64();
    lemma_pow2_pos((s.nbits - n) as nat);
    lemma_pow2_adds((s.nbits - n) as nat, 8);
    lemma_pow2_adds(s.nbits as nat, 8);
    assert(pow2((t.nbits - n) as nat) == d * 256);
    assert(pow2(t.nbits as nat) == whole * 256);
    lemma_fundamental_div_mod(s.buf, d);
    lemma_mod_bound(s.buf, d);
    let q = s.buf / d;
    let r = s.buf % d;
    assert(t.buf == q * (d * 256) + (r * 256 + v)) by (nonlinear_arith)
        requires
            t.buf == s.buf * 256 + v,
            s.buf == d * q + r,
    ;
    lemma_fundamental_div_mod_converse(t.buf, d * 256, q, r * 256 + v);
}

/// The same of several bytes.
pub proof fn lemma_fetch_bytes_append(src: Seq<u8>, s: BitState, n: int, k: nat)
    requires
        s.holds(),
        0 <= n <= s.nbits,
        fetch_bytes(src, s, k).ok,
    ensures
        fetch_bytes(src, s, k).st.holds(),
        fetch_bytes(src, s, k).st.nbits == s.nbits + 8 * k,
        fetch_bytes(src, s, k).st.top(n) == s.top(n),
        leads_to(src, s.drop(n), fetch_bytes(src, s, k).st.drop(n), k),
    decreases k,
{
    if k > 0 {
        lemma_fetch_byte_appends(src, s, n);
        lemma_fetch_bytes_append(src, fetch_byte(src, s).st, n, (k - 1) as nat);
    }
}

/// Fetching until there are enough bits is fetching some number of bytes.
proof fn lemma_fetch_until_leads(src: Seq<u8>, s: BitState, need: int) -> (k: nat)
    requires
        fetch_until(src, s, need).ok,
    ensures
        leads_to(src, s, fetch_until(src, s, need).st, k),
        fetch_until(src, s, need).st.nbits >= need,
    decreases
            (if need > s.nbits {
                need - s.nbits
            } else {
                0
            }),
{
    if s.nbits >= need {
        0
    } else {
        let f = fetch_byte(src, s);
        let k = lemma_fetch_until_leads(src, f.st, need);
        k + 1
    }
}

/// Fetching four bytes in one step is fetching them one by one.
proof fn lemma_burst_leads(src: Seq<u8>, s: BitState)
    requires
        s.pos >= 0,
        can_burst(src, s),
    ensures
        leads_to(src, s, s.push_word(be32(src, s.pos)), 4),
{
    reveal_with_fuel(fetch_bytes, 5);
}

/// Refilling is fetching some number of bytes.
pub proof fn lemma_ensure_bits_leads(src: Seq<u8>, s: BitState, need: int) -> (k: nat)
    requires
        s.pos >= 0,
        ensure_bits(src, s, need).ok,
    ensures
        leads_to(src, s, ensure_bits(src, s, need).st, k),
        ensure_bits(src, s, need).st.nbits >= need,
{
    if s.nbits >= need {
        0
    } else if can_burst(src, s) {
        let w = s.push_word(be32(src, s.pos));
        lemma_burst_leads(src, s);
        let k = lemma_fetch_until_leads(src, w, need);
        lemma_fetch_bytes_add(src, s, 4, k);
        k + 4
    } else {
        lemma_fetch_until_leads(src, s, need)
    }
}

/// Fetching finds enough bits where a state with as many can be reached.
proof fn lemma_fetch_until_succeeds(src: Seq<u8>, s: BitState, t: BitState, k: nat, need: int)
    requires
        leads_to(src, s, t, k),
        t.nbits >= need,
    ensures
        fetch_until(src, s, need).ok,
    decreases k,
{
    if s.nbits < need {
        lemma_fetch_until_succeeds(src, fetch_byte(src, s).st, t, (k - 1) as nat, need);
    }
}

/// So does refilling.
pub proof fn lemma_ensure_bits_succeeds(src: Seq<u8>, s: BitState, t: BitState, k: nat, need: int)
    requires
        s.pos >= 0,
        s.holds(),
        leads_to(src, s, t, k),
        t.nbits >= need,
    ensures
        ensure_bits(src, s, need).ok,
{
    if s.nbits < need {
        if can_burst(src, s) {
            let w = s.push_word(be32(src, s.pos));
            lemma_burst_leads(src, s);
            lemma_fetch_bytes_append(src, s, 0, k);
            lemma_fetch_bytes_append(src, s, 0, 4);
            if k > 4 {
                lemma_fetch_bytes_add(src, s, 4, (k - 4) as nat);
                lemma_fetch_until_succeeds(src, w, t, (k - 4) as nat, need);
            }
        } else {
            lemma_fetch_until_succeeds(src, s, t, k, need);
        }
    }
}

/// Two states that one state leads to are of one stream.
pub proof fn lemma_two_ahead(src: Seq<u8>, s: BitState, t: BitState, u: BitState, j: nat, k: nat)
    requires
        leads_to(src, s, t, j),
        leads_to(src, s, u, k),
    ensures
        same_stream(src, t, u),
        j <= k ==> leads_to(src, t, u, (k - j) as nat),
{
    if j <= k {
        lemma_fetch_bytes_add(src, s, j, (k - j) as nat);
        assert(leads_to(src, t, u, (k - j) as nat));
    } else {
        lemma_fetch_bytes_add(src, s, k, (j - k) as nat);
        assert(leads_to(src, u, t, (j - k) as nat));
    }
}

/// Fetching does not move a state back.
pub proof fn lemma_fetch_bytes_pos(src: Seq<u8>, s: BitState, k: nat)
    ensures
        fetch_bytes(src, s, k).st.pos >= s.pos,
    decreases k,
{
    if k > 0 {
        lemma_fetch_bytes_pos(src, fetch_byte(src, s).st, (k - 1) as nat);
    }
}

/// Two states of one stream find enough bits together, where the first
/// leads to the second.
proof fn lemma_ensure_ahead(src: Seq<u8>, s: BitState, t: BitState, k: nat, need: int)
    requires
        s.pos >= 0,
        s.holds(),
        leads_to(src, s, t, k),
        0 <= need,
    ensures
        ensure_bits(src, s, need).ok == ensure_bits(src, t, need).ok,
        ensure_bits(src, s, need).ok ==> {
            let a = ensure_bits(src, s, need).st;
            let b = ensure_bits(src, t, need).st;
            same_stream(src, a, b) && a.holds() && b.holds() && a.nbits >= need && b.nbits >= need && a.pos >= 0
                && b.pos >= 0
        },
{
    lemma_fetch_bytes_append(src, s, 0, k);
    lemma_fetch_bytes_pos(src, s, k);
    if ensure_bits(src, t, need).ok {
        let b = ensure_bits(src, t, need).st;
        let kb = lemma_ensure_bits_leads(src, t, need);
        lemma_fetch_bytes_add(src, s, k, kb);
        assert(leads_to(src, s, b, k + kb));
        lemma_ensure_bits_succeeds(src, s, b, k + kb, need);
    }
    if ensure_bits(src, s, need).ok {
        let a = ensure_bits(src, s, need).st;
        let ka = lemma_ensure_bits_leads(src, s, need);
        lemma_fetch_bytes_append(src, s, 0, ka);
        lemma_fetch_bytes_pos(src, s, ka);
        if ka > k {
            lemma_two_ahead(src, s, t, a, k, ka);
            lemma_ensure_bits_succeeds(src, t, a, (ka - k) as nat, need);
        }
        let b = ensure_bits(src, t, need).st;
        let kb = lemma_ensure_bits_leads(src, t, need);
        lemma_fetch_bytes_add(src, s, k, kb);
        lemma_fetch_bytes_append(src, s, 0, k + kb);
        lemma_fetch_bytes_pos(src, s, k + kb);
        lemma_two_ahead(src, s, a, b, ka, k + kb);
    }
}

/// Two states of one stream find enough bits together.
pub proof fn lemma_ensure_same(src: Seq<u8>, s: BitState, t: BitState, need: int)
    requires
        s.pos >= 0,
        t.pos >= 0,
        s.holds(),
        t.holds(),
        same_stream(src, s, t),
        0 <= need,
    ensures
        ensure_bits(src, s, need).ok == ensure_bits(src, t, need).ok,
        ensure_bits(src, s, need).ok ==> {
            let a = ensure_bits(src, s, need).st;
            let b = ensure_bits(src, t, need).st;
            same_stream(src, a, b) && a.holds() && b.holds() && a.nbits >= need && b.nbits >= need && a.pos >= 0
                && b.pos >= 0
        },
{
    if exists|k: nat| #[trigger] leads_to(src, s, t, k) {
        let k = choose|k: nat| #[trigger] leads_to(src, s, t, k);
        lemma_ensure_ahead(src, s, t, k, need);
    } else {
        let k = choose|k: nat| #[trigger] leads_to(src, t, s, k);
        lemma_ensure_ahead(src, t, s, k, need);
    }
}

/// Two states of one stream begin with the same bits, and are of one
/// stream after these are consumed.
pub proof fn lemma_consume_same(src: Seq<u8>, s: BitState, t: BitState, n: int)
    requires
        s.holds(),
        t.holds(),
        same_stream(src, s, t),
        0 <= n <= s.nbits,
        n <= t.nbits,
    ensures
        s.top(n) == t.top(n),
        same_stream(src, s.drop(n), t.drop(n)),
        s.drop(n).holds(),
        t.drop(n).holds(),
{
    lemma_pow2_pos((s.nbits - n) as nat);
    lemma_pow2_pos((t.nbits - n) as nat);
    lemma_mod_bound(s.buf, pow2((s.nbits - n) as nat) as int);
    lemma_mod_bound(t.buf, pow2((t.nbits - n) as nat) as int);
    if exists|k: nat| #[trigger] leads_to(src, s, t, k) {
        let k = choose|k: nat| #[trigger] leads_to(src, s, t, k);
        lemma_fetch_bytes_append(src, s, n, k);
    } else {
        let k = choose|k: nat| #[trigger] leads_to(src, t, s, k);
        lemma_fetch_bytes_append(src, t, n, k);
    }
}

/// Two states of one stream read the same bits.
pub proof fn lemma_read_bits_same(src: Seq<u8>, s: BitState, t: BitState, n: int)
    requires
        s.pos >= 0,
        t.pos >= 0,
        s.holds(),
        t.holds(),
        same_stream(src, s, t),
        0 <= n,
    ensures
        read_bits(src, s, n).1 == read_bits(src, t, n).1,
        read_bits(src, s, n).1 is Ok ==> same_stream(src, read_bits(src, s, n).0, read_bits(src, t, n).0),
{
    lemma_ensure_same(src, s, t, n);
    if ensure_bits(src, s, n).ok {
        lemma_consume_same(src, ensure_bits(src, s, n).st, ensure_bits(src, t, n).st, n);
    }
}

/// Two states of one stream read the same rest of a long code.
proof fn lemma_long_symbol_same(src: Seq<u8>, s: BitState, t: BitState, book: CodeBook, c: int, l: int)
    requires
        s.pos >= 0,
        t.pos >= 0,
        s.holds(),
        t.holds(),
        same_stream(src, s, t),
    ensures
        read_long_symbol(src, s, book, c, l).1 == read_long_symbol(src, t, book, c, l).1,
        read_long_symbol(src, s, book, c, l).1 is Ok ==> {
            let a = read_long_symbol(src, s, book, c, l).0;
            let b = read_long_symbol(src, t, book, c, l).0;
            same_stream(src, a, b) && a.holds() && b.holds() && a.pos >= 0 && b.pos >= 0
        },
    decreases 17 - l,
{
    if l <= 16 {
        lemma_ensure_same(src, s, t, 1);
        if ensure_bits(src, s, 1).ok {
            let a = ensure_bits(src, s, 1).st;
            let b = ensure_bits(src, t, 1).st;
            lemma_consume_same(src, a, b, 1);
            lemma_long_symbol_same(src, a.drop(1), b.drop(1), book, 2 * c + a.top(1), l + 1);
        }
    }
}

/// Two states of one stream read the same symbol.
pub proof fn lemma_read_symbol_same(src: Seq<u8>, s: BitState, t: BitState, book: CodeBook)
    requires
        s.pos >= 0,
        t.pos >= 0,
        s.holds(),
        t.holds(),
        same_stream(src, s, t),
    ensures
        read_symbol(src, s, book).1 == read_symbol(src, t, book).1,
        read_symbol(src, s, book).1 is Ok ==> {
            let a = read_symbol(src, s, book).0;
            let b = read_symbol(src, t, book).0;
            same_stream(src, a, b) && a.holds() && b.holds() && a.pos >= 0 && b.pos >= 0
        },
{
    lemma_ensure_same(src, s, t, 8);
    if ensure_bits(src, s, 8).ok {
        let a = ensure_bits(src, s, 8).st;
        let b = ensure_bits(src, t, 8).st;
        lemma_consume_same(src, a, b, 8);
        let key = a.top(8);
        book.lemma_prefix_is_code(key, 8, 1);
        match book.prefix_length(key, 8, 1) {
            Some(l) => {
                lemma_consume_same(src, a, b, l);
            },
            None => {
                lemma_long_symbol_same(src, a.drop(8), b.drop(8), book, key, 9);
            },
        }
    }
}

/// Two states of one stream deliver the same bits and the same symbols, and
/// stay states of one stream.
pub proof fn law_one_stream_reads_alike(src: Seq<u8>, s: BitState, t: BitState, n: int, book: CodeBook)
    requires
        s.wf(),
        t.wf(),
        s.pos >= 0,
        t.pos >= 0,
        same_stream(src, s, t),
        1 <= n <= 16,
    ensures
        read_bits(src, s, n).1 == read_bits(src, t, n).1,
        read_bits(src, s, n).1 is Ok ==> same_stream(src, read_bits(src, s, n).0, read_bits(src, t, n).0),
        read_symbol(src, s, book).1 == read_symbol(src, t, book).1,
        read_symbol(src, s, book).1 is Ok ==> same_stream(
            src,
            read_symbol(src, s, book).0,
            read_symbol(src, t, book).0,
        ),
{
    lemma_read_bits_same(src, s, t, n);
    lemma_read_symbol_same(src, s, t, book);
}

/// Fetching ahead cannot be seen in what is read: the same bits and the
/// same symbol come from a state and from that state after a refill.
pub proof fn law_refill_is_unseen(src: Seq<u8>, s: BitState, need: int, n: int, book: CodeBook)
    requires
        s.wf(),
        s.pos >= 0,
        0 <= need <= 32,
        1 <= n <= 16,
        ensure_bits(src, s, need).ok,
    ensures
        ({
            let t = ensure_bits(src, s, need).st;
            &&& t.wf()
            &&& same_stream(src, s, t)
            &&& read_bits(src, s, n).1 == read_bits(src, t, n).1
            &&& read_symbol(src, s, book).1 == read_symbol(src, t, book).1
        }),
{
    let t = ensure_bits(src, s, need).st;
    lemma_ensure_bits_wf(src, s, need);
    lemma_ensure_bits_pos(src, s, need);
    let k = lemma_ensure_bits_leads(src, s, need);
    assert(leads_to(src, s, t, k));
    law_one_stream_reads_alike(src, s, t, n, book);
}

/// A hit of the combined AC lookup gives the run, the size and the magnitude
/// bits that reading the symbol and then the magnitude bits gives from the
/// same state, consumes at most ten bits, and leaves the reader at the same
/// place of the stream. A miss consumes nothing.
pub proof fn law_fast_ac_matches_slow(src: Seq<u8>, s: BitState, book: CodeBook)
    requires
        s.wf(),
        s.pos >= 0,
    ensures
        ({
            let (fast, r) = read_ac_fast(src, s, book);
            let (s1, sym) = read_symbol(src, s, book);
            match r {
                Ok(Some(d)) => {
                    let (s2, bits) = if d.size > 0 {
                        read_bits(src, s1, d.size as int)
                    } else {
                        (s1, Ok(0))
                    };
                    &&& sym matches Ok(v) && d.run == v / 16 && d.size == v % 16
                    &&& bits == Ok::<u32, DecodeError>(d.magnitude_raw)
                    &&& d.size < d.total_consumed <= 10
                    &&& same_stream(src, fast, s2)
                },
                Ok(None) => same_stream(src, fast, s),
                Err(e) => e == DecodeError::UnexpectedEof && !ensure_bits(src, s, 10).ok,
            }
        }),
{
    let f = ensure_bits(src, s, 10);
    if f.ok {
        let key = f.st.top(10);
        law_refill_is_unseen(src, s, 10, 1, book);
        lemma_ensure_bits_pos(src, s, 10);
        lemma_ensure_bits_wf(src, s, 10);
        lemma_read_symbol_same(src, s, f.st, book);
        lemma_key_symbol_is_read(src, f.st, book);
        lemma_ac_entry_fields(book, key);
        match fast_ac_term(book, key) {
            Some((run, size, total)) => {
                book.lemma_prefix_is_code(key, 10, 1);
                lemma_magnitude_bound(key, size, total);
                if size > 0 {
                    lemma_key_magnitude_is_read(src, f.st, total - size, size);
                    lemma_read_bits_same(src, read_symbol(src, s, book).0, f.st.drop(total - size), size);
                } else {
                    lemma2_to64();
                }
            },
            None => {},
        }
    }
}

/// A hit of the combined DC lookup gives the size and the magnitude bits
/// that reading the symbol and then the magnitude bits gives from the same
/// state, consumes at most ten bits, and leaves the reader at the same place
/// of the stream. A miss consumes nothing.
pub proof fn law_fast_dc_matches_slow(src: Seq<u8>, s: BitState, book: CodeBook)
    requires
        s.wf(),
        s.pos >= 0,
    ensures
        ({
            let (fast, r) = read_dc_fast(src, s, book);
            let (s1, sym) = read_symbol(src, s, book);
            match r {
                Ok(Some(d)) => {
                    let (s2, bits) = if d.size > 0 {
                        read_bits(src, s1, d.size as int)
                    } else {
                        (s1, Ok(0))
                    };
                    &&& sym == Ok::<u8, DecodeError>(d.size)
                    &&& bits == Ok::<u32, DecodeError>(d.magnitude_raw)
                    &&& d.size < d.total_consumed <= 10
                    &&& same_stream(src, fast, s2)
                },
                Ok(None) => same_stream(src, fast, s),
                Err(e) => e == DecodeError::UnexpectedEof && !ensure_bits(src, s, 10).ok,
            }
        }),
{
    let f = ensure_bits(src, s, 10);
    if f.ok {
        let key = f.st.top(10);
        law_refill_is_unseen(src, s, 10, 1, book);
        lemma_ensure_bits_pos(src, s, 10);
        lemma_ensure_bits_wf(src, s, 10);
        lemma_read_symbol_same(src, s, f.st, book);
        lemma_key_symbol_is_read(src, f.st, book);
        book.lemma_prefix_is_code(key, 10, 1);
        match fast_dc_term(book, key) {
            Some((size, total)) => {
                lemma_magnitude_bound(key, size, total);
                if size > 0 {
                    lemma_key_magnitude_is_read(src, f.st, total - size, size);
                    lemma_read_bits_same(src, read_symbol(src, s, book).0, f.st.drop(total - size), size);
                } else {
                    lemma2_to64();
                }
            },
            None => {},
        }
    }
}

/// Extension undoes the split of a coefficient into its magnitude category
/// and its magnitude bits.
pub proof fn law_extend_inverts_category(v: int)
    requires
        -65535 <= v <= 65535,
        v != 0,
    ensures
        1 <= category(v) <= 16,
        0 <= magnitude_bits(v) < pow2(category(v) as nat),
        extended(magnitude_bits(v), category(v)) == v,
{
    lemma_bit_length(magnitude(v));
    lemma_pow2_unfold(category(v) as nat);
}

/// Once a marker has ended the data and the bits before it are consumed,
/// the reader yields zeros and stays where it is.
pub proof fn law_drained_reader_yields_zeros(src: Seq<u8>, s: BitState, n: int)
    requires
        s.wf(),
        s.buf == 0,
        s.marker is Some,
        1 <= n <= 16,
    ensures
        read_bits(src, s, n).1 == Ok::<u32, DecodeError>(0),
        read_bits(src, s, n).0.buf == 0,
        read_bits(src, s, n).0.pos == s.pos,
        read_bits(src, s, n).0.marker == s.marker,
{
    lemma_drained_fetch(src, s, n);
    lemma_ensure_bits_wf(src, s, n);
    let f = ensure_bits(src, s, n);
    lemma_pow2_pos((f.st.nbits - n) as nat);
    lemma_div_basics(pow2((f.st.nbits - n) as nat) as int);
    lemma_small_mod(0, pow2((f.st.nbits - n) as nat));
}

/// A drained reader fetches zeros.
proof fn lemma_drained_fetch(src: Seq<u8>, s: BitState, need: int)
    requires
        s.buf == 0,
        s.marker is Some,
    ensures
        fetch_until(src, s, need).ok,
        fetch_until(src, s, need).st.buf == 0,
        fetch_until(src, s, need).st.pos == s.pos,
        fetch_until(src, s, need).st.marker == s.marker,
    decreases
            (if need > s.nbits {
                need - s.nbits
            } else {
                0
            }),
{
    if s.nbits < need {
        lemma_drained_fetch(src, s.push_byte(0, 0), need);
    }
}

/// Fetching does not move the reader back.
proof fn lemma_fetch_until_pos(src: Seq<u8>, s: BitState, need: int)
    ensures
        fetch_until(src, s, need).st.pos >= s.pos,
    decreases
            (if need > s.nbits {
                need - s.nbits
            } else {
                0
            }),
{
    if s.nbits < need {
        let f = fetch_byte(src, s);
        if f.ok {
            lemma_fetch_until_pos(src, f.st, need);
        }
    }
}

/// Nor does refilling.
pub proof fn lemma_ensure_bits_pos(src: Seq<u8>, s: BitState, need: int)
    ensures
        ensure_bits(src, s, need).st.pos >= s.pos,
{
    lemma_fetch_until_pos(src, s, need);
    lemma_fetch_until_pos(src, s.push_word(be32(src, s.pos)), need);
}

/// Nor does reading a long code.
proof fn lemma_long_symbol_pos(src: Seq<u8>, s: BitState, book: CodeBook, c: int, l: int)
    ensures
        read_long_symbol(src, s, book, c, l).0.pos >= s.pos,
    decreases 17 - l,
{
    if l <= 16 {
        lemma_ensure_bits_pos(src, s, 1);
        let f = ensure_bits(src, s, 1);
        if f.ok {
            let next = 2 * c + f.st.top(1);
            if !book.is_code(l, next) {
                lemma_long_symbol_pos(src, f.st.drop(1), book, next, l + 1);
            }
        }
    }
}

/// Nor does reading bits or a symbol.
pub proof fn lemma_read_pos(src: Seq<u8>, s: BitState, book: CodeBook, n: int)
    ensures
        read_bits(src, s, n).0.pos >= s.pos,
        read_symbol(src, s, book).0.pos >= s.pos,
{
    lemma_ensure_bits_pos(src, s, n);
    lemma_ensure_bits_pos(src, s, 8);
    let f = ensure_bits(src, s, 8);
    lemma_long_symbol_pos(src, f.st.drop(8), book, f.st.top(8), 9);
}

/// Nor does reading an AC term.
pub proof fn lemma_read_ac_pos(src: Seq<u8>, s: BitState, book: CodeBook)
    ensures
        read_ac(src, s, book).0.pos >= s.pos,
{
    lemma_ensure_bits_pos(src, s, 10);
    let f = ensure_bits(src, s, 10);
    lemma_read_pos(src, f.st, book, 1);
    let (s1, sym) = read_symbol(src, f.st, book);
    match sym {
        Ok(v) => {
            lemma_read_pos(src, s1, book, v as int % 16);
        },
        Err(e) => {},
    }
}

/// Nor does reading a DC term.
pub proof fn lemma_read_dc_pos(src: Seq<u8>, s: BitState, book: CodeBook)
    ensures
        read_dc(src, s, book).0.pos >= s.pos,
{
    lemma_ensure_bits_pos(src, s, 10);
    let f = ensure_bits(src, s, 10);
    lemma_read_pos(src, f.st, book, 1);
    let (s1, sym) = read_symbol(src, f.st, book);
    match sym {
        Ok(v) => {
            lemma_read_pos(src, s1, book, v as int);
        },
        Err(e) => {},
    }
}

/// The share of all `2^16` bit patterns that codes shorter than `l` begin.
pub open spec fn taken_below(book: CodeBook, l: int) -> int
    decreases l,
{
    if l <= 1 {
        0
    } else {
        taken_below(book, l - 1) + book.count(l - 1) * pow2((16 - (l - 1)) as nat)
    }
}

/// Codes are given out from zero on without gaps: the patterns that begin
/// with the first code of a length come right behind those that begin with a
/// shorter code.
pub proof fn law_codes_are_given_out_without_gaps(book: CodeBook, l: int)
    requires
        1 <= l <= 16,
    ensures
        book.first_code(l) * pow2((16 - l) as nat) == taken_below(book, l),
    decreases l,
{
    if l > 1 {
        law_codes_are_given_out_without_gaps(book, l - 1);
        lemma_pow2_unfold((17 - l) as nat);
        let p = pow2((16 - l) as nat) as int;
        let (f, c) = (book.first_code(l - 1), book.count(l - 1));
        assert((2 * (f + c)) * p == f * (2 * p) + c * (2 * p)) by (nonlinear_arith);
    } else {
        assert(0 * pow2((16 - l) as nat) == 0) by (nonlinear_arith);
    }
}

/// Symbols are given to codes in order: the `n`-th code of a length goes with
/// the symbol that as many symbols precede as there are shorter codes, and `n`
/// more.
pub proof fn law_symbols_follow_the_codes(book: CodeBook, l: int, n: int)
    requires
        1 <= l <= 16,
        0 <= n < book.count(l),
    ensures
        ({
            let before = book.offset(l) + n;
            &&& book.is_code(l, book.first_code(l) + n)
            &&& book.symbol(l, book.first_code(l) + n) == book.values[before]
            &&& !book.is_code(l, book.first_code(l) - 1)
            &&& !book.is_code(l, book.first_code(l) + book.count(l))
            &&& l > 1 ==> book.offset(l) == book.offset(l - 1) + book.bits[l - 2]
            &&& book.offset(1) == 0
        }),
{
}

} // verus!
