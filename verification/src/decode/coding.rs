//! How a block is written, as a model to hold the decoder against.
//!
//! Bits are sequences of booleans here, most significant first. A symbol is
//! written as its canonical code, a coefficient as a symbol that tells the
//! zeros before it and the number of its magnitude bits, followed by those
//! bits. The laws say that what is written this way is what is read.

use vstd::arithmetic::div_mod::{
    lemma_div_denominator, lemma_fundamental_div_mod, lemma_fundamental_div_mod_converse, lemma_mod_bound,
};
use vstd::arithmetic::power2::{
    lemma2_to64, lemma_pow2_adds, lemma_pow2_pos, lemma_pow2_strictly_increases, lemma_pow2_unfold, pow2,
};
use vstd::prelude::*;

verus! {

use super::baseline::{
    baseline_scan, block_step, dequantized, law_placed_block_is_in_place, lemma_block_in_plane, lemma_geometry,
    mcu_blocks, mcu_entries, mcus, placed, read_ac_terms, read_block, restart_if_due, scan_part, single_blocks, zero_block,
    Block, ScanContext, ScanPart, ScanState,
};
use super::error::{DecodeError, Result};
use super::huffman::{
    ensure_bits, extended, fetch_bytes, law_extend_inverts_category, leads_to, lemma_consume,
    lemma_ensure_bits_leads, lemma_ensure_bits_succeeds, lemma_fetch_bytes_add, lemma_fetch_bytes_append,
    lemma_fetch_bytes_pos, lemma_two_ahead, read_ac, read_bits, read_dc, read_long_symbol, read_symbol,
    same_stream, BitState, CodeBook, Fetch,
};
use super::markers::Frame;
use super::progressive::{
    ac_block_step, ac_blocks, ac_first, ac_first_terms, ac_refine, ac_refine_terms, at_bit, dc_first, dc_refine,
    insert_new, natural_block, read_eobrun, refine_band, refine_one, skip_zeros, BandBlock, BandContext, BandState,
};
use crate::arch::scalar::dct::idct_block;
use crate::arch::scalar::huffman::{category, lemma_bit_length, magnitude_bits};
use crate::tables::{law_zigzag_is_permutation, ZIGZAG, ZIGZAG_INVERSE};

/// The number that bits stand for.
pub open spec fn number(bits: Seq<bool>) -> int
    decreases bits.len(),
{
    if bits.len() == 0 {
        0
    } else {
        2 * number(bits.drop_last()) + if bits.last() {
            1int
        } else {
            0
        }
    }
}

/// A number as `n` bits.
pub open spec fn bits_of(v: int, n: nat) -> Seq<bool> {
    Seq::new(n, |i: int| (v / pow2((n - 1 - i) as nat) as int) % 2 == 1)
}

/// `n` bits stand for a number below `2^n`.
pub proof fn lemma_number_bound(bits: Seq<bool>)
    ensures
        0 <= number(bits) < pow2(bits.len()),
    decreases bits.len(),
{
    if bits.len() == 0 {
        lemma2_to64();
    } else {
        lemma_number_bound(bits.drop_last());
        lemma_pow2_unfold(bits.len());
    }
}

/// The number of bits that are put one behind the other.
pub proof fn lemma_number_add(a: Seq<bool>, b: Seq<bool>)
    ensures
        number(a + b) == number(a) * pow2(b.len()) + number(b),
        0 <= number(a + b),
        (number(a + b) / pow2(b.len()) as int) == number(a),
        number(a + b) % pow2(b.len()) as int == number(b),
    decreases b.len(),
{
    lemma_number_bound(a + b);
    lemma_number_bound(b);
    lemma_pow2_pos(b.len());
    if b.len() == 0 {
        lemma2_to64();
        assert(a + b =~= a);
    } else {
        assert((a + b).drop_last() =~= a + b.drop_last());
        lemma_number_add(a, b.drop_last());
        lemma_pow2_unfold(b.len());
        let p = pow2((b.len() - 1) as nat) as int;
        let x = number(a);
        assert(2 * (x * p) == x * (2 * p)) by (nonlinear_arith);
    }
    lemma_fundamental_div_mod_converse(number(a + b), pow2(b.len()) as int, number(a), number(b));
}

/// The bits of a number stand for that number.
pub proof fn law_bits_of_a_number(v: int, n: nat)
    requires
        0 <= v < pow2(n),
    ensures
        bits_of(v, n).len() == n,
        number(bits_of(v, n)) == v,
    decreases n,
{
    lemma2_to64();
    if n > 0 {
        let m = (n - 1) as nat;
        lemma_pow2_unfold(n);
        law_bits_of_a_number(v / 2, m);
        let front = bits_of(v, n).drop_last();
        assert forall|i: int| 0 <= i < m implies front[i] == bits_of(v / 2, m)[i] by {
            let e = (m - 1 - i) as nat;
            lemma_pow2_unfold((n - 1 - i) as nat);
            lemma_pow2_pos(e);
            lemma_div_denominator(v, 2, pow2(e) as int);
            assert(pow2((n - 1 - i) as nat) == 2 * pow2(e));
        }
        assert(front =~= bits_of(v / 2, m));
        assert(bits_of(v, n).last() == ((v / 1) % 2 == 1));
    }
}

/// After `k` more bytes are fetched, the reader shows these bits first.
pub open spec fn shows(src: Seq<u8>, s: BitState, bits: Seq<bool>, k: nat) -> bool {
    let f = fetch_bytes(src, s, k);
    &&& f.ok
    &&& f.st.nbits >= bits.len()
    &&& f.st.top(bits.len() as int) == number(bits)
}

/// These bits come next.
pub open spec fn upcoming(src: Seq<u8>, s: BitState, bits: Seq<bool>) -> bool {
    exists|k: nat| #[trigger] shows(src, s, bits, k)
}

/// A state that reading can start from.
pub open spec fn readable(s: BitState) -> bool {
    s.holds() && s.pos >= 0
}

/// States of one stream have the same bits coming.
pub proof fn lemma_upcoming_same(src: Seq<u8>, s: BitState, t: BitState, bits: Seq<bool>)
    requires
        s.holds(),
        t.holds(),
        same_stream(src, s, t),
        upcoming(src, s, bits),
    ensures
        upcoming(src, t, bits),
{
    let k = choose|k: nat| #[trigger] shows(src, s, bits, k);
    let u = fetch_bytes(src, s, k).st;
    if exists|j: nat| #[trigger] leads_to(src, s, t, j) {
        let j = choose|j: nat| #[trigger] leads_to(src, s, t, j);
        if j <= k {
            lemma_two_ahead(src, s, t, u, j, k);
            assert(shows(src, t, bits, (k - j) as nat));
        } else {
            lemma_two_ahead(src, s, u, t, k, j);
            lemma_fetch_bytes_append(src, s, 0, k);
            lemma_fetch_bytes_append(src, u, bits.len() as int, (j - k) as nat);
            assert(shows(src, t, bits, 0));
        }
    } else {
        let j = choose|j: nat| #[trigger] leads_to(src, t, s, j);
        lemma_fetch_bytes_add(src, t, j, k);
        assert(shows(src, t, bits, j + k));
    }
}

/// A refill finds bits that are coming.
pub proof fn lemma_refill_finds(src: Seq<u8>, s: BitState, bits: Seq<bool>, need: int)
    requires
        readable(s),
        upcoming(src, s, bits),
        0 <= need <= bits.len(),
    ensures
        ({
            let f = ensure_bits(src, s, need);
            f.ok && readable(f.st) && f.st.nbits >= need && upcoming(src, f.st, bits)
        }),
{
    let k = choose|k: nat| #[trigger] shows(src, s, bits, k);
    let u = fetch_bytes(src, s, k).st;
    assert(leads_to(src, s, u, k));
    lemma_ensure_bits_succeeds(src, s, u, k, need);
    let j = lemma_ensure_bits_leads(src, s, need);
    lemma_fetch_bytes_append(src, s, 0, j);
    lemma_fetch_bytes_pos(src, s, j);
    let t = ensure_bits(src, s, need).st;
    assert(leads_to(src, s, t, j));
    lemma_upcoming_same(src, s, t, bits);
}

/// Bits that are there can be looked at and consumed.
pub proof fn lemma_consume_upcoming(src: Seq<u8>, s: BitState, a: Seq<bool>, b: Seq<bool>)
    requires
        readable(s),
        upcoming(src, s, a + b),
        a.len() <= s.nbits,
    ensures
        s.top(a.len() as int) == number(a),
        readable(s.drop(a.len() as int)),
        upcoming(src, s.drop(a.len() as int), b),
{
    let n = a.len() as int;
    let k = choose|k: nat| #[trigger] shows(src, s, a + b, k);
    let u = fetch_bytes(src, s, k).st;
    lemma_fetch_bytes_append(src, s, n, k);
    lemma_consume(u, n, b.len() as int);
    lemma_consume(s, n, 0);
    lemma_number_add(a, b);
    assert(shows(src, s.drop(n), b, k));
}

/// What is read is what comes next: reading as many bits as `a` has gives
/// the number of `a`, and `b` is left to read.
pub proof fn law_bits_are_read_in_order(src: Seq<u8>, s: BitState, a: Seq<bool>, b: Seq<bool>)
    requires
        readable(s),
        upcoming(src, s, a + b),
    ensures
        read_bits(src, s, a.len() as int).1 == Ok::<u32, DecodeError>(number(a) as u32),
        readable(read_bits(src, s, a.len() as int).0),
        upcoming(src, read_bits(src, s, a.len() as int).0, b),
{
    lemma_refill_finds(src, s, a + b, a.len() as int);
    lemma_consume_upcoming(src, ensure_bits(src, s, a.len() as int).st, a, b);
}

/// `c` is the code of a symbol, of `l` bits.
pub open spec fn is_codeword(book: CodeBook, l: int, c: int) -> bool {
    &&& 1 <= l <= 16
    &&& book.is_code(l, c)
    &&& 0 <= c < pow2(l as nat)
}

/// Longer codes lie past the shorter ones.
proof fn lemma_codes_grow(book: CodeBook, m: int, l: int)
    requires
        book.bits.len() == 16,
        1 <= m < l <= 16,
    ensures
        book.first_code(l) >= (book.first_code(m) + book.count(m)) * pow2((l - m) as nat),
    decreases l - m,
{
    lemma2_to64();
    if m + 1 == l {
        assert(pow2((l - m) as nat) == 2);
    } else {
        lemma_codes_grow(book, m, l - 1);
        lemma_pow2_unfold((l - m) as nat);
        let p = pow2((l - 1 - m) as nat) as int;
        let x = book.first_code(m) + book.count(m);
        assert(x * (2 * p) == 2 * (x * p)) by (nonlinear_arith);
    }
}

/// No code is the beginning of another.
proof fn lemma_prefix_free(book: CodeBook, l: int, c: int, m: int)
    requires
        book.bits.len() == 16,
        is_codeword(book, l, c),
        1 <= m < l,
    ensures
        !book.is_code(m, c / pow2((l - m) as nat) as int),
{
    lemma_codes_grow(book, m, l);
    let p = pow2((l - m) as nat) as int;
    lemma_pow2_pos((l - m) as nat);
    let x = book.first_code(m) + book.count(m);
    assert(c / p >= x) by (nonlinear_arith)
        requires
            c >= x * p,
            p > 0,
    ;
}

/// A key begins with the code that all shorter beginnings miss.
proof fn lemma_prefix_length_is(book: CodeBook, key: int, l: int, from: int)
    requires
        1 <= from <= l <= 8,
        forall|m: int|
            from <= m < l ==> !#[trigger] book.is_code(m, key / pow2((8 - m) as nat) as int),
        book.is_code(l, key / pow2((8 - l) as nat) as int),
    ensures
        book.prefix_length(key, 8, from) == Some(l),
    decreases l - from,
{
    if from < l {
        assert(!book.is_code(from, key / pow2((8 - from) as nat) as int));
        lemma_prefix_length_is(book, key, l, from + 1);
    }
}

/// A key that all beginnings miss begins with no code.
proof fn lemma_prefix_length_none(book: CodeBook, key: int, from: int)
    requires
        1 <= from <= 9,
        forall|m: int|
            from <= m <= 8 ==> !#[trigger] book.is_code(m, key / pow2((8 - m) as nat) as int),
    ensures
        book.prefix_length(key, 8, from) is None,
    decreases 9 - from,
{
    if from <= 8 {
        assert(!book.is_code(from, key / pow2((8 - from) as nat) as int));
        lemma_prefix_length_none(book, key, from + 1);
    }
}

/// The first `m` bits of an `l`-bit number.
proof fn lemma_front_bits(c: int, l: nat, m: nat)
    requires
        0 <= c < pow2(l),
        m <= l,
    ensures
        number(bits_of(c, l).take(m as int)) == c / pow2((l - m) as nat) as int,
{
    law_bits_of_a_number(c, l);
    let (a, b) = (bits_of(c, l).take(m as int), bits_of(c, l).skip(m as int));
    assert(a + b =~= bits_of(c, l));
    lemma_number_add(a, b);
}

/// The rest of a code of more than eight bits is read bit by bit.
#[verifier::rlimit(40)]
#[verifier::spinoff_prover]
proof fn lemma_long_code_is_read(src: Seq<u8>, s: BitState, book: CodeBook, l: int, c: int, m: int, rest: Seq<bool>)
    requires
        book.bits.len() == 16,
        is_codeword(book, l, c),
        9 <= m <= l,
        readable(s),
        upcoming(src, s, bits_of(c, l as nat).skip(m - 1) + rest),
    ensures
        ({
            let (t, r) = read_long_symbol(src, s, book, c / pow2((l - m + 1) as nat) as int, m);
            &&& r == Ok::<u8, DecodeError>(book.symbol(l, c))
            &&& readable(t)
            &&& upcoming(src, t, rest)
        }),
    decreases l - m,
{
    let code = bits_of(c, l as nat);
    let bit = seq![code[m - 1]];
    let after = code.skip(m) + rest;
    assert(code.skip(m - 1) + rest =~= bit + after);
    lemma_refill_finds(src, s, bit + after, 1);
    let f = ensure_bits(src, s, 1);
    lemma_consume_upcoming(src, f.st, bit, after);
    lemma_front_bits(c, l as nat, (m - 1) as nat);
    lemma_front_bits(c, l as nat, m as nat);
    assert(code.take(m).drop_last() =~= code.take(m - 1));
    reveal_with_fuel(number, 2);
    assert(bit.drop_last() =~= Seq::empty());
    let next = c / pow2((l - m) as nat) as int;
    assert(next == 2 * (c / pow2((l - m + 1) as nat) as int) + f.st.top(1));
    if m < l {
        lemma_prefix_free(book, l, c, m);
        lemma_long_code_is_read(src, f.st.drop(1), book, l, c, m + 1, rest);
    } else {
        lemma2_to64();
        assert(next == c / 1);
        assert(after =~= rest);
    }
}

/// A symbol is read from its code: where the bits of a code come next, and
/// at least eight bits in all, the symbol of that code is read, and what
/// follows the code is left to read.
#[verifier::rlimit(40)]
#[verifier::spinoff_prover]
pub proof fn law_codes_are_read_as_their_symbols(
    src: Seq<u8>,
    s: BitState,
    book: CodeBook,
    l: int,
    c: int,
    rest: Seq<bool>,
)
    requires
        book.bits.len() == 16,
        is_codeword(book, l, c),
        readable(s),
        upcoming(src, s, bits_of(c, l as nat) + rest),
        l + rest.len() >= 8,
    ensures
        read_symbol(src, s, book).1 == Ok::<u8, DecodeError>(book.symbol(l, c)),
        readable(read_symbol(src, s, book).0),
        upcoming(src, read_symbol(src, s, book).0, rest),
{
    let code = bits_of(c, l as nat);
    let all = code + rest;
    law_bits_of_a_number(c, l as nat);
    lemma_refill_finds(src, s, all, 8);
    let f = ensure_bits(src, s, 8);
    let (eight, more) = (all.take(8), all.skip(8));
    assert(eight + more =~= all);
    lemma_consume_upcoming(src, f.st, eight, more);
    let key = number(eight);
    let top = if l <= 8 {
        l
    } else {
        8
    };
    assert forall|m: int| 1 <= m <= top implies #[trigger] (key / pow2((8 - m) as nat) as int) == c / pow2(
        (l - m) as nat,
    ) as int by {
        let (a, b) = (eight.take(m), eight.skip(m));
        assert(a + b =~= eight);
        lemma_number_add(a, b);
        assert(a =~= code.take(m));
        lemma_front_bits(c, l as nat, m as nat);
    }
    assert forall|m: int| 1 <= m <= top && m < l implies !#[trigger] book.is_code(
        m,
        key / pow2((8 - m) as nat) as int,
    ) by {
        lemma_prefix_free(book, l, c, m);
        assert(key / pow2((8 - m) as nat) as int == c / pow2((l - m) as nat) as int);
    }
    lemma2_to64();
    if l <= 8 {
        assert(key / pow2((8 - l) as nat) as int == c / pow2((l - l) as nat) as int);
        assert(c / 1 == c);
        lemma_prefix_length_is(book, key, l, 1);
        lemma_consume_upcoming(src, f.st, code, rest);
    } else {
        lemma_prefix_length_none(book, key, 1);
        assert(key / pow2((8 - 8) as nat) as int == c / pow2((l - 8) as nat) as int);
        assert(key / 1 == key);
        assert(more =~= code.skip(8) + rest);
        lemma_long_code_is_read(src, f.st.drop(8), book, l, c, 9, rest);
    }
}

/// Bits of whole bytes.
pub open spec fn bits_of_bytes(data: Seq<u8>) -> Seq<bool>
    decreases data.len(),
{
    if data.len() == 0 {
        Seq::empty()
    } else {
        bits_of_bytes(data.drop_last()) + bits_of(data.last() as int, 8)
    }
}

/// Data as it stands in a stream: a zero byte follows each `FF`.
pub open spec fn stuffed(data: Seq<u8>) -> Seq<u8>
    decreases data.len(),
{
    if data.len() == 0 {
        Seq::empty()
    } else if data.last() == 0xFF {
        stuffed(data.drop_last()) + seq![0xFFu8, 0]
    } else {
        stuffed(data.drop_last()).push(data.last())
    }
}

/// `n` zero bits.
pub open spec fn zeros(n: nat) -> Seq<bool> {
    Seq::new(n, |i: int| false)
}

/// At `pos` stand the bytes `part`.
pub open spec fn stands_at(src: Seq<u8>, pos: int, part: Seq<u8>) -> bool {
    &&& 0 <= pos
    &&& pos + part.len() <= src.len()
    &&& src.subrange(pos, pos + part.len()) == part
}

/// Stuffed data are fetched byte by byte.
#[verifier::rlimit(40)]
#[verifier::spinoff_prover]
proof fn lemma_stuffed_data_are_fetched(src: Seq<u8>, pos: int, data: Seq<u8>)
    requires
        stands_at(src, pos, stuffed(data)),
    ensures
        ({
            let f = fetch_bytes(src, BitState { pos, buf: 0, nbits: 0, marker: None }, data.len());
            &&& f.ok
            &&& f.st.pos == pos + stuffed(data).len()
            &&& f.st.nbits == 8 * data.len()
            &&& f.st.marker is None
            &&& f.st.buf == number(bits_of_bytes(data))
            &&& bits_of_bytes(data).len() == 8 * data.len()
        }),
    decreases data.len(),
{
    let fresh = BitState { pos, buf: 0, nbits: 0, marker: None };
    if data.len() > 0 {
        let front = data.drop_last();
        let (whole, part) = (stuffed(data), stuffed(front));
        let got = src.subrange(pos, pos + whole.len());
        assert(src.subrange(pos, pos + part.len()) =~= got.subrange(0, part.len() as int));
        assert(whole.subrange(0, part.len() as int) =~= part);
        lemma_stuffed_data_are_fetched(src, pos, front);
        lemma_fetch_bytes_add(src, fresh, front.len(), 1);
        let t = fetch_bytes(src, fresh, front.len()).st;
        assert(src[t.pos] == got[part.len() as int]);
        if data.last() == 0xFF {
            assert(src[t.pos + 1] == got[part.len() as int + 1]);
        }
        reveal_with_fuel(fetch_bytes, 2);
        lemma2_to64();
        law_bits_of_a_number(data.last() as int, 8);
        lemma_number_add(bits_of_bytes(front), bits_of(data.last() as int, 8));
    }
}

/// Zero bits stand for zero.
proof fn lemma_zeros(n: nat)
    ensures
        number(zeros(n)) == 0,
    decreases n,
{
    if n > 0 {
        assert(zeros(n).drop_last() =~= zeros((n - 1) as nat));
        lemma_zeros((n - 1) as nat);
    }
}

/// Past a marker, bytes of zeros are fetched.
proof fn lemma_zeros_are_fetched(src: Seq<u8>, s: BitState, k: nat)
    requires
        s.marker is Some,
    ensures
        fetch_bytes(src, s, k).ok,
        fetch_bytes(src, s, k).st.nbits == s.nbits + 8 * k,
        fetch_bytes(src, s, k).st.buf == s.buf * pow2(8 * k),
    decreases k,
{
    lemma2_to64();
    if k > 0 {
        lemma_zeros_are_fetched(src, s.push_byte(0, 0), (k - 1) as nat);
        lemma_pow2_adds(8, (8 * (k - 1)) as nat);
        let p = pow2((8 * (k - 1)) as nat) as int;
        assert(8 + (8 * (k - 1)) as nat == 8 * k);
        assert((s.buf * 256) * p == s.buf * (256 * p)) by (nonlinear_arith);
    } else {
        assert(pow2(8 * k) == 1);
    }
}

/// A reader at the start of entropy-coded data delivers the bits of the
/// data, without the zero bytes that are stuffed behind `FF`. Where a marker
/// follows the data, zero bits come after them, as many as are asked for.
#[verifier::rlimit(40)]
#[verifier::spinoff_prover]
pub proof fn law_data_are_delivered_unstuffed(src: Seq<u8>, pos: int, data: Seq<u8>, marker: u8, n: nat)
    requires
        stands_at(src, pos, stuffed(data)),
    ensures
        ({
            let fresh = BitState { pos, buf: 0, nbits: 0, marker: None };
            &&& readable(fresh)
            &&& upcoming(src, fresh, bits_of_bytes(data))
            &&& marker != 0 && stands_at(src, pos + stuffed(data).len(), seq![0xFFu8, marker]) ==> upcoming(
                src,
                fresh,
                bits_of_bytes(data) + zeros(n),
            )
        }),
{
    let fresh = BitState { pos, buf: 0, nbits: 0, marker: None };
    let all = bits_of_bytes(data);
    lemma2_to64();
    lemma_stuffed_data_are_fetched(src, pos, data);
    let t = fetch_bytes(src, fresh, data.len()).st;
    assert(t.top(all.len() as int) == t.buf / 1);
    assert(shows(src, fresh, all, data.len()));
    if marker != 0 && stands_at(src, t.pos, seq![0xFFu8, marker]) {
        let got = src.subrange(t.pos, t.pos + 2);
        assert(src[t.pos] == got[0] && src[t.pos + 1] == got[1]);
        let u = fetch_bytes(src, t, 1).st;
        reveal_with_fuel(fetch_bytes, 2);
        assert(u.marker is Some && u.buf == t.buf * 256 && u.nbits == t.nbits + 8);
        let k = n;
        lemma_zeros_are_fetched(src, u, k);
        lemma_fetch_bytes_add(src, t, 1, k);
        lemma_fetch_bytes_add(src, fresh, data.len(), 1 + k);
        let v = fetch_bytes(src, fresh, data.len() + (1 + k)).st;
        let long = all + zeros(n);
        lemma_number_add(all, zeros(n));
        lemma_zeros(n);
        // All the zeros fetched, and those among them that are shown.
        let e = (8 + 8 * k) as nat;
        lemma_pow2_adds(8, 8 * k);
        assert((t.buf * 256) * pow2(8 * k) == t.buf * (256 * pow2(8 * k))) by (nonlinear_arith);
        assert(v.buf == t.buf * pow2(e));
        lemma_pow2_adds(n, (e - n) as nat);
        lemma_pow2_pos((e - n) as nat);
        let (p, q) = (pow2(n) as int, pow2((e - n) as nat) as int);
        assert(t.buf * (p * q) == (t.buf * p) * q + 0) by (nonlinear_arith);
        lemma_fundamental_div_mod_converse(v.buf, q, t.buf * p, 0);
        assert(v.nbits - long.len() == e - n);
        assert(shows(src, fresh, long, data.len() + (1 + k)));
    }
}

/// `bits` are the code of `sym`.
pub open spec fn is_code_of(book: CodeBook, sym: u8, bits: Seq<bool>) -> bool {
    exists|l: int, c: int| #[trigger]
        is_codeword(book, l, c) && book.symbol(l, c) == sym && bits == bits_of(c, l as nat)
}

/// The code of a symbol, if the book has one for it.
pub open spec fn code_of(book: CodeBook, sym: u8) -> Option<Seq<bool>> {
    if exists|bits: Seq<bool>| is_code_of(book, sym, bits) {
        Some(choose|bits: Seq<bool>| is_code_of(book, sym, bits))
    } else {
        None
    }
}

/// Bits one behind the other, if both are there.
pub open spec fn joined(a: Option<Seq<bool>>, b: Option<Seq<bool>>) -> Option<Seq<bool>> {
    match (a, b) {
        (Some(x), Some(y)) => Some(x + y),
        _ => None,
    }
}

/// The code of a symbol is read as that symbol.
pub proof fn lemma_code_is_read(src: Seq<u8>, s: BitState, book: CodeBook, sym: u8, rest: Seq<bool>)
    requires
        book.bits.len() == 16,
        code_of(book, sym) is Some,
        readable(s),
        upcoming(src, s, code_of(book, sym)->0 + rest),
        code_of(book, sym)->0.len() + rest.len() >= 8,
    ensures
        code_of(book, sym)->0.len() >= 1,
        read_symbol(src, s, book).1 == Ok::<u8, DecodeError>(sym),
        readable(read_symbol(src, s, book).0),
        upcoming(src, read_symbol(src, s, book).0, rest),
{
    let a = code_of(book, sym)->0;
    assert(is_code_of(book, sym, a));
    let (l, c) = choose|l: int, c: int| #[trigger]
        is_codeword(book, l, c) && book.symbol(l, c) == sym && a == bits_of(c, l as nat);
    law_codes_are_read_as_their_symbols(src, s, book, l, c, rest);
}

/// The magnitude bits of a value that is not zero: as many as its category.
pub open spec fn value_bits(v: int) -> Seq<bool> {
    bits_of(magnitude_bits(v), category(v) as nat)
}

/// The magnitude bits of a value stand for that value.
proof fn lemma_value_bits(v: int)
    requires
        v != 0,
        -65535 <= v <= 65535,
    ensures
        1 <= category(v) <= 16,
        -32767 <= v <= 32767 ==> category(v) <= 15,
        value_bits(v).len() == category(v),
        0 <= number(value_bits(v)) <= 0xFFFF,
        extended(number(value_bits(v)), category(v)) == v,
{
    law_extend_inverts_category(v);
    law_bits_of_a_number(magnitude_bits(v), category(v) as nat);
    lemma2_to64();
    if category(v) < 16 {
        lemma_pow2_strictly_increases(category(v) as nat, 16);
    } else {
        lemma_bit_length(if v < 0 {
            -v
        } else {
            v
        });
    }
}

/// Where magnitude bits come next, they are read, and stand for the value.
proof fn lemma_value_is_read(src: Seq<u8>, s: BitState, v: int, rest: Seq<bool>)
    requires
        readable(s),
        v != 0,
        -65535 <= v <= 65535,
        upcoming(src, s, value_bits(v) + rest),
    ensures
        ({
            let (t, r) = read_bits(src, s, category(v));
            &&& r matches Ok(b) && extended(b as int, category(v)) == v
            &&& readable(t)
            &&& upcoming(src, t, rest)
        }),
{
    lemma_value_bits(v);
    law_bits_are_read_in_order(src, s, value_bits(v), rest);
}

/// How a DC difference is written: the code of its category, then its
/// magnitude bits.
pub open spec fn dc_coding(book: CodeBook, diff: int) -> Option<Seq<bool>> {
    if diff == 0 {
        code_of(book, 0)
    } else {
        joined(code_of(book, category(diff) as u8), Some(value_bits(diff)))
    }
}

/// Number of zero coefficients from `k` on, up to `end`.
pub open spec fn zero_run(zz: Seq<int>, k: int, end: int) -> int
    decreases end - k,
{
    if k >= end || zz[k] != 0 {
        0
    } else {
        1 + zero_run(zz, k + 1, end)
    }
}

/// How the coefficients `k..end` of a block in zig-zag order are written. A
/// coefficient that is not zero is the code of a symbol with the number of
/// zeros before it and its category, then its magnitude bits. Sixteen zeros
/// before one have a symbol of their own. Where zeros come last, `eob` stands
/// for them.
pub open spec fn ac_coding(book: CodeBook, zz: Seq<int>, k: int, end: int, eob: Option<Seq<bool>>) -> Option<Seq<bool>>
    decreases end - k,
{
    let run = zero_run(zz, k, end);
    if k >= end {
        Some(Seq::empty())
    } else if k + run >= end {
        eob
    } else if run >= 16 {
        joined(code_of(book, 0xF0), ac_coding(book, zz, k + 16, end, eob))
    } else if run < 0 {
        None
    } else {
        let v = zz[k + run];
        joined(
            code_of(book, (16 * run + category(v)) as u8),
            joined(Some(value_bits(v)), ac_coding(book, zz, k + run + 1, end, eob)),
        )
    }
}

/// How the end of a band is written, in this block and so many after it
/// that there are `2^r + x` in all: the code of a symbol with `r`, then `x` in
/// `r` bits.
pub open spec fn eob_coding(book: CodeBook, r: int, x: int) -> Option<Seq<bool>> {
    joined(code_of(book, (16 * r) as u8), Some(bits_of(x, r as nat)))
}

/// A run of zeros is as long as it says.
proof fn lemma_zero_run(zz: Seq<int>, k: int, end: int)
    requires
        0 <= k <= end <= zz.len(),
    ensures
        0 <= zero_run(zz, k, end) <= end - k,
        forall|i: int| k <= i < k + zero_run(zz, k, end) ==> zz[i] == 0,
        k + zero_run(zz, k, end) < end ==> zz[k + zero_run(zz, k, end)] != 0,
    decreases end - k,
{
    if k < end && zz[k] == 0 {
        lemma_zero_run(zz, k + 1, end);
    }
}

/// Coefficients that can be written: every one of 15 bits and a sign.
pub open spec fn in_range(zz: Seq<int>) -> bool {
    forall|i: int| 0 <= i < zz.len() ==> -32767 <= #[trigger] zz[i] <= 32767
}

/// An AC term is read as it was written.
#[verifier::rlimit(40)]
#[verifier::spinoff_prover]
proof fn lemma_ac_term_is_read(src: Seq<u8>, s: BitState, book: CodeBook, run: int, v: int, rest: Seq<bool>)
    requires
        book.bits.len() == 16,
        readable(s),
        0 <= run <= 15,
        v != 0,
        -32767 <= v <= 32767,
        code_of(book, (16 * run + category(v)) as u8) is Some,
        upcoming(src, s, code_of(book, (16 * run + category(v)) as u8)->0 + (value_bits(v) + rest)),
        rest.len() >= 10,
    ensures
        ({
            let (t, r) = read_ac(src, s, book);
            &&& r matches Ok((n, size, bits)) && n == run && size == category(v) && size > 0 && extended(
                bits,
                size,
            ) == v
            &&& readable(t)
            &&& upcoming(src, t, rest)
        }),
{
    lemma_value_bits(v);
    let sym = (16 * run + category(v)) as u8;
    assert(sym / 16 == run && sym % 16 == category(v));
    let a = code_of(book, sym)->0;
    lemma_refill_finds(src, s, a + (value_bits(v) + rest), 10);
    let f = ensure_bits(src, s, 10);
    lemma_code_is_read(src, f.st, book, sym, value_bits(v) + rest);
    lemma_value_is_read(src, read_symbol(src, f.st, book).0, v, rest);
}

/// A symbol without magnitude bits is read as it was written.
#[verifier::rlimit(40)]
#[verifier::spinoff_prover]
proof fn lemma_ac_mark_is_read(src: Seq<u8>, s: BitState, book: CodeBook, sym: u8, rest: Seq<bool>)
    requires
        book.bits.len() == 16,
        readable(s),
        sym % 16 == 0,
        code_of(book, sym) is Some,
        upcoming(src, s, code_of(book, sym)->0 + rest),
        rest.len() >= 10,
    ensures
        ({
            let (t, r) = read_ac(src, s, book);
            &&& r matches Ok((n, size, bits)) && n == sym / 16 && size == 0
            &&& readable(t)
            &&& upcoming(src, t, rest)
        }),
{
    lemma_refill_finds(src, s, code_of(book, sym)->0 + rest, 10);
    lemma_code_is_read(src, ensure_bits(src, s, 10).st, book, sym, rest);
}

/// The natural position of the coefficient at zig-zag position `j`.
#[verifier::opaque]
pub open spec fn place(j: int) -> int {
    ZIGZAG[j] as int
}

/// Every zig-zag position has a natural position of its own.
proof fn lemma_place(i: int, j: int)
    requires
        0 <= i < 64,
        0 <= j < 64,
    ensures
        0 <= place(j) < 64,
        place(j) == ZIGZAG[j],
        place(i) == place(j) ==> i == j,
{
    reveal(place);
    law_zigzag_is_permutation(i);
    law_zigzag_is_permutation(j);
}

/// The coefficients from `k` on are those of `zz`, dequantized; the others,
/// and those that are zero in `zz`, are as in `before`.
pub open spec fn filled_from(coef: Seq<i16>, before: Seq<i16>, zz: Seq<int>, qt: Seq<u16>, k: int) -> bool {
    &&& coef.len() == 64
    &&& forall|j: int|
        0 <= j < 64 ==> coef[#[trigger] place(j)] == if j >= k && zz[j] != 0 {
            dequantized(zz[j], qt[place(j)])
        } else {
            before[place(j)]
        }
}

/// One more coefficient in front of those that are filled.
proof fn lemma_filled_step(coef: Seq<i16>, before: Seq<i16>, zz: Seq<int>, qt: Seq<u16>, k: int, n: int)
    requires
        before.len() == 64,
        0 <= k <= n < 64,
        forall|i: int| k <= i < n ==> zz[i] == 0,
        filled_from(coef, before.update(place(n), dequantized(zz[n], qt[place(n)])), zz, qt, n + 1),
    ensures
        zz[n] != 0 ==> filled_from(coef, before, zz, qt, k),
{
    lemma_place(n, n);
    if zz[n] != 0 {
        assert forall|j: int| 0 <= j < 64 implies coef[#[trigger] place(j)] == if j >= k && zz[j] != 0 {
            dequantized(zz[j], qt[place(j)])
        } else {
            before[place(j)]
        } by {
            lemma_place(n, j);
        }
    }
}

/// The AC coefficients of a block from `k` on are read as they were written.
#[verifier::rlimit(40)]
#[verifier::spinoff_prover]
proof fn lemma_ac_coding_is_read(src: Seq<u8>, b: Block, book: CodeBook, qt: Seq<u16>, zz: Seq<int>, k: int, tail: Seq<bool>)
    requires
        book.bits.len() == 16,
        readable(b.br),
        b.err is None,
        b.coef.len() == 64,
        zz.len() == 64,
        in_range(zz),
        1 <= k <= 64,
        ac_coding(book, zz, k, 64, code_of(book, 0)) is Some,
        upcoming(src, b.br, ac_coding(book, zz, k, 64, code_of(book, 0))->0 + tail),
        tail.len() >= 10,
    ensures
        ({
            let r = read_ac_terms(src, b, book, qt, k);
            &&& r.err is None
            &&& r.prev_dc == b.prev_dc
            &&& readable(r.br)
            &&& upcoming(src, r.br, tail)
            &&& filled_from(r.coef, b.coef, zz, qt, k)
        }),
    decreases 64 - k,
{
    let all = ac_coding(book, zz, k, 64, code_of(book, 0))->0;
    if k >= 64 {
        assert(all + tail =~= tail);
    } else {
        lemma_zero_run(zz, k, 64);
        let run = zero_run(zz, k, 64);
        if k + run >= 64 {
            lemma_ac_mark_is_read(src, b.br, book, 0, tail);
        } else if run >= 16 {
            let more = ac_coding(book, zz, k + 16, 64, code_of(book, 0))->0;
            assert(all + tail =~= code_of(book, 0xF0)->0 + (more + tail));
            lemma_ac_mark_is_read(src, b.br, book, 0xF0, more + tail);
            let br = read_ac(src, b.br, book).0;
            lemma_ac_coding_is_read(src, Block { br, ..b }, book, qt, zz, k + 16, tail);
        } else {
            let n = k + run;
            let v = zz[n];
            let more = ac_coding(book, zz, n + 1, 64, code_of(book, 0))->0;
            let sym = (16 * run + category(v)) as u8;
            assert(all + tail =~= code_of(book, sym)->0 + (value_bits(v) + (more + tail)));
            lemma_ac_term_is_read(src, b.br, book, run, v, more + tail);
            let br = read_ac(src, b.br, book).0;
            lemma_place(n, n);
            let coef = b.coef.update(place(n), dequantized(v, qt[place(n)]));
            let next = Block { br, coef, ..b };
            lemma_ac_coding_is_read(src, next, book, qt, zz, n + 1, tail);
            assert(read_ac_terms(src, b, book, qt, k) == read_ac_terms(src, next, book, qt, n + 1));
            lemma_filled_step(read_ac_terms(src, b, book, qt, k).coef, b.coef, zz, qt, k, n);
        }
    }
}

/// How a block in zig-zag order is written, after a block whose DC
/// coefficient is `pred`.
pub open spec fn block_coding(dc: CodeBook, ac: CodeBook, zz: Seq<int>, pred: int) -> Option<Seq<bool>> {
    joined(dc_coding(dc, zz[0] - pred), ac_coding(ac, zz, 1, 64, code_of(ac, 0)))
}

/// A block of a baseline scan is read as it was written. The coefficient at
/// zig-zag position `k` comes out at its natural position, multiplied by the
/// table's entry for that same position; the DC coefficient becomes the next
/// predictor; and what follows the block is left to read.
#[verifier::rlimit(40)]
#[verifier::spinoff_prover]
pub proof fn law_written_block_is_read(
    src: Seq<u8>,
    s: BitState,
    dc: CodeBook,
    ac: CodeBook,
    qt: Seq<u16>,
    pred: int,
    zz: Seq<int>,
    tail: Seq<bool>,
)
    requires
        dc.bits.len() == 16,
        ac.bits.len() == 16,
        readable(s),
        zz.len() == 64,
        qt.len() == 64,
        in_range(zz),
        -32767 <= pred <= 32767,
        forall|k: int| 0 <= k < 64 ==> -32768 <= zz[k] * qt[#[trigger] ZIGZAG[k] as int] <= 32767,
        block_coding(dc, ac, zz, pred) is Some,
        upcoming(src, s, block_coding(dc, ac, zz, pred)->0 + tail),
        tail.len() >= 10,
    ensures
        ({
            let r = read_block(src, s, dc, ac, qt, pred, zero_block());
            &&& r.err is None
            &&& r.prev_dc == zz[0]
            &&& r.coef.len() == 64
            &&& forall|k: int|
                0 <= k < 64 ==> r.coef[#[trigger] ZIGZAG[k] as int] == zz[k] * qt[ZIGZAG[k] as int]
            &&& readable(r.br)
            &&& upcoming(src, r.br, tail)
        }),
{
    let diff = zz[0] - pred;
    let (d, a) = (dc_coding(dc, diff)->0, ac_coding(ac, zz, 1, 64, code_of(ac, 0))->0);
    let more = a + tail;
    assert((d + a) + tail =~= d + more);
    lemma_dc_coding_is_read(src, s, dc, diff, more);
    let blank = zero_block();
    let br = read_dc(src, s, dc).0;
    let coef = blank.update(0, dequantized(zz[0], qt[0]));
    let b = Block { br, prev_dc: zz[0], coef, err: None };
    lemma_ac_coding_is_read(src, b, ac, qt, zz, 1, tail);
    let r = read_block(src, s, dc, ac, qt, pred, blank);
    assert(r == read_ac_terms(src, b, ac, qt, 1));
    assert forall|k: int| 0 <= k < 64 implies r.coef[#[trigger] ZIGZAG[k] as int] == zz[k] * qt[ZIGZAG[k] as int] by {
        lemma_place(0, k);
        lemma_place(0, 0);
        let at = place(k);
        let (v, q) = (zz[k], qt[at] as int);
        assert(-32768 <= zz[k] * qt[ZIGZAG[k] as int] <= 32767);
        assert(v == 0 ==> v * q == 0) by (nonlinear_arith);
    }
}

/// A DC difference is read as it was written.
#[verifier::rlimit(40)]
#[verifier::spinoff_prover]
proof fn lemma_dc_coding_is_read(src: Seq<u8>, s: BitState, book: CodeBook, diff: int, rest: Seq<bool>)
    requires
        book.bits.len() == 16,
        readable(s),
        -65535 <= diff <= 65535,
        dc_coding(book, diff) is Some,
        upcoming(src, s, dc_coding(book, diff)->0 + rest),
        rest.len() >= 10,
    ensures
        ({
            let (t, r) = read_dc(src, s, book);
            &&& r matches Ok((size, bits)) && (if size == 0 {
                diff == 0
            } else {
                extended(bits, size) == diff
            })
            &&& readable(t)
            &&& upcoming(src, t, rest)
        }),
{
    let all = dc_coding(book, diff)->0 + rest;
    lemma_refill_finds(src, s, all, 10);
    let f = ensure_bits(src, s, 10);
    if diff == 0 {
        lemma_code_is_read(src, f.st, book, 0, rest);
    } else {
        lemma_value_bits(diff);
        let sym = category(diff) as u8;
        assert(all =~= code_of(book, sym)->0 + (value_bits(diff) + rest));
        lemma_code_is_read(src, f.st, book, sym, value_bits(diff) + rest);
        lemma_value_is_read(src, read_symbol(src, f.st, book).0, diff, rest);
    }
}

/// The same coefficients from `ss` on are read by the first scan of a
/// progressive band as they were written.
#[verifier::rlimit(40)]
#[verifier::spinoff_prover]
proof fn lemma_band_coding_is_read(
    src: Seq<u8>,
    b: BandBlock,
    book: CodeBook,
    se: int,
    al: int,
    zz: Seq<int>,
    k: int,
    r: int,
    x: int,
    tail: Seq<bool>,
)
    requires
        0 <= r <= 14,
        0 <= x < pow2(r as nat),
        book.bits.len() == 16,
        readable(b.br),
        b.err is None,
        b.eobrun == 0,
        b.coef.len() == 64,
        zz.len() == 64,
        in_range(zz),
        1 <= k <= se + 1 <= 64,
        ac_coding(book, zz, k, se + 1, eob_coding(book, r, x)) is Some,
        upcoming(src, b.br, ac_coding(book, zz, k, se + 1, eob_coding(book, r, x))->0 + tail),
        tail.len() >= 8,
    ensures
        ({
            let t = ac_first_terms(src, b, book, se, al, k);
            &&& t.err is None
            &&& t.eobrun == if k <= se && zz[se] == 0 {
                pow2(r as nat) + x - 1
            } else {
                0
            }
            &&& readable(t.br)
            &&& upcoming(src, t.br, tail)
            &&& t.coef.len() == 64
            &&& forall|i: int|
                0 <= i < 64 ==> #[trigger] t.coef[i] == if k <= i <= se && zz[i] != 0 {
                    at_bit(zz[i], al)
                } else {
                    b.coef[i]
                }
        }),
    decreases 64 - k,
{
    let all = ac_coding(book, zz, k, se + 1, eob_coding(book, r, x))->0;
    if k > se {
        assert(all + tail =~= tail);
    } else {
        lemma_zero_run(zz, k, se + 1);
        let run = zero_run(zz, k, se + 1);
        if k + run > se {
            let sym = (16 * r) as u8;
            assert(sym / 16 == r && sym % 16 == 0);
            assert(all + tail =~= code_of(book, sym)->0 + (bits_of(x, r as nat) + tail));
            law_bits_of_a_number(x, r as nat);
            lemma_code_is_read(src, b.br, book, sym, bits_of(x, r as nat) + tail);
            let br = read_symbol(src, b.br, book).0;
            lemma2_to64();
            lemma_pow2_strictly_increases(r as nat, 15);
            if r == 0 {
                assert(bits_of(x, r as nat) + tail =~= tail);
            } else {
                law_bits_are_read_in_order(src, br, bits_of(x, r as nat), tail);
            }
        } else if run >= 16 {
            let more = ac_coding(book, zz, k + 16, se + 1, eob_coding(book, r, x))->0;
            assert(all + tail =~= code_of(book, 0xF0)->0 + (more + tail));
            lemma_code_is_read(src, b.br, book, 0xF0, more + tail);
            let br = read_symbol(src, b.br, book).0;
            lemma_band_coding_is_read(src, BandBlock { br, ..b }, book, se, al, zz, k + 16, r, x, tail);
        } else {
            let v = zz[k + run];
            let more = ac_coding(book, zz, k + run + 1, se + 1, eob_coding(book, r, x))->0;
            lemma_value_bits(v);
            let sym = (16 * run + category(v)) as u8;
            assert(sym / 16 == run && sym % 16 == category(v));
            assert(all + tail =~= code_of(book, sym)->0 + (value_bits(v) + (more + tail)));
            lemma_code_is_read(src, b.br, book, sym, value_bits(v) + (more + tail));
            let br1 = read_symbol(src, b.br, book).0;
            lemma_value_is_read(src, br1, v, more + tail);
            let br = read_bits(src, br1, category(v)).0;
            let coef = b.coef.update(k + run, at_bit(v, al));
            lemma_band_coding_is_read(src, BandBlock { br, coef, ..b }, book, se, al, zz, k + run + 1, r, x, tail);
        }
    }
}

/// A block of the first scan of a band is read as it was written: the
/// coefficients of the band come out, times `2^al`, and the others stay. Where
/// the band ends in zeros, it is ended for `2^r + x - 1` further blocks.
#[verifier::rlimit(40)]
#[verifier::spinoff_prover]
pub proof fn law_written_band_is_read(
    src: Seq<u8>,
    s: BitState,
    book: CodeBook,
    ss: int,
    se: int,
    al: int,
    zz: Seq<int>,
    before: Seq<i16>,
    r: int,
    x: int,
    tail: Seq<bool>,
)
    requires
        0 <= r <= 14,
        0 <= x < pow2(r as nat),
        book.bits.len() == 16,
        readable(s),
        1 <= ss <= se <= 63,
        0 <= al <= 13,
        zz.len() == 64,
        before.len() == 64,
        in_range(zz),
        forall|i: int| ss <= i <= se ==> #[trigger] before[i] == 0,
        forall|i: int| ss <= i <= se ==> -32768 <= #[trigger] zz[i] * pow2(al as nat) <= 32767,
        ac_coding(book, zz, ss, se + 1, eob_coding(book, r, x)) is Some,
        upcoming(src, s, ac_coding(book, zz, ss, se + 1, eob_coding(book, r, x))->0 + tail),
        tail.len() >= 8,
    ensures
        ({
            let t = ac_first(src, BandBlock { br: s, eobrun: 0, coef: before, err: None }, book, ss, se, al);
            &&& t.err is None
            &&& t.eobrun == if zz[se] == 0 {
                pow2(r as nat) + x - 1
            } else {
                0
            }
            &&& forall|i: int|
                0 <= i < 64 ==> #[trigger] t.coef[i] == if ss <= i <= se {
                    zz[i] * pow2(al as nat)
                } else {
                    before[i] as int
                }
            &&& readable(t.br)
            &&& upcoming(src, t.br, tail)
        }),
{
    let b = BandBlock { br: s, eobrun: 0, coef: before, err: None };
    lemma_band_coding_is_read(src, b, book, se, al, zz, ss, r, x, tail);
    let t = ac_first(src, b, book, ss, se, al);
    assert forall|i: int| 0 <= i < 64 implies #[trigger] t.coef[i] == if ss <= i <= se {
        zz[i] * pow2(al as nat)
    } else {
        before[i] as int
    } by {
        if ss <= i <= se {
            let (v, p) = (zz[i], pow2(al as nat) as int);
            assert(-32768 <= zz[i] * pow2(al as nat) <= 32767);
            assert(v == 0 ==> v * p == 0) by (nonlinear_arith);
            assert(before[i] == 0);
        }
    }
}

/// The next block of an AC scan, where no restart is due.
proof fn lemma_next_ac_block(ctx: BandContext, s: BandState, i: int, book: CodeBook, m: nat)
    requires
        ac_blocks(ctx, s, i, book, m).err is None,
        ctx.interval <= 0 || ac_blocks(ctx, s, i, book, m).since < ctx.interval,
    ensures
        ({
            let t = ac_blocks(ctx, s, i, book, m);
            let u = ac_block_step(ctx, t, i, book, m as int);
            ac_blocks(ctx, s, i, book, m + 1) == if u.err is Some {
                u
            } else {
                BandState { since: u.since + 1, ..u }
            }
        }),
{
}

/// Within an end-of-band run, blocks pass without anything being read.
proof fn lemma_run_passes(ctx: BandContext, s: BandState, i: int, book: CodeBook, m: nat, j: nat)
    requires
        ({
            let t = ac_blocks(ctx, s, i, book, m);
            &&& t.err is None
            &&& t.eobrun >= j
            &&& ctx.interval <= 0 || t.since + j <= ctx.interval
            &&& 0 <= i < t.coefs.len()
            &&& m + j <= t.coefs[i].len()
        }),
        ctx.scan.ah == 0,
    ensures
        ({
            let t = ac_blocks(ctx, s, i, book, m);
            ac_blocks(ctx, s, i, book, m + j) == BandState { eobrun: t.eobrun - j, since: t.since + j, ..t }
        }),
    decreases j,
{
    if j > 0 {
        let t = ac_blocks(ctx, s, i, book, m);
        lemma_run_passes(ctx, s, i, book, m, (j - 1) as nat);
        let at = (m + (j - 1)) as nat;
        lemma_next_ac_block(ctx, s, i, book, at);
        assert(at + 1 == m + j);
        assert(t.coefs[i].update(at as int, t.coefs[i][at as int]) =~= t.coefs[i]);
        assert(t.coefs.update(i, t.coefs[i]) =~= t.coefs);
    }
}

/// The coefficients of `zz` stand in the band, moved to bit `al`.
pub open spec fn band_is(coef: Seq<i16>, zz: Seq<int>, ss: int, se: int, al: int) -> bool {
    forall|k: int| ss <= k <= se ==> #[trigger] coef[k] == zz[k] * pow2(al as nat)
}

/// A band that nothing was read into yet, and coefficients that fit in it.
pub open spec fn band_open(coef: Seq<i16>, zz: Seq<int>, ss: int, se: int, al: int) -> bool {
    &&& coef.len() == 64
    &&& zz.len() == 64
    &&& in_range(zz)
    &&& forall|k: int| ss <= k <= se ==> #[trigger] coef[k] == 0
    &&& forall|k: int| ss <= k <= se ==> -32768 <= #[trigger] zz[k] * pow2(al as nat) <= 32767
}

/// One written block of an AC scan.
#[verifier::rlimit(40)]
#[verifier::spinoff_prover]
proof fn lemma_scan_block_is_read(
    ctx: BandContext,
    s: BandState,
    i: int,
    book: CodeBook,
    m: nat,
    zz: Seq<int>,
    r: int,
    x: int,
    rest: Seq<bool>,
)
    requires
        0 <= r <= 14,
        0 <= x < pow2(r as nat),
        book.bits.len() == 16,
        rest.len() >= 8,
        ctx.scan.ah == 0,
        1 <= ctx.scan.ss <= ctx.scan.se <= 63,
        ctx.scan.al <= 13,
        ({
            let (ss, se, al) = (ctx.scan.ss as int, ctx.scan.se as int, ctx.scan.al as int);
            let t = ac_blocks(ctx, s, i, book, m);
            let a = ac_coding(book, zz, ss, se + 1, eob_coding(book, r, x));
            &&& t.err is None
            &&& t.eobrun == 0
            &&& readable(t.br)
            &&& ctx.interval <= 0 || t.since < ctx.interval
            &&& 0 <= i < t.coefs.len()
            &&& m < t.coefs[i].len()
            &&& band_open(t.coefs[i][m as int], zz, ss, se, al)
            &&& a is Some
            &&& upcoming(ctx.src, t.br, a->0 + rest)
        }),
    ensures
        ({
            let (ss, se, al) = (ctx.scan.ss as int, ctx.scan.se as int, ctx.scan.al as int);
            let t = ac_blocks(ctx, s, i, book, m);
            let u = ac_blocks(ctx, s, i, book, m + 1);
            &&& u.err is None
            &&& u.eobrun == if zz[se] == 0 {
                pow2(r as nat) + x - 1
            } else {
                0
            }
            &&& u.since == t.since + 1
            &&& readable(u.br)
            &&& upcoming(ctx.src, u.br, rest)
            &&& u.coefs.len() == t.coefs.len()
            &&& u.coefs[i].len() == t.coefs[i].len()
            &&& band_is(u.coefs[i][m as int], zz, ss, se, al)
            &&& forall|c: int|
                0 <= c < t.coefs[i].len() && c != m ==> #[trigger] u.coefs[i][c] == t.coefs[i][c]
        }),
{
    let (ss, se, al) = (ctx.scan.ss as int, ctx.scan.se as int, ctx.scan.al as int);
    let t = ac_blocks(ctx, s, i, book, m);
    law_written_band_is_read(ctx.src, t.br, book, ss, se, al, zz, t.coefs[i][m as int], r, x, rest);
    lemma_next_ac_block(ctx, s, i, book, m);
}

/// An end-of-band symbol with `r` and the extra bits `x` ends the band for
/// exactly `2^r + x` blocks. After the block that holds it, the following
/// `2^r + x - 1` blocks read nothing and stay as they are; the block after
/// them is read from what follows the symbol.
#[verifier::rlimit(60)]
#[verifier::spinoff_prover]
pub proof fn law_end_of_band_run_is_counted(
    ctx: BandContext,
    s: BandState,
    i: int,
    book: CodeBook,
    m: nat,
    zz: Seq<int>,
    r: int,
    x: int,
    next: Seq<int>,
    tail: Seq<bool>,
)
    requires
        0 <= r <= 14,
        0 <= x < pow2(r as nat),
        book.bits.len() == 16,
        tail.len() >= 8,
        ctx.scan.ah == 0,
        1 <= ctx.scan.ss <= ctx.scan.se <= 63,
        ctx.scan.al <= 13,
        ({
            let (ss, se, al) = (ctx.scan.ss as int, ctx.scan.se as int, ctx.scan.al as int);
            let t = ac_blocks(ctx, s, i, book, m);
            let n = pow2(r as nat) + x;
            let a = ac_coding(book, zz, ss, se + 1, eob_coding(book, r, x));
            let b = ac_coding(book, next, ss, se + 1, eob_coding(book, 0, 0));
            &&& t.err is None
            &&& t.eobrun == 0
            &&& readable(t.br)
            &&& ctx.interval <= 0 || t.since + n < ctx.interval
            &&& 0 <= i < t.coefs.len()
            &&& m + n < t.coefs[i].len()
            &&& band_open(t.coefs[i][m as int], zz, ss, se, al)
            &&& band_open(t.coefs[i][m + n], next, ss, se, al)
            &&& zz[se] == 0
            &&& a is Some
            &&& b is Some
            &&& upcoming(ctx.src, t.br, a->0 + (b->0 + tail))
        }),
    ensures
        ({
            let (ss, se, al) = (ctx.scan.ss as int, ctx.scan.se as int, ctx.scan.al as int);
            let t = ac_blocks(ctx, s, i, book, m);
            let n = pow2(r as nat) + x;
            let b = ac_coding(book, next, ss, se + 1, eob_coding(book, 0, 0))->0;
            let last = ac_blocks(ctx, s, i, book, (m + n + 1) as nat);
            &&& forall|j: nat|
                1 <= j <= n ==> {
                    let u = #[trigger] ac_blocks(ctx, s, i, book, m + j);
                    &&& u.err is None
                    &&& upcoming(ctx.src, u.br, b + tail)
                    &&& band_is(u.coefs[i][m as int], zz, ss, se, al)
                    &&& forall|c: int|
                        0 <= c < t.coefs[i].len() && c != m ==> #[trigger] u.coefs[i][c] == t.coefs[i][c]
                }
            &&& last.err is None
            &&& upcoming(ctx.src, last.br, tail)
            &&& band_is(last.coefs[i][m + n], next, ss, se, al)
        }),
{
    let (ss, se, al) = (ctx.scan.ss as int, ctx.scan.se as int, ctx.scan.al as int);
    let t = ac_blocks(ctx, s, i, book, m);
    let n = (pow2(r as nat) + x) as nat;
    let b = ac_coding(book, next, ss, se + 1, eob_coding(book, 0, 0))->0;
    lemma2_to64();
    lemma_pow2_pos(r as nat);
    lemma_scan_block_is_read(ctx, s, i, book, m, zz, r, x, b + tail);
    let first = ac_blocks(ctx, s, i, book, m + 1);
    assert forall|j: nat| 1 <= j <= n implies #[trigger] ac_blocks(ctx, s, i, book, m + j) == (BandState {
        eobrun: n - j,
        since: t.since + j,
        ..first
    }) by {
        lemma_run_passes(ctx, s, i, book, m + 1, (j - 1) as nat);
        assert(m + 1 + (j - 1) as nat == m + j);
    }
    let u = ac_blocks(ctx, s, i, book, m + n);
    assert(u.coefs[i][(m + n) as int] == t.coefs[i][(m + n) as int]);
    lemma_scan_block_is_read(ctx, s, i, book, m + n, next, 0, 0, tail);
}

/// A DC coefficient of a first scan is read as it was written: the
/// predictor moves by the difference, and the coefficient is the new
/// predictor, times `2^al`.
#[verifier::rlimit(40)]
#[verifier::spinoff_prover]
pub proof fn law_written_dc_is_read(
    src: Seq<u8>,
    s: BitState,
    book: CodeBook,
    pred: int,
    v: int,
    al: int,
    before: i16,
    tail: Seq<bool>,
)
    requires
        book.bits.len() == 16,
        readable(s),
        0 <= al <= 13,
        -32767 <= pred <= 32767,
        -32767 <= v <= 32767,
        -32768 <= v * pow2(al as nat) <= 32767,
        dc_coding(book, v - pred) is Some,
        upcoming(src, s, dc_coding(book, v - pred)->0 + tail),
        tail.len() >= 8,
    ensures
        ({
            let (t, next, dc, err) = dc_first(src, s, book, pred, al, before);
            &&& err is None
            &&& next == v
            &&& dc == v * pow2(al as nat)
            &&& readable(t)
            &&& upcoming(src, t, tail)
        }),
{
    let diff = v - pred;
    let all = dc_coding(book, diff)->0 + tail;
    if diff == 0 {
        lemma_code_is_read(src, s, book, 0, tail);
    } else {
        lemma_value_bits(diff);
        let sym = category(diff) as u8;
        assert(all =~= code_of(book, sym)->0 + (value_bits(diff) + tail));
        lemma_code_is_read(src, s, book, sym, value_bits(diff) + tail);
        lemma_value_is_read(src, read_symbol(src, s, book).0, diff, tail);
    }
}

/// A further scan of a DC coefficient reads one bit, and adds `2^al` to the
/// coefficient if it is set. The coefficient so far has nothing at that bit
/// or below.
#[verifier::rlimit(40)]
#[verifier::spinoff_prover]
pub proof fn law_dc_refinement_adds_its_bit(src: Seq<u8>, s: BitState, al: u8, dc: i16, bit: bool, tail: Seq<bool>)
    requires
        readable(s),
        al <= 13,
        dc as int % (2 * pow2(al as nat)) as int == 0,
        upcoming(src, s, seq![bit] + tail),
    ensures
        ({
            let (t, v, err) = dc_refine(src, s, al, dc);
            &&& err is None
            &&& v == dc + if bit {
                pow2(al as nat) as int
            } else {
                0
            }
            &&& readable(t)
            &&& upcoming(src, t, tail)
        }),
{
    law_bits_are_read_in_order(src, s, seq![bit], tail);
    reveal_with_fuel(number, 2);
    assert(seq![bit].drop_last() =~= Seq::empty());
    lemma2_to64();
    lemma_pow2_pos(al as nat);
    if al < 14 {
        lemma_pow2_strictly_increases(al as nat, 14);
    }
    vstd::bits::lemma_u32_shl_is_mul(1, al as u32);
    let unit = 1u32 << (al as u32);
    assert(unit == pow2(al as nat));
    let whole = 2 * unit;
    let d = dc as int;
    assert(d % whole == 0);
    let q = (unit as i16);
    assert((dc | (1i16 << al)) == dc + unit) by (bit_vector)
        requires
            al <= 13,
            unit == 1u32 << (al as u32),
            (dc as i32) % ((2 * unit) as i32) == 0,
    ;
}

/// The final dequantization of a progressive block multiplies the
/// coefficient at zig-zag position `k` by the table's entry for its natural
/// position, where it comes out. It is what a baseline block with the same
/// coefficients comes out as.
pub proof fn law_progressive_block_is_dequantized_in_place(zz: Seq<i16>, qt: Seq<u16>, k: int)
    requires
        zz.len() == 64,
        qt.len() == 64,
        0 <= k < 64,
        -32768 <= zz[k] * qt[ZIGZAG[k] as int] <= 32767,
    ensures
        natural_block(zz, qt)[ZIGZAG[k] as int] == zz[k] * qt[ZIGZAG[k] as int],
{
    law_zigzag_is_permutation(k);
}

/// A block in natural order, each coefficient times its table entry.
pub open spec fn natural_of(zz: Seq<int>, qt: Seq<u16>) -> Seq<i16> {
    Seq::new(64, |i: int| (zz[ZIGZAG_INVERSE[i] as int] * qt[i]) as i16)
}

/// A block that can be written and dequantized.
pub open spec fn block_fits(zz: Seq<int>, qt: Seq<u16>) -> bool {
    &&& zz.len() == 64
    &&& qt.len() == 64
    &&& in_range(zz)
    &&& forall|k: int| 0 <= k < 64 ==> -32768 <= zz[k] * qt[#[trigger] ZIGZAG[k] as int] <= 32767
}

/// A written block is read as the natural order of its coefficients times
/// the table.
pub proof fn lemma_written_block_is_natural(
    src: Seq<u8>,
    s: BitState,
    dc: CodeBook,
    ac: CodeBook,
    qt: Seq<u16>,
    pred: int,
    zz: Seq<int>,
    tail: Seq<bool>,
)
    requires
        dc.bits.len() == 16,
        ac.bits.len() == 16,
        readable(s),
        block_fits(zz, qt),
        -32767 <= pred <= 32767,
        block_coding(dc, ac, zz, pred) is Some,
        upcoming(src, s, block_coding(dc, ac, zz, pred)->0 + tail),
        tail.len() >= 10,
    ensures
        ({
            let r = read_block(src, s, dc, ac, qt, pred, zero_block());
            &&& r.err is None
            &&& r.prev_dc == zz[0]
            &&& r.coef == natural_of(zz, qt)
            &&& readable(r.br)
            &&& upcoming(src, r.br, tail)
        }),
{
    law_written_block_is_read(src, s, dc, ac, qt, pred, zz, tail);
    let r = read_block(src, s, dc, ac, qt, pred, zero_block());
    assert forall|i: int| 0 <= i < 64 implies r.coef[i] == natural_of(zz, qt)[i] by {
        law_zigzag_is_permutation(i);
        let k = ZIGZAG_INVERSE[i] as int;
        assert(r.coef[ZIGZAG[k] as int] == zz[k] * qt[ZIGZAG[k] as int]);
    }
    assert(r.coef =~= natural_of(zz, qt));
}

/// How the blocks from `n` on are written, one after the other.
pub open spec fn blocks_coding(dc: CodeBook, ac: CodeBook, blocks: Seq<Seq<int>>, n: int) -> Option<Seq<bool>>
    decreases blocks.len() - n,
{
    if n < 0 || n >= blocks.len() {
        Some(Seq::empty())
    } else {
        joined(
            block_coding(dc, ac, blocks[n], pred_before(blocks, n)),
            blocks_coding(dc, ac, blocks, n + 1),
        )
    }
}

/// The DC coefficient of the block before block `n`; zero before the first.
pub open spec fn pred_before(blocks: Seq<Seq<int>>, n: int) -> int {
    if n == 0 {
        0
    } else {
        blocks[n - 1][0]
    }
}

/// What holds between the blocks of a written scan.
pub open spec fn between_blocks(
    ctx: ScanContext,
    t: ScanState,
    part: ScanPart,
    blocks: Seq<Seq<int>>,
    n: int,
    tail: Seq<bool>,
) -> bool {
    &&& t.err is None
    &&& t.prev_dc.len() == 4
    &&& t.prev_dc[0] == pred_before(blocks, n)
    &&& readable(t.br)
    &&& blocks_coding(part.dc, part.ac, blocks, n) is Some
    &&& upcoming(ctx.src, t.br, blocks_coding(part.dc, part.ac, blocks, n)->0 + tail)
}

/// The next block of a written scan is decoded and placed.
#[verifier::rlimit(40)]
#[verifier::spinoff_prover]
proof fn lemma_next_written_block(
    ctx: ScanContext,
    s: ScanState,
    part: ScanPart,
    blocks: Seq<Seq<int>>,
    m: nat,
    tail: Seq<bool>,
)
    requires
        written_scan(ctx, s, part, blocks, tail),
        m < blocks.len(),
        between_blocks(ctx, single_blocks(ctx, s, part, m), part, blocks, m as int, tail),
    ensures
        between_blocks(ctx, single_blocks(ctx, s, part, m + 1), part, blocks, m as int + 1, tail),
        ({
            let t = single_blocks(ctx, s, part, m);
            let w = ctx.frame.blocks_x(part.index);
            single_blocks(ctx, s, part, m + 1).planes == t.planes.update(
                part.index,
                placed(
                    t.planes[part.index],
                    ctx.frame.stride(part.index),
                    8 * (m as int % w),
                    8 * (m as int / w),
                    idct_block(natural_of(blocks[m as int], part.quant)),
                ),
            )
        }),
{
    let t = single_blocks(ctx, s, part, m);
    let more = blocks_coding(part.dc, part.ac, blocks, m as int + 1)->0;
    let pred = pred_before(blocks, m as int);
    let one = block_coding(part.dc, part.ac, blocks[m as int], pred)->0;
    assert(blocks_coding(part.dc, part.ac, blocks, m as int)->0 + tail =~= one + (more + tail));
    assert(block_fits(blocks[m as int], part.quant));
    assert(-32767 <= blocks[m as int][0] <= 32767);
    if m > 0 {
        assert(block_fits(blocks[m - 1], part.quant));
        assert(-32767 <= blocks[m - 1][0] <= 32767);
    }
    lemma_written_block_is_natural(
        ctx.src,
        t.br,
        part.dc,
        part.ac,
        part.quant,
        pred,
        blocks[m as int],
        more + tail,
    );
}

/// A block of a grid of `w` blocks in a row, seen at one sample.
proof fn lemma_placed_in_grid(samples: Seq<u8>, st: int, w: int, m: int, block: Seq<u8>, col: int, row: int)
    requires
        0 < w,
        0 <= m,
        0 <= col < 8 * w,
        col < st,
        0 <= row,
        row * st + col < samples.len(),
    ensures
        placed(samples, st, 8 * (m % w), 8 * (m / w), block)[row * st + col] == if (row / 8) * w + col / 8 == m {
            block[8 * (row % 8) + col % 8]
        } else {
            samples[row * st + col]
        },
{
    let (bx, by) = (m % w, m / w);
    lemma_fundamental_div_mod(m, w);
    lemma_mod_bound(m, w);
    assert(by >= 0) by (nonlinear_arith)
        requires
            m == w * by + bx,
            0 <= m,
            bx < w,
            w > 0,
    ;
    law_placed_block_is_in_place(samples, st, 8 * bx, 8 * by, block, col, row);
    let b = (row / 8) * w + col / 8;
    if b == m {
        lemma_fundamental_div_mod_converse(b, w, row / 8, col / 8);
    } else {
        let (x, y) = (col / 8, row / 8);
        assert(!(bx == x && by == y)) by (nonlinear_arith)
            requires
                m == w * by + bx,
                b == y * w + x,
                b != m,
        ;
    }
}

/// A sample of the grid lies within its plane.
proof fn lemma_sample_in_plane(frame: Frame, i: int, col: int, row: int)
    requires
        frame.wf(),
        0 <= i < frame.components.len(),
        0 <= col < 8 * frame.blocks_x(i),
        0 <= row < 8 * frame.blocks_y(i),
    ensures
        0 < frame.blocks_x(i),
        col < frame.stride(i),
        0 <= row * frame.stride(i) + col < frame.stride(i) * frame.padded_height(i),
{
    lemma_geometry(frame, i);
    lemma_block_in_plane(frame, i, col / 8, row / 8);
    let st = frame.stride(i);
    let (y, tall) = (row / 8, (8 * (row / 8) + 8) * st);
    assert(0 <= row * st && row * st + st <= tall) by (nonlinear_arith)
        requires
            0 <= row,
            row + 1 <= 8 * y + 8,
            st >= 0,
            tall == (8 * y + 8) * st,
    ;
}

/// The first `n` blocks of a written scan of one component, seen at one
/// sample.
#[verifier::rlimit(40)]
#[verifier::spinoff_prover]
proof fn lemma_written_blocks(
    ctx: ScanContext,
    s: ScanState,
    part: ScanPart,
    blocks: Seq<Seq<int>>,
    n: nat,
    tail: Seq<bool>,
    col: int,
    row: int,
)
    requires
        written_scan(ctx, s, part, blocks, tail),
        n <= blocks.len(),
        0 <= col < 8 * ctx.frame.blocks_x(part.index),
        0 <= row < 8 * ctx.frame.blocks_y(part.index),
    ensures
        ({
            let t = single_blocks(ctx, s, part, n);
            let st = ctx.frame.stride(part.index);
            let b = (row / 8) * ctx.frame.blocks_x(part.index) + col / 8;
            &&& between_blocks(ctx, t, part, blocks, n as int, tail)
            &&& t.planes.len() == s.planes.len()
            &&& t.planes[part.index].len() == s.planes[part.index].len()
            &&& 0 <= b < n ==> t.planes[part.index][row * st + col] == idct_block(
                natural_of(blocks[b], part.quant),
            )[8 * (row % 8) + col % 8]
        }),
    decreases n,
{
    if n > 0 {
        let m = (n - 1) as nat;
        let i = part.index;
        lemma_written_blocks(ctx, s, part, blocks, m, tail, col, row);
        lemma_next_written_block(ctx, s, part, blocks, m, tail);
        lemma_sample_in_plane(ctx.frame, i, col, row);
        lemma_placed_in_grid(
            single_blocks(ctx, s, part, m).planes[i],
            ctx.frame.stride(i),
            ctx.frame.blocks_x(i),
            m as int,
            idct_block(natural_of(blocks[m as int], part.quant)),
            col,
            row,
        );
    }
}

/// A scan of one component without restarts whose data are the coding of
/// `blocks`, followed by `tail`.
pub open spec fn written_scan(
    ctx: ScanContext,
    s: ScanState,
    part: ScanPart,
    blocks: Seq<Seq<int>>,
    tail: Seq<bool>,
) -> bool {
    let i = part.index;
    &&& ctx.frame.wf()
    &&& ctx.interval == 0
    &&& 0 <= i < ctx.frame.components.len()
    &&& s.err is None
    &&& s.prev_dc.len() == 4
    &&& s.prev_dc[0] == 0
    &&& readable(s.br)
    &&& i < s.planes.len()
    &&& s.planes[i].len() == ctx.frame.stride(i) * ctx.frame.padded_height(i)
    &&& part.dc.bits.len() == 16
    &&& part.ac.bits.len() == 16
    &&& blocks.len() == ctx.frame.blocks_x(i) * ctx.frame.blocks_y(i)
    &&& forall|k: int| 0 <= k < blocks.len() ==> block_fits(#[trigger] blocks[k], part.quant)
    &&& blocks_coding(part.dc, part.ac, blocks, 0) is Some
    &&& upcoming(ctx.src, s.br, blocks_coding(part.dc, part.ac, blocks, 0)->0 + tail)
    &&& tail.len() >= 10
}

/// A baseline scan of one component is decoded as it was written. Block by
/// block, row by row of blocks, its samples are the inverse transform of the
/// coefficients, each times its table entry: the sample in column `col` and
/// row `row` is that of the block in column `col / 8` and row `row / 8`.
#[verifier::rlimit(40)]
#[verifier::spinoff_prover]
pub proof fn law_written_scan_is_decoded(
    ctx: ScanContext,
    start: int,
    planes: Seq<Seq<u8>>,
    part: ScanPart,
    blocks: Seq<Seq<int>>,
    tail: Seq<bool>,
    col: int,
    row: int,
)
    requires
        ctx.scan.components.len() == 1,
        scan_part(ctx, 0) == Ok::<ScanPart, DecodeError>(part),
        written_scan(
            ctx,
            ScanState {
                br: BitState { pos: start, buf: 0, nbits: 0, marker: None },
                prev_dc: seq![0i32, 0i32, 0i32, 0i32],
                since: 0,
                planes,
                err: None,
            },
            part,
            blocks,
            tail,
        ),
        0 <= col < 8 * ctx.frame.blocks_x(part.index),
        0 <= row < 8 * ctx.frame.blocks_y(part.index),
    ensures
        ({
            let r = baseline_scan(ctx, start, planes);
            let b = (row / 8) * ctx.frame.blocks_x(part.index) + col / 8;
            &&& r.err is None
            &&& r.planes[part.index][row * ctx.frame.stride(part.index) + col] == idct_block(
                natural_of(blocks[b], part.quant),
            )[8 * (row % 8) + col % 8]
            &&& upcoming(ctx.src, r.br, tail)
        }),
{
    reveal(baseline_scan);
    let s = ScanState {
        br: BitState { pos: start, buf: 0, nbits: 0, marker: None },
        prev_dc: seq![0i32, 0i32, 0i32, 0i32],
        since: 0,
        planes,
        err: None,
    };
    let (w, h) = (ctx.frame.blocks_x(part.index), ctx.frame.blocks_y(part.index));
    lemma_written_blocks(ctx, s, part, blocks, blocks.len(), tail, col, row);
    assert(Seq::<bool>::empty() + tail =~= tail);
    let (x, y) = (col / 8, row / 8);
    assert(0 <= y * w + x < w * h) by (nonlinear_arith)
        requires
            0 <= x < w,
            0 <= y < h,
    ;
}

/// Within an MCU the blocks of a component come row by row: the block in
/// column `dx` and row `dy` is the `(dy * h + dx)`-th, and stands that far
/// from the corner of the MCU.
pub proof fn law_blocks_of_an_mcu_come_in_raster_order(
    ctx: ScanContext,
    s: ScanState,
    ci: int,
    part: ScanPart,
    mx: int,
    my: int,
    dx: int,
    dy: int,
)
    requires
        0 <= dx < part.component.h,
        0 <= dy,
    ensures
        ({
            let (h, v) = (part.component.h as int, part.component.v as int);
            mcu_blocks(ctx, s, ci, part, mx, my, (dy * h + dx + 1) as nat) == block_step(
                ctx,
                mcu_blocks(ctx, s, ci, part, mx, my, (dy * h + dx) as nat),
                ci,
                part,
                mx * h + dx,
                my * v + dy,
            )
        }),
{
    let h = part.component.h as int;
    assert(dy * h >= 0) by (nonlinear_arith)
        requires
            dy >= 0,
            h >= 0,
    ;
    lemma_fundamental_div_mod_converse(dy * h + dx, h, dy, dx);
}

/// MCUs come row by row: the MCU in column `mx` and row `my` is the
/// `(my * mcus_x + mx)`-th.
pub proof fn law_mcus_come_in_raster_order(ctx: ScanContext, s: ScanState, mx: int, my: int)
    requires
        0 <= mx < ctx.frame.mcus_x(),
        0 <= my,
    ensures
        ({
            let w = ctx.frame.mcus_x();
            let t = mcus(ctx, s, (my * w + mx) as nat);
            let u = mcu_entries(ctx, restart_if_due(ctx, t), mx, my, ctx.scan.components.len());
            t.err is None ==> mcus(ctx, s, (my * w + mx + 1) as nat) == if u.err is Some {
                u
            } else {
                ScanState { since: u.since + 1, ..u }
            }
        }),
{
    let w = ctx.frame.mcus_x();
    assert(my * w >= 0) by (nonlinear_arith)
        requires
            my >= 0,
            w >= 0,
    ;
    lemma_fundamental_div_mod_converse(my * w + mx, w, my, mx);
}

/// `new` is a refinement of `old` by bit `al` at position `i`: a coefficient
/// that is not zero keeps its value or moves away from zero by `2^al`, and one
/// that is zero stays so or becomes `2^al` or `-2^al`.
pub open spec fn refines_at(old: Seq<i16>, new: Seq<int>, al: int, i: int) -> bool {
    let p = pow2(al as nat) as int;
    &&& -32768 <= new[i] <= 32767
    &&& old[i] > 0 ==> new[i] == old[i] || new[i] == old[i] + p
    &&& old[i] < 0 ==> new[i] == old[i] || new[i] == old[i] - p
    &&& old[i] == 0 ==> new[i] == 0 || new[i] == p || new[i] == -p
}

/// The correction bits of the coefficients `k..end` that are not zero: set
/// for those that move.
pub open spec fn corrections(old: Seq<i16>, new: Seq<int>, k: int, end: int) -> Seq<bool>
    decreases end - k,
{
    if k >= end {
        Seq::empty()
    } else if old[k] != 0 {
        seq![new[k] != old[k]] + corrections(old, new, k + 1, end)
    } else {
        corrections(old, new, k + 1, end)
    }
}

/// Number of zeros of `old` in `k..end`.
pub open spec fn zeros_in(old: Seq<i16>, k: int, end: int) -> int
    decreases end - k,
{
    if k >= end {
        0
    } else {
        zeros_in(old, k + 1, end) + if old[k] == 0 {
            1int
        } else {
            0
        }
    }
}

/// The first position from `k` on where a zero becomes something else, or
/// `end`.
pub open spec fn next_new(old: Seq<i16>, new: Seq<int>, k: int, end: int) -> int
    decreases end - k,
{
    if k >= end || old[k] == 0 && new[k] != 0 {
        k
    } else {
        next_new(old, new, k + 1, end)
    }
}

/// The position past the `n`-th zero of `old` from `k` on.
pub open spec fn past_zeros(old: Seq<i16>, k: int, end: int, n: int) -> int
    decreases end - k,
{
    if n <= 0 || k >= end {
        k
    } else {
        past_zeros(
            old,
            k + 1,
            end,
            if old[k] == 0 {
                n - 1
            } else {
                n
            },
        )
    }
}

/// How the further scan of the coefficients `k..end` of a block is written.
/// A zero that becomes something else is the code of a symbol with the number
/// of zeros before it that stay, then its sign, then the correction bits of
/// the coefficients passed on the way. Sixteen zeros that stay have a symbol
/// of their own. Where no zero changes any more, `eob` stands, and the
/// correction bits of the rest.
pub open spec fn refine_coding(
    book: CodeBook,
    old: Seq<i16>,
    new: Seq<int>,
    k: int,
    end: int,
    eob: Option<Seq<bool>>,
) -> Option<Seq<bool>>
    decreases end - k,
{
    let q = next_new(old, new, k, end);
    let z = zeros_in(old, k, q);
    let p = past_zeros(old, k, end, 16);
    if k >= end {
        Some(Seq::empty())
    } else if q >= end {
        joined(eob, Some(corrections(old, new, k, end)))
    } else if z >= 16 {
        if p <= k || p > end {
            None
        } else {
            joined(
                code_of(book, 0xF0),
                joined(Some(corrections(old, new, k, p)), refine_coding(book, old, new, p, end, eob)),
            )
        }
    } else if q < k {
        None
    } else {
        joined(
            code_of(book, (16 * z + 1) as u8),
            joined(
                Some(seq![new[q] > 0] + corrections(old, new, k, q)),
                refine_coding(book, old, new, q + 1, end, eob),
            ),
        )
    }
}

/// `coef` is `before` with the coefficients `lo..hi` of `new`.
pub open spec fn refined_between(coef: Seq<i16>, before: Seq<i16>, new: Seq<int>, lo: int, hi: int) -> bool {
    &&& coef.len() == 64
    &&& forall|i: int|
        0 <= i < 64 ==> #[trigger] coef[i] == if lo <= i < hi {
            new[i]
        } else {
            before[i] as int
        }
}

/// A block that is refined from `k` on: it still has the old coefficients
/// there.
pub open spec fn still_old(b: BandBlock, old: Seq<i16>, new: Seq<int>, se: int, al: int, k: int) -> bool {
    &&& readable(b.br)
    &&& b.err is None
    &&& b.coef.len() == 64
    &&& old.len() == 64
    &&& new.len() == 64
    &&& 0 <= al <= 13
    &&& 0 <= k <= se + 1 <= 64
    &&& forall|i: int| k <= i < 64 ==> #[trigger] b.coef[i] == old[i]
    &&& forall|i: int| k <= i <= se ==> #[trigger] refines_at(old, new, al, i)
}

/// One correction bit.
#[verifier::rlimit(40)]
#[verifier::spinoff_prover]
proof fn lemma_correction_is_read(
    src: Seq<u8>,
    b: BandBlock,
    old: Seq<i16>,
    new: Seq<int>,
    se: int,
    al: int,
    k: int,
    rest: Seq<bool>,
)
    requires
        still_old(b, old, new, se, al, k),
        k <= se,
        old[k] != 0,
        upcoming(src, b.br, seq![new[k] != old[k]] + rest),
    ensures
        ({
            let t = refine_one(src, b, al, k);
            &&& still_old(t, old, new, se, al, k + 1)
            &&& refined_between(t.coef, b.coef, new, k, k + 1)
            &&& t.eobrun == b.eobrun
            &&& upcoming(src, t.br, rest)
        }),
{
    let bit = new[k] != old[k];
    assert(refines_at(old, new, al, k));
    assert(b.coef[k] == old[k]);
    law_bits_are_read_in_order(src, b.br, seq![bit], rest);
    reveal_with_fuel(number, 2);
    assert(seq![bit].drop_last() =~= Seq::empty());
    assert(number(seq![bit]) == if bit {
        1int
    } else {
        0
    });
    let t = refine_one(src, b, al, k);
    assert forall|i: int| k + 1 <= i < 64 implies #[trigger] t.coef[i] == old[i] by {
        assert(b.coef[i] == old[i]);
    }
}

/// Refinements in two parts.
proof fn lemma_refined_parts(a: Seq<i16>, b: Seq<i16>, c: Seq<i16>, new: Seq<int>, lo: int, mid: int, hi: int)
    requires
        lo <= mid <= hi,
        refined_between(b, a, new, lo, mid),
        refined_between(c, b, new, mid, hi),
    ensures
        refined_between(c, a, new, lo, hi),
{
    assert forall|i: int| 0 <= i < 64 implies #[trigger] c[i] == if lo <= i < hi {
        new[i]
    } else {
        a[i] as int
    } by {
        assert(b[i] == if lo <= i < mid {
            new[i]
        } else {
            a[i] as int
        });
    }
}

/// The rest of a band in which no zero changes.
proof fn lemma_rest_is_refined(
    src: Seq<u8>,
    b: BandBlock,
    old: Seq<i16>,
    new: Seq<int>,
    se: int,
    al: int,
    k: int,
    rest: Seq<bool>,
)
    requires
        still_old(b, old, new, se, al, k),
        forall|i: int| k <= i <= se && #[trigger] old[i] == 0 ==> new[i] == 0,
        upcoming(src, b.br, corrections(old, new, k, se + 1) + rest),
    ensures
        ({
            let t = refine_band(src, b, se, al, k);
            &&& t.err is None
            &&& readable(t.br)
            &&& refined_between(t.coef, b.coef, new, k, se + 1)
            &&& t.eobrun == b.eobrun
            &&& upcoming(src, t.br, rest)
        }),
    decreases se + 1 - k,
{
    if k > se {
        assert(corrections(old, new, k, se + 1) + rest =~= rest);
    } else if old[k] != 0 {
        let more = corrections(old, new, k + 1, se + 1) + rest;
        assert(corrections(old, new, k, se + 1) + rest =~= seq![new[k] != old[k]] + more);
        assert(b.coef[k] == old[k]);
        lemma_correction_is_read(src, b, old, new, se, al, k, more);
        let t = refine_one(src, b, al, k);
        lemma_rest_is_refined(src, t, old, new, se, al, k + 1, rest);
        lemma_refined_parts(b.coef, t.coef, refine_band(src, t, se, al, k + 1).coef, new, k, k + 1, se + 1);
    } else {
        assert(b.coef[k] == old[k]);
        lemma_rest_is_refined(src, b, old, new, se, al, k + 1, rest);
        assert(refined_between(b.coef, b.coef, new, k, k + 1));
        lemma_refined_parts(b.coef, b.coef, refine_band(src, b, se, al, k + 1).coef, new, k, k + 1, se + 1);
    }
}

/// A zero that is the last of its range is counted.
proof fn lemma_zero_is_counted(old: Seq<i16>, k: int, p: int)
    requires
        k < p,
        old[p - 1] == 0,
    ensures
        zeros_in(old, k, p) >= 1,
    decreases p - k,
{
    lemma_zeros_not_negative(old, k + 1, p);
    if k < p - 1 {
        lemma_zero_is_counted(old, k + 1, p);
    }
}

/// Counts are not negative.
proof fn lemma_zeros_not_negative(old: Seq<i16>, k: int, p: int)
    ensures
        zeros_in(old, k, p) >= 0,
    decreases p - k,
{
    if k < p {
        lemma_zeros_not_negative(old, k + 1, p);
    }
}

/// `n` zeros up to `p` are passed, and what lies between them is corrected.
proof fn lemma_zeros_are_passed(
    src: Seq<u8>,
    b: BandBlock,
    old: Seq<i16>,
    new: Seq<int>,
    se: int,
    al: int,
    k: int,
    p: int,
    n: int,
    rest: Seq<bool>,
)
    requires
        still_old(b, old, new, se, al, k),
        k <= p <= se + 1,
        zeros_in(old, k, p) == n,
        n > 0 ==> old[p - 1] == 0,
        n == 0 ==> p == k,
        forall|i: int| k <= i < p && #[trigger] old[i] == 0 ==> new[i] == 0,
        upcoming(src, b.br, corrections(old, new, k, p) + rest),
    ensures
        ({
            let (t, end) = skip_zeros(src, b, se, al, k, n);
            &&& end == p
            &&& still_old(t, old, new, se, al, p)
            &&& refined_between(t.coef, b.coef, new, k, p)
            &&& t.eobrun == b.eobrun
            &&& upcoming(src, t.br, rest)
        }),
    decreases p - k,
{
    lemma_zeros_not_negative(old, k, p);
    lemma_zeros_not_negative(old, k + 1, p);
    if n == 0 {
        assert(corrections(old, new, k, p) + rest =~= rest);
    } else if old[k] != 0 {
        let more = corrections(old, new, k + 1, p) + rest;
        assert(corrections(old, new, k, p) + rest =~= seq![new[k] != old[k]] + more);
        assert(b.coef[k] == old[k]);
        lemma_correction_is_read(src, b, old, new, se, al, k, more);
        let t = refine_one(src, b, al, k);
        lemma_zeros_are_passed(src, t, old, new, se, al, k + 1, p, n, rest);
        lemma_refined_parts(b.coef, t.coef, skip_zeros(src, t, se, al, k + 1, n).0.coef, new, k, k + 1, p);
    } else {
        assert(b.coef[k] == old[k]);
        if n == 1 && p > k + 1 {
            lemma_zero_is_counted(old, k + 1, p);
        }
        assert(still_old(b, old, new, se, al, k + 1));
        lemma_zeros_are_passed(src, b, old, new, se, al, k + 1, p, n - 1, rest);
        assert(refined_between(b.coef, b.coef, new, k, k + 1));
        lemma_refined_parts(b.coef, b.coef, skip_zeros(src, b, se, al, k + 1, n - 1).0.coef, new, k, k + 1, p);
    }
}

/// `n` zeros are passed, and the next zero, at `q`, becomes `v`.
proof fn lemma_new_is_inserted(
    src: Seq<u8>,
    b: BandBlock,
    old: Seq<i16>,
    new: Seq<int>,
    se: int,
    al: int,
    k: int,
    q: int,
    n: int,
    v: i16,
    rest: Seq<bool>,
)
    requires
        still_old(b, old, new, se, al, k),
        k <= q <= se,
        old[q] == 0,
        new[q] == v,
        zeros_in(old, k, q) == n,
        forall|i: int| k <= i < q && #[trigger] old[i] == 0 ==> new[i] == 0,
        upcoming(src, b.br, corrections(old, new, k, q) + rest),
    ensures
        ({
            let (t, end) = insert_new(src, b, se, al, k, n, v);
            &&& end == q + 1
            &&& still_old(t, old, new, se, al, q + 1)
            &&& refined_between(t.coef, b.coef, new, k, q + 1)
            &&& t.eobrun == b.eobrun
            &&& upcoming(src, t.br, rest)
        }),
    decreases q - k,
{
    lemma_zeros_not_negative(old, k, q);
    lemma_zeros_not_negative(old, k + 1, q);
    assert(b.coef[k] == old[k]);
    if old[k] != 0 {
        let more = corrections(old, new, k + 1, q) + rest;
        assert(corrections(old, new, k, q) + rest =~= seq![new[k] != old[k]] + more);
        lemma_correction_is_read(src, b, old, new, se, al, k, more);
        let t = refine_one(src, b, al, k);
        lemma_new_is_inserted(src, t, old, new, se, al, k + 1, q, n, v, rest);
        lemma_refined_parts(b.coef, t.coef, insert_new(src, t, se, al, k + 1, n, v).0.coef, new, k, k + 1, q + 1);
    } else if n > 0 {
        assert(still_old(b, old, new, se, al, k + 1));
        lemma_new_is_inserted(src, b, old, new, se, al, k + 1, q, n - 1, v, rest);
        assert(refined_between(b.coef, b.coef, new, k, k + 1));
        lemma_refined_parts(
            b.coef,
            b.coef,
            insert_new(src, b, se, al, k + 1, n - 1, v).0.coef,
            new,
            k,
            k + 1,
            q + 1,
        );
    } else {
        assert(k == q);
        assert(corrections(old, new, k, q) + rest =~= rest);
        let t = insert_new(src, b, se, al, k, n, v).0;
        assert forall|i: int| q + 1 <= i < 64 implies #[trigger] t.coef[i] == old[i] by {
            assert(b.coef[i] == old[i]);
        }
    }
}

/// What [`next_new`] finds.
proof fn lemma_next_new(old: Seq<i16>, new: Seq<int>, k: int, end: int)
    requires
        k <= end,
    ensures
        ({
            let q = next_new(old, new, k, end);
            &&& k <= q <= end
            &&& q < end ==> old[q] == 0 && new[q] != 0
            &&& forall|i: int| k <= i < q && #[trigger] old[i] == 0 ==> new[i] == 0
        }),
    decreases end - k,
{
    if k < end && !(old[k] == 0 && new[k] != 0) {
        lemma_next_new(old, new, k + 1, end);
    }
}

/// What [`past_zeros`] finds, where there are enough zeros before `q`.
proof fn lemma_past_zeros(old: Seq<i16>, k: int, q: int, end: int, n: int)
    requires
        k <= q <= end,
        1 <= n <= zeros_in(old, k, q),
    ensures
        ({
            let p = past_zeros(old, k, end, n);
            &&& k < p <= q
            &&& zeros_in(old, k, p) == n
            &&& old[p - 1] == 0
        }),
    decreases q - k,
{
    let m = if old[k] == 0 {
        n - 1
    } else {
        n
    };
    if m >= 1 {
        lemma_past_zeros(old, k + 1, q, end, m);
    } else {
        assert(past_zeros(old, k + 1, end, 0) == k + 1);
        assert(zeros_in(old, k + 1, k + 1) == 0);
    }
}

/// Sixteen zeros that stay are read as they were written.
#[verifier::rlimit(40)]
#[verifier::spinoff_prover]
proof fn lemma_sixteen_zeros_are_read(
    src: Seq<u8>,
    b: BandBlock,
    book: CodeBook,
    old: Seq<i16>,
    new: Seq<int>,
    se: int,
    al: int,
    k: int,
    p: int,
    later: Seq<bool>,
)
    requires
        book.bits.len() == 16,
        still_old(b, old, new, se, al, k),
        b.eobrun == 0,
        k < p <= se + 1,
        zeros_in(old, k, p) == 16,
        old[p - 1] == 0,
        forall|i: int| k <= i < p && #[trigger] old[i] == 0 ==> new[i] == 0,
        code_of(book, 0xF0) is Some,
        upcoming(src, b.br, code_of(book, 0xF0)->0 + (corrections(old, new, k, p) + later)),
        later.len() >= 8,
    ensures
        ({
            let t = skip_zeros(src, BandBlock { br: read_symbol(src, b.br, book).0, ..b }, se, al, k, 16).0;
            &&& ac_refine_terms(src, b, book, se, al, k) == ac_refine_terms(src, t, book, se, al, p)
            &&& still_old(t, old, new, se, al, p)
            &&& refined_between(t.coef, b.coef, new, k, p)
            &&& t.eobrun == 0
            &&& upcoming(src, t.br, later)
        }),
{
    lemma_code_is_read(src, b.br, book, 0xF0, corrections(old, new, k, p) + later);
    let b1 = BandBlock { br: read_symbol(src, b.br, book).0, ..b };
    assert(still_old(b1, old, new, se, al, k)) by {
        assert forall|i: int| k <= i < 64 implies #[trigger] b1.coef[i] == old[i] by {
            assert(b.coef[i] == old[i]);
        }
    }
    lemma_zeros_are_passed(src, b1, old, new, se, al, k, p, 16, later);
}

/// A new coefficient is read as it was written.
#[verifier::rlimit(40)]
#[verifier::spinoff_prover]
proof fn lemma_new_coefficient_is_read(
    src: Seq<u8>,
    b: BandBlock,
    book: CodeBook,
    old: Seq<i16>,
    new: Seq<int>,
    se: int,
    al: int,
    k: int,
    q: int,
    z: int,
    later: Seq<bool>,
)
    requires
        book.bits.len() == 16,
        still_old(b, old, new, se, al, k),
        b.eobrun == 0,
        k <= q <= se,
        0 <= z < 16,
        zeros_in(old, k, q) == z,
        old[q] == 0,
        new[q] != 0,
        forall|i: int| k <= i < q && #[trigger] old[i] == 0 ==> new[i] == 0,
        code_of(book, (16 * z + 1) as u8) is Some,
        upcoming(
            src,
            b.br,
            code_of(book, (16 * z + 1) as u8)->0 + (seq![new[q] > 0] + (corrections(old, new, k, q) + later)),
        ),
        later.len() >= 8,
    ensures
        ({
            let br = read_symbol(src, b.br, book).0;
            let t = insert_new(
                src,
                BandBlock { br: read_bits(src, br, 1).0, ..b },
                se,
                al,
                k,
                z,
                new[q] as i16,
            ).0;
            &&& ac_refine_terms(src, b, book, se, al, k) == ac_refine_terms(src, t, book, se, al, q + 1)
            &&& still_old(t, old, new, se, al, q + 1)
            &&& refined_between(t.coef, b.coef, new, k, q + 1)
            &&& t.eobrun == 0
            &&& upcoming(src, t.br, later)
        }),
{
    let sym = (16 * z + 1) as u8;
    assert(sym / 16 == z && sym % 16 == 1);
    let plus = new[q] > 0;
    let more = corrections(old, new, k, q) + later;
    lemma_code_is_read(src, b.br, book, sym, seq![plus] + more);
    let br = read_symbol(src, b.br, book).0;
    law_bits_are_read_in_order(src, br, seq![plus], more);
    reveal_with_fuel(number, 2);
    assert(seq![plus].drop_last() =~= Seq::empty());
    assert(number(seq![plus]) == if plus {
        1int
    } else {
        0
    });
    assert(refines_at(old, new, al, q));
    lemma2_to64();
    lemma_pow2_pos(al as nat);
    if al < 13 {
        lemma_pow2_strictly_increases(al as nat, 13);
    }
    let v = new[q] as i16;
    assert(v == if plus {
        at_bit(1, al)
    } else {
        at_bit(-1, al)
    });
    let b1 = BandBlock { br: read_bits(src, br, 1).0, ..b };
    assert(still_old(b1, old, new, se, al, k)) by {
        assert forall|i: int| k <= i < 64 implies #[trigger] b1.coef[i] == old[i] by {
            assert(b.coef[i] == old[i]);
        }
    }
    lemma_new_is_inserted(src, b1, old, new, se, al, k, q, z, v, later);
}

/// A band that changes in no zero any more is read as it was written.
#[verifier::rlimit(40)]
#[verifier::spinoff_prover]
proof fn lemma_last_of_band_is_read(
    src: Seq<u8>,
    b: BandBlock,
    book: CodeBook,
    old: Seq<i16>,
    new: Seq<int>,
    se: int,
    al: int,
    k: int,
    r: int,
    x: int,
    tail: Seq<bool>,
)
    requires
        0 <= r <= 14,
        0 <= x < pow2(r as nat),
        book.bits.len() == 16,
        still_old(b, old, new, se, al, k),
        k <= se,
        forall|i: int| k <= i <= se && #[trigger] old[i] == 0 ==> new[i] == 0,
        eob_coding(book, r, x) is Some,
        upcoming(src, b.br, eob_coding(book, r, x)->0 + (corrections(old, new, k, se + 1) + tail)),
        tail.len() >= 8,
    ensures
        ({
            let t = ac_refine_terms(src, b, book, se, al, k);
            &&& t.err is None
            &&& readable(t.br)
            &&& refined_between(t.coef, b.coef, new, k, se + 1)
            &&& upcoming(src, t.br, tail)
            &&& t.eobrun == pow2(r as nat) + x - 1
        }),
{
    lemma_end_of_band_is_read(src, b, book, r, x, corrections(old, new, k, se + 1) + tail);
    let br = read_symbol(src, b.br, book).0;
    let b1 = BandBlock { br: read_eobrun(src, br, r).0, eobrun: pow2(r as nat) + x - 1, ..b };
    assert(still_old(b1, old, new, se, al, k)) by {
        assert forall|i: int| k <= i < 64 implies #[trigger] b1.coef[i] == old[i] by {
            assert(b.coef[i] == old[i]);
        }
    }
    lemma_rest_is_refined(src, b1, old, new, se, al, k, tail);
    assert(ac_refine_terms(src, b, book, se, al, k) == refine_band(src, b1, se, al, k));
}

/// The further scan of a band from `k` on is read as it was written.
#[verifier::rlimit(60)]
#[verifier::spinoff_prover]
proof fn lemma_refinement_is_read(
    src: Seq<u8>,
    b: BandBlock,
    book: CodeBook,
    old: Seq<i16>,
    new: Seq<int>,
    se: int,
    al: int,
    k: int,
    r: int,
    x: int,
    tail: Seq<bool>,
)
    requires
        0 <= r <= 14,
        0 <= x < pow2(r as nat),
        book.bits.len() == 16,
        still_old(b, old, new, se, al, k),
        b.eobrun == 0,
        refine_coding(book, old, new, k, se + 1, eob_coding(book, r, x)) is Some,
        upcoming(src, b.br, refine_coding(book, old, new, k, se + 1, eob_coding(book, r, x))->0 + tail),
        tail.len() >= 8,
    ensures
        ({
            let t = ac_refine_terms(src, b, book, se, al, k);
            &&& t.err is None
            &&& readable(t.br)
            &&& refined_between(t.coef, b.coef, new, k, se + 1)
            &&& upcoming(src, t.br, tail)
            &&& t.eobrun == if k <= se && !(old[se] == 0 && new[se] != 0) {
                pow2(r as nat) + x - 1
            } else {
                0
            }
        }),
    decreases se + 1 - k,
{
    let end = se + 1;
    let eob = eob_coding(book, r, x);
    let all = refine_coding(book, old, new, k, end, eob)->0;
    if k >= end {
        assert(all + tail =~= tail);
    } else {
        let q = next_new(old, new, k, end);
        lemma_next_new(old, new, k, end);
        let z = zeros_in(old, k, q);
        lemma_zeros_not_negative(old, k, q);
        if q >= end {
            assert(all + tail =~= eob->0 + (corrections(old, new, k, end) + tail));
            lemma_last_of_band_is_read(src, b, book, old, new, se, al, k, r, x, tail);
        } else if z >= 16 {
            let p = past_zeros(old, k, end, 16);
            lemma_past_zeros(old, k, q, end, 16);
            let later = refine_coding(book, old, new, p, end, eob)->0 + tail;
            assert(all + tail =~= code_of(book, 0xF0)->0 + (corrections(old, new, k, p) + later));
            lemma_sixteen_zeros_are_read(src, b, book, old, new, se, al, k, p, later);
            let b1 = BandBlock { br: read_symbol(src, b.br, book).0, ..b };
            let t = skip_zeros(src, b1, se, al, k, 16).0;
            lemma_refinement_is_read(src, t, book, old, new, se, al, p, r, x, tail);
            lemma_refined_parts(b.coef, t.coef, ac_refine_terms(src, t, book, se, al, p).coef, new, k, p, end);
        } else {
            let sym = (16 * z + 1) as u8;
            let plus = new[q] > 0;
            let later = refine_coding(book, old, new, q + 1, end, eob)->0 + tail;
            assert(all + tail =~= code_of(book, sym)->0 + (seq![plus] + (corrections(old, new, k, q) + later)));
            lemma_new_coefficient_is_read(src, b, book, old, new, se, al, k, q, z, later);
            let br = read_symbol(src, b.br, book).0;
            let b1 = BandBlock { br: read_bits(src, br, 1).0, ..b };
            let t = insert_new(src, b1, se, al, k, z, new[q] as i16).0;
            lemma_refinement_is_read(src, t, book, old, new, se, al, q + 1, r, x, tail);
            lemma_refined_parts(
                b.coef,
                t.coef,
                ac_refine_terms(src, t, book, se, al, q + 1).coef,
                new,
                k,
                q + 1,
                end,
            );
        }
    }
}

/// An end-of-band symbol and its extra bits are read as they were written.
#[verifier::rlimit(40)]
#[verifier::spinoff_prover]
proof fn lemma_end_of_band_is_read(
    src: Seq<u8>,
    b: BandBlock,
    book: CodeBook,
    r: int,
    x: int,
    more: Seq<bool>,
)
    requires
        0 <= r <= 14,
        0 <= x < pow2(r as nat),
        book.bits.len() == 16,
        readable(b.br),
        eob_coding(book, r, x) is Some,
        upcoming(src, b.br, eob_coding(book, r, x)->0 + more),
        more.len() >= 8,
    ensures
        ({
            let (br, sym) = read_symbol(src, b.br, book);
            let (t, n) = read_eobrun(src, br, r);
            &&& sym matches Ok(v) && v == 16 * r
            &&& n == Ok::<int, DecodeError>(pow2(r as nat) + x - 1)
            &&& readable(t)
            &&& upcoming(src, t, more)
        }),
{
    let sym = (16 * r) as u8;
    let extra = bits_of(x, r as nat);
    assert(eob_coding(book, r, x)->0 + more =~= code_of(book, sym)->0 + (extra + more));
    law_bits_of_a_number(x, r as nat);
    lemma_code_is_read(src, b.br, book, sym, extra + more);
    lemma2_to64();
    lemma_pow2_strictly_increases(r as nat, 15);
    if r == 0 {
        assert(extra + more =~= more);
    } else {
        law_bits_are_read_in_order(src, read_symbol(src, b.br, book).0, extra, more);
    }
}

/// A block of a further scan of a band is read as it was written: the
/// refined coefficients come out, and those outside the band stay. Where the
/// last coefficient of the band is not a new one, the band is ended for
/// `2^r + x - 1` further blocks.
pub proof fn law_written_refinement_is_read(
    src: Seq<u8>,
    s: BitState,
    book: CodeBook,
    ss: int,
    se: int,
    al: int,
    old: Seq<i16>,
    new: Seq<int>,
    r: int,
    x: int,
    tail: Seq<bool>,
)
    requires
        0 <= r <= 14,
        0 <= x < pow2(r as nat),
        book.bits.len() == 16,
        readable(s),
        1 <= ss <= se <= 63,
        0 <= al <= 13,
        old.len() == 64,
        new.len() == 64,
        forall|i: int| ss <= i <= se ==> #[trigger] refines_at(old, new, al, i),
        refine_coding(book, old, new, ss, se + 1, eob_coding(book, r, x)) is Some,
        upcoming(src, s, refine_coding(book, old, new, ss, se + 1, eob_coding(book, r, x))->0 + tail),
        tail.len() >= 8,
    ensures
        ({
            let t = ac_refine(src, BandBlock { br: s, eobrun: 0, coef: old, err: None }, book, ss, se, al);
            &&& t.err is None
            &&& refined_between(t.coef, old, new, ss, se + 1)
            &&& t.eobrun == if old[se] == 0 && new[se] != 0 {
                0
            } else {
                pow2(r as nat) + x - 1
            }
            &&& readable(t.br)
            &&& upcoming(src, t.br, tail)
        }),
{
    let b = BandBlock { br: s, eobrun: 0, coef: old, err: None };
    lemma_refinement_is_read(src, b, book, old, new, se, al, ss, r, x, tail);
}

/// Within an end-of-band run of a further scan, a block takes the correction
/// bits of its coefficients that are not zero and nothing else, and the run is
/// one block shorter.
pub proof fn law_refinement_within_a_run(
    src: Seq<u8>,
    b: BandBlock,
    book: CodeBook,
    ss: int,
    se: int,
    al: int,
    new: Seq<int>,
    tail: Seq<bool>,
)
    requires
        readable(b.br),
        b.err is None,
        b.eobrun > 0,
        1 <= ss <= se <= 63,
        0 <= al <= 13,
        b.coef.len() == 64,
        new.len() == 64,
        forall|i: int| ss <= i <= se ==> #[trigger] refines_at(b.coef, new, al, i),
        forall|i: int| ss <= i <= se && #[trigger] b.coef[i] == 0 ==> new[i] == 0,
        upcoming(src, b.br, corrections(b.coef, new, ss, se + 1) + tail),
    ensures
        ({
            let t = ac_refine(src, b, book, ss, se, al);
            &&& t.err is None
            &&& refined_between(t.coef, b.coef, new, ss, se + 1)
            &&& t.eobrun == b.eobrun - 1
            &&& readable(t.br)
            &&& upcoming(src, t.br, tail)
        }),
{
    lemma_rest_is_refined(src, b, b.coef, new, se, al, ss, tail);
}

} // verus!
