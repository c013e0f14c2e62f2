//! Little-endian byte encodings shared by the log and segment formats,
//! together with the parsing functions that invert them.

use vstd::prelude::*;
use vstd::utf8::{decode_utf8, encode_utf8, valid_utf8};

verus! {

// ---------------------------------------------------------------------------
// Encodings: fixed-width little-endian integers.
// ---------------------------------------------------------------------------

/// The two bytes of `n`, least significant first.
pub open spec fn u16_le(n: u16) -> Seq<u8> {
    seq![(n & 0xff) as u8, ((n >> 8) & 0xff) as u8]
}

/// The four bytes of `n`, least significant first.
pub open spec fn u32_le(n: u32) -> Seq<u8> {
    seq![
        (n & 0xff) as u8,
        ((n >> 8) & 0xff) as u8,
        ((n >> 16) & 0xff) as u8,
        ((n >> 24) & 0xff) as u8,
    ]
}

/// The eight bytes of `n`, least significant first.
pub open spec fn u64_le(n: u64) -> Seq<u8> {
    seq![
        (n & 0xff) as u8,
        ((n >> 8) & 0xff) as u8,
        ((n >> 16) & 0xff) as u8,
        ((n >> 24) & 0xff) as u8,
        ((n >> 32) & 0xff) as u8,
        ((n >> 40) & 0xff) as u8,
        ((n >> 48) & 0xff) as u8,
        ((n >> 56) & 0xff) as u8,
    ]
}

/// The sixteen bytes of `n`, least significant first.
pub open spec fn u128_le(n: u128) -> Seq<u8> {
    u64_le((n & 0xffff_ffff_ffff_ffff) as u64) + u64_le(((n >> 64) & 0xffff_ffff_ffff_ffff) as u64)
}

/// The eight bytes of `n` in two's complement, least significant first.
pub open spec fn i64_le(n: i64) -> Seq<u8> {
    u64_le(n as u64)
}

/// The value read from two little-endian bytes.
pub open spec fn u16_of_le(b0: u8, b1: u8) -> u16 {
    (b0 as u16) | ((b1 as u16) << 8)
}

/// The value read from four little-endian bytes.
pub open spec fn u32_of_le(b0: u8, b1: u8, b2: u8, b3: u8) -> u32 {
    (b0 as u32) | ((b1 as u32) << 8) | ((b2 as u32) << 16) | ((b3 as u32) << 24)
}

/// The value read from eight little-endian bytes.
pub open spec fn u64_of_le(b: Seq<u8>) -> u64
    recommends
        b.len() == 8,
{
    (b[0] as u64) | ((b[1] as u64) << 8) | ((b[2] as u64) << 16) | ((b[3] as u64) << 24) | (
    (b[4] as u64) << 32) | ((b[5] as u64) << 40) | ((b[6] as u64) << 48) | ((b[7] as u64) << 56)
}

/// The value read from sixteen little-endian bytes.
pub open spec fn u128_of_le(b: Seq<u8>) -> u128
    recommends
        b.len() == 16,
{
    (u64_of_le(b.subrange(0, 8)) as u128) | ((u64_of_le(b.subrange(8, 16)) as u128) << 64)
}

// ---------------------------------------------------------------------------
// Round trips on the fixed-width encodings.
// ---------------------------------------------------------------------------

pub proof fn lemma_u16_round(n: u16)
    ensures
        u16_of_le(u16_le(n)[0], u16_le(n)[1]) == n,
{
    assert(((n & 0xff) as u8 as u16) | ((((n >> 8) & 0xff) as u8 as u16) << 8) == n)
        by (bit_vector);
}

pub proof fn lemma_u32_round(n: u32)
    ensures
        u32_of_le(u32_le(n)[0], u32_le(n)[1], u32_le(n)[2], u32_le(n)[3]) == n,
{
    assert(((n & 0xff) as u8 as u32) | ((((n >> 8) & 0xff) as u8 as u32) << 8) | ((((n >> 16)
        & 0xff) as u8 as u32) << 16) | ((((n >> 24) & 0xff) as u8 as u32) << 24) == n)
        by (bit_vector);
}

pub proof fn lemma_u64_round(n: u64)
    ensures
        u64_of_le(u64_le(n)) == n,
{
    assert(((n & 0xff) as u8 as u64) | ((((n >> 8) & 0xff) as u8 as u64) << 8) | ((((n >> 16)
        & 0xff) as u8 as u64) << 16) | ((((n >> 24) & 0xff) as u8 as u64) << 24) | ((((n >> 32)
        & 0xff) as u8 as u64) << 32) | ((((n >> 40) & 0xff) as u8 as u64) << 40) | ((((n >> 48)
        & 0xff) as u8 as u64) << 48) | ((((n >> 56) & 0xff) as u8 as u64) << 56) == n)
        by (bit_vector);
}

pub proof fn lemma_u128_round(n: u128)
    ensures
        u128_of_le(u128_le(n)) == n,
{
    let lo = (n & 0xffff_ffff_ffff_ffff) as u64;
    let hi = ((n >> 64) & 0xffff_ffff_ffff_ffff) as u64;
    assert(u128_le(n).subrange(0, 8) =~= u64_le(lo));
    assert(u128_le(n).subrange(8, 16) =~= u64_le(hi));
    lemma_u64_round(lo);
    lemma_u64_round(hi);
    assert((((n & 0xffff_ffff_ffff_ffff) as u64 as u128) | ((((n >> 64)
        & 0xffff_ffff_ffff_ffff) as u64 as u128) << 64)) == n) by (bit_vector);
}

pub proof fn lemma_i64_round(n: i64)
    ensures
        u64_of_le(i64_le(n)) == n as u64,
        (u64_of_le(i64_le(n)) as i64) == n,
{
    lemma_u64_round(n as u64);
    assert(((n as u64) as i64) == n) by (bit_vector);
}

// ---------------------------------------------------------------------------
// Parsing: read a value at an offset, handing back the next offset.
// ---------------------------------------------------------------------------

/// Read one byte at offset `i`.
pub open spec fn parse_u8(s: Seq<u8>, i: int) -> Option<(u8, int)> {
    if 0 <= i && i + 1 <= s.len() {
        Some((s[i], i + 1))
    } else {
        None
    }
}

/// Read a little-endian `u32` at offset `i`.
pub open spec fn parse_u32(s: Seq<u8>, i: int) -> Option<(u32, int)> {
    if 0 <= i && i + 4 <= s.len() {
        Some((u32_of_le(s[i], s[i + 1], s[i + 2], s[i + 3]), i + 4))
    } else {
        None
    }
}

/// Read a little-endian `u64` at offset `i`.
pub open spec fn parse_u64(s: Seq<u8>, i: int) -> Option<(u64, int)> {
    if 0 <= i && i + 8 <= s.len() {
        Some((u64_of_le(s.subrange(i, i + 8)), i + 8))
    } else {
        None
    }
}

/// Read a little-endian `i64` at offset `i`.
pub open spec fn parse_i64(s: Seq<u8>, i: int) -> Option<(i64, int)> {
    match parse_u64(s, i) {
        Some((n, j)) => Some((n as i64, j)),
        None => None,
    }
}

/// Read a little-endian `u128` at offset `i`.
pub open spec fn parse_u128(s: Seq<u8>, i: int) -> Option<(u128, int)> {
    if 0 <= i && i + 16 <= s.len() {
        Some((u128_of_le(s.subrange(i, i + 16)), i + 16))
    } else {
        None
    }
}

// ---------------------------------------------------------------------------
// Length-framed byte strings and UTF-8 text.
// ---------------------------------------------------------------------------

/// A byte string framed by its length as a `u32`.
pub open spec fn enc_bytes(b: Seq<u8>) -> Seq<u8>
    recommends
        b.len() <= u32::MAX,
{
    u32_le(b.len() as u32) + b
}

/// Read a length-framed byte string at offset `i`.
pub open spec fn parse_bytes(s: Seq<u8>, i: int) -> Option<(Seq<u8>, int)> {
    match parse_u32(s, i) {
        Some((n, j)) => if j + n <= s.len() {
            Some((s.subrange(j, j + n), j + n))
        } else {
            None
        },
        None => None,
    }
}

/// Whether a character sequence can be framed: its UTF-8 form must not
/// outgrow the `u32` length prefix.
pub open spec fn str_ok(t: Seq<char>) -> bool {
    encode_utf8(t).len() <= u32::MAX
}

/// Text framed as its length-prefixed UTF-8 bytes.
pub open spec fn enc_str(t: Seq<char>) -> Seq<u8>
    recommends
        str_ok(t),
{
    enc_bytes(encode_utf8(t))
}

/// Read length-framed UTF-8 text at offset `i`; ill-formed UTF-8 does not
/// parse.
pub open spec fn parse_str(s: Seq<u8>, i: int) -> Option<(Seq<char>, int)> {
    match parse_bytes(s, i) {
        Some((b, j)) => if valid_utf8(b) {
            Some((decode_utf8(b), j))
        } else {
            None
        },
        None => None,
    }
}

// ---------------------------------------------------------------------------
// Splitting a buffer around known encodings.
// ---------------------------------------------------------------------------

/// If a stretch of `s` holds `a + b`, each part sits at its own offset.
pub proof fn lemma_split(s: Seq<u8>, i: int, a: Seq<u8>, b: Seq<u8>)
    requires
        0 <= i,
        i + a.len() + b.len() <= s.len(),
        s.subrange(i, i + a.len() + b.len()) == a + b,
    ensures
        s.subrange(i, i + a.len()) == a,
        s.subrange(i + a.len(), i + a.len() + b.len()) == b,
{
    let whole = s.subrange(i, i + a.len() + b.len());
    assert forall|k: int| 0 <= k < a.len() implies s[i + k] == a[k] by {
        assert(whole[k] == s[i + k]);
        assert(whole[k] == (a + b)[k]);
        assert((a + b)[k] == a[k]);
    }
    assert forall|k: int| 0 <= k < b.len() implies s[i + a.len() + k] == b[k] by {
        assert(whole[a.len() + k] == s[i + a.len() + k]);
        assert(whole[a.len() + k] == (a + b)[a.len() + k]);
        assert((a + b)[a.len() + k] == b[k]);
    }
    assert(s.subrange(i, i + a.len()) =~= a);
    assert(s.subrange(i + a.len(), i + a.len() + b.len()) =~= b);
}

pub proof fn lemma_parse_u8(s: Seq<u8>, i: int, n: u8)
    requires
        0 <= i,
        i + 1 <= s.len(),
        s.subrange(i, i + 1) == seq![n],
    ensures
        parse_u8(s, i) == Some((n, i + 1)),
{
    assert(s[i] == s.subrange(i, i + 1)[0]);
}

pub proof fn lemma_parse_u32(s: Seq<u8>, i: int, n: u32)
    requires
        0 <= i,
        i + 4 <= s.len(),
        s.subrange(i, i + 4) == u32_le(n),
    ensures
        parse_u32(s, i) == Some((n, i + 4)),
{
    assert(s[i] == s.subrange(i, i + 4)[0]);
    assert(s[i + 1] == s.subrange(i, i + 4)[1]);
    assert(s[i + 2] == s.subrange(i, i + 4)[2]);
    assert(s[i + 3] == s.subrange(i, i + 4)[3]);
    lemma_u32_round(n);
}

pub proof fn lemma_parse_u64(s: Seq<u8>, i: int, n: u64)
    requires
        0 <= i,
        i + 8 <= s.len(),
        s.subrange(i, i + 8) == u64_le(n),
    ensures
        parse_u64(s, i) == Some((n, i + 8)),
{
    lemma_u64_round(n);
}

pub proof fn lemma_parse_i64(s: Seq<u8>, i: int, n: i64)
    requires
        0 <= i,
        i + 8 <= s.len(),
        s.subrange(i, i + 8) == i64_le(n),
    ensures
        parse_i64(s, i) == Some((n, i + 8)),
{
    lemma_i64_round(n);
}

pub proof fn lemma_parse_u128(s: Seq<u8>, i: int, n: u128)
    requires
        0 <= i,
        i + 16 <= s.len(),
        s.subrange(i, i + 16) == u128_le(n),
    ensures
        parse_u128(s, i) == Some((n, i + 16)),
{
    lemma_u128_round(n);
}

pub proof fn lemma_parse_bytes(s: Seq<u8>, i: int, b: Seq<u8>)
    requires
        0 <= i,
        b.len() <= u32::MAX,
        i + enc_bytes(b).len() <= s.len(),
        s.subrange(i, i + enc_bytes(b).len()) == enc_bytes(b),
    ensures
        parse_bytes(s, i) == Some((b, i + 4 + b.len())),
{
    lemma_split(s, i, u32_le(b.len() as u32), b);
    lemma_parse_u32(s, i, b.len() as u32);
}

pub proof fn lemma_parse_str(s: Seq<u8>, i: int, t: Seq<char>)
    requires
        0 <= i,
        str_ok(t),
        i + enc_str(t).len() <= s.len(),
        s.subrange(i, i + enc_str(t).len()) == enc_str(t),
    ensures
        parse_str(s, i) == Some((t, i + enc_str(t).len())),
{
    broadcast use vstd::utf8::encode_utf8_valid_utf8;
    broadcast use vstd::utf8::encode_utf8_decode_utf8;

    lemma_parse_bytes(s, i, encode_utf8(t));
}

// ---------------------------------------------------------------------------
// Executable writers and readers for the primitives.
// ---------------------------------------------------------------------------

/// Append the four little-endian bytes of `n`.
pub fn push_u32_le(out: &mut Vec<u8>, n: u32)
    ensures
        final(out)@ == old(out)@ + u32_le(n),
{
    out.push((n & 0xff) as u8);
    out.push(((n >> 8) & 0xff) as u8);
    out.push(((n >> 16) & 0xff) as u8);
    out.push(((n >> 24) & 0xff) as u8);
    proof {
        assert(out@ =~= old(out)@ + u32_le(n));
    }
}

/// Append the eight little-endian bytes of `n`.
pub fn push_u64_le(out: &mut Vec<u8>, n: u64)
    ensures
        final(out)@ == old(out)@ + u64_le(n),
{
    out.push((n & 0xff) as u8);
    out.push(((n >> 8) & 0xff) as u8);
    out.push(((n >> 16) & 0xff) as u8);
    out.push(((n >> 24) & 0xff) as u8);
    out.push(((n >> 32) & 0xff) as u8);
    out.push(((n >> 40) & 0xff) as u8);
    out.push(((n >> 48) & 0xff) as u8);
    out.push(((n >> 56) & 0xff) as u8);
    proof {
        assert(out@ =~= old(out)@ + u64_le(n));
    }
}

/// Append the sixteen little-endian bytes of `n`.
pub fn push_u128_le(out: &mut Vec<u8>, n: u128)
    ensures
        final(out)@ == old(out)@ + u128_le(n),
{
    push_u64_le(out, (n & 0xffff_ffff_ffff_ffff) as u64);
    push_u64_le(out, ((n >> 64) & 0xffff_ffff_ffff_ffff) as u64);
    proof {
        assert(out@ =~= old(out)@ + u128_le(n));
    }
}

/// Append the eight little-endian two's-complement bytes of `n`.
pub fn push_i64_le(out: &mut Vec<u8>, n: i64)
    ensures
        final(out)@ == old(out)@ + i64_le(n),
{
    push_u64_le(out, n as u64);
}

/// Read a little-endian `u32` at index `i` of a byte slice.
pub fn read_u32_le(s: &[u8], i: usize) -> (r: u32)
    requires
        i + 4 <= s@.len(),
    ensures
        Some((r, i + 4 as int)) == parse_u32(s@, i as int),
{
    let b0 = s[i];
    let b1 = s[i + 1];
    let b2 = s[i + 2];
    let b3 = s[i + 3];
    (b0 as u32) | ((b1 as u32) << 8) | ((b2 as u32) << 16) | ((b3 as u32) << 24)
}

/// Read a little-endian `u64` at index `i` of a byte slice.
pub fn read_u64_le(s: &[u8], i: usize) -> (r: u64)
    requires
        i + 8 <= s@.len(),
    ensures
        Some((r, i + 8 as int)) == parse_u64(s@, i as int),
{
    let b = s;
    let r = (b[i] as u64) | ((b[i + 1] as u64) << 8) | ((b[i + 2] as u64) << 16) | ((b[i
        + 3] as u64) << 24) | ((b[i + 4] as u64) << 32) | ((b[i + 5] as u64) << 40) | ((b[i
        + 6] as u64) << 48) | ((b[i + 7] as u64) << 56);
    proof {
        let sub = s@.subrange(i as int, i + 8);
        assert(sub[0] == s@[i as int]);
        assert(sub[1] == s@[i + 1]);
        assert(sub[2] == s@[i + 2]);
        assert(sub[3] == s@[i + 3]);
        assert(sub[4] == s@[i + 4]);
        assert(sub[5] == s@[i + 5]);
        assert(sub[6] == s@[i + 6]);
        assert(sub[7] == s@[i + 7]);
    }
    r
}

/// Read a little-endian `i64` at index `i` of a byte slice.
pub fn read_i64_le(s: &[u8], i: usize) -> (r: i64)
    requires
        i + 8 <= s@.len(),
    ensures
        Some((r, i + 8 as int)) == parse_i64(s@, i as int),
{
    read_u64_le(s, i) as i64
}

/// Read a little-endian `u128` at index `i` of a byte slice.
pub fn read_u128_le(s: &[u8], i: usize) -> (r: u128)
    requires
        i + 16 <= s@.len(),
    ensures
        Some((r, i + 16 as int)) == parse_u128(s@, i as int),
{
    proof {
        vstd::slice::axiom_spec_len::<u8>(s);
    }
    let lo = read_u64_le(s, i);
    let hi = read_u64_le(s, i + 8);
    let r = (lo as u128) | ((hi as u128) << 64);
    proof {
        let whole = s@.subrange(i as int, i + 16);
        assert(whole.subrange(0, 8) =~= s@.subrange(i as int, i + 8));
        assert(whole.subrange(8, 16) =~= s@.subrange(i + 8, i + 16));
    }
    r
}

} // verus!

