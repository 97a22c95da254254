//! Canonical byte encoding.
//!
//! Integrity hashes and cross-ledger records are built over one fixed,
//! injective encoding of plain values, so that every replica that encodes the
//! same values produces the same bytes.

use vstd::prelude::*;

verus! {

/// The four little-endian bytes of a `u32`.
pub open spec fn u32_le_bytes(x: u32) -> Seq<u8> {
    seq![
        (x as int % 256) as u8,
        (x as int / 256 % 256) as u8,
        (x as int / 65536 % 256) as u8,
        (x as int / 16777216 % 256) as u8,
    ]
}

/// The eight little-endian bytes of a `u64`.
pub open spec fn u64_le_bytes(x: u64) -> Seq<u8> {
    u32_le_bytes((x as int % 4294967296) as u32) + u32_le_bytes((x as int / 4294967296) as u32)
}

/// The value read back from four little-endian bytes.
pub open spec fn u32_from_le(b0: u8, b1: u8, b2: u8, b3: u8) -> u32 {
    (b0 + b1 * 256 + b2 * 65536 + b3 * 16777216) as u32
}

/// The value read back from eight little-endian bytes.
pub open spec fn u64_from_le(s: Seq<u8>) -> u64
    recommends
        s.len() == 8,
{
    (u32_from_le(s[0], s[1], s[2], s[3]) + u32_from_le(s[4], s[5], s[6], s[7]) * 4294967296) as u64
}

/// Reading back the four bytes of a `u32` recovers the value: the encoding is
/// injective.
pub proof fn lemma_u32_le_round_trip(x: u32)
    ensures
        u32_from_le(u32_le_bytes(x)[0], u32_le_bytes(x)[1], u32_le_bytes(x)[2], u32_le_bytes(x)[3])
            == x,
{
    let v = x as int;
    assert(v % 256 + (v / 256 % 256) * 256 + (v / 65536 % 256) * 65536 + (v / 16777216 % 256)
        * 16777216 == v) by (nonlinear_arith)
        requires 0 <= v < 4294967296;
}

/// Reading back the eight bytes of a `u64` recovers the value.
pub proof fn lemma_u64_le_round_trip(x: u64)
    ensures
        u64_from_le(u64_le_bytes(x)) == x,
{
    let lo = (x as int % 4294967296) as u32;
    let hi = (x as int / 4294967296) as u32;
    lemma_u32_le_round_trip(lo);
    lemma_u32_le_round_trip(hi);
    assert(lo + hi * 4294967296 == x) by (nonlinear_arith)
        requires lo == x as int % 4294967296 && hi == x as int / 4294967296 && 0 <= (x as int) && (x as int) < 18446744073709551616;
}

/// Appends the four little-endian bytes of `x`.
pub fn encode_u32(out: &mut Vec<u8>, x: u32)
    ensures
        final(out)@ == old(out)@ + u32_le_bytes(x),
{
    out.push((x % 256) as u8);
    out.push((x / 256 % 256) as u8);
    out.push((x / 65536 % 256) as u8);
    out.push((x / 16777216 % 256) as u8);
    assert(out@ =~= old(out)@ + u32_le_bytes(x));
}

/// Appends the eight little-endian bytes of `x`.
pub fn encode_u64(out: &mut Vec<u8>, x: u64)
    ensures
        final(out)@ == old(out)@ + u64_le_bytes(x),
{
    let lo = (x % 4294967296) as u32;
    let hi = (x / 4294967296) as u32;
    encode_u32(out, lo);
    encode_u32(out, hi);
    assert(out@ =~= old(out)@ + u64_le_bytes(x));
}

/// Appends the sixteen little-endian bytes of `x`.
pub fn encode_u128(out: &mut Vec<u8>, x: u128)
    ensures
        final(out)@ == old(out)@ + u128_le_bytes(x),
{
    let lo = (x % 18446744073709551616) as u64;
    let hi = (x / 18446744073709551616) as u64;
    encode_u64(out, lo);
    encode_u64(out, hi);
    assert(out@ =~= old(out)@ + u128_le_bytes(x));
}

/// The sixteen little-endian bytes of a `u128`.
pub open spec fn u128_le_bytes(x: u128) -> Seq<u8> {
    u64_le_bytes((x as int % 18446744073709551616) as u64) + u64_le_bytes(
        (x as int / 18446744073709551616) as u64,
    )
}

/// The value read back from sixteen little-endian bytes.
pub open spec fn u128_from_le(s: Seq<u8>) -> u128
    recommends
        s.len() == 16,
{
    (u64_from_le(s.subrange(0, 8)) + u64_from_le(s.subrange(8, 16)) * 18446744073709551616) as u128
}

/// Reading back the sixteen bytes of a `u128` recovers the value.
pub proof fn lemma_u128_le_round_trip(x: u128)
    ensures
        u128_from_le(u128_le_bytes(x)) == x,
{
    let lo = (x as int % 18446744073709551616) as u64;
    let hi = (x as int / 18446744073709551616) as u64;
    lemma_u64_le_round_trip(lo);
    lemma_u64_le_round_trip(hi);
    assert(u128_le_bytes(x).subrange(0, 8) =~= u64_le_bytes(lo));
    assert(u128_le_bytes(x).subrange(8, 16) =~= u64_le_bytes(hi));
    assert(lo + hi * 18446744073709551616 == x) by (nonlinear_arith)
        requires lo == x as int % 18446744073709551616 && hi == x as int / 18446744073709551616 && 0 <= (x as int) && (x as int) < 340282366920938463463374607431768211456;
}

/// A length-prefixed byte string: the length as four little-endian bytes,
/// then the bytes themselves.
pub open spec fn bytes_encoding(b: Seq<u8>) -> Seq<u8> {
    u32_le_bytes(b.len() as u32) + b
}

/// Appends `b` with a four-byte length prefix.
pub fn encode_bytes(out: &mut Vec<u8>, b: &Vec<u8>)
    requires
        b@.len() <= u32::MAX,
    ensures
        final(out)@ == old(out)@ + bytes_encoding(b@),
{
    encode_u32(out, b.len() as u32);
    let mut i: usize = 0;
    while i < b.len()
        invariant
            i <= b@.len(),
            out@ == old(out)@ + u32_le_bytes(b@.len() as u32) + b@.subrange(0, i as int),
        decreases b@.len() - i,
    {
        out.push(b[i]);
        assert(out@ =~= old(out)@ + u32_le_bytes(b@.len() as u32) + b@.subrange(0, i + 1));
        i = i + 1;
    }
    assert(b@.subrange(0, b@.len() as int) =~= b@);
    assert(out@ =~= old(out)@ + bytes_encoding(b@));
}

/// Reads a `u32` from four little-endian bytes at position `i`.
pub fn decode_u32(data: &Vec<u8>, i: usize) -> (r: u32)
    requires
        i + 4 <= data@.len(),
    ensures
        r == u32_from_le(data@[i as int], data@[i + 1], data@[i + 2], data@[i + 3]),
{
    let n = data.len();
    assert(i + 4 <= n);
    let b0 = data[i] as u32;
    let b1 = data[i + 1] as u32;
    let b2 = data[i + 2] as u32;
    let b3 = data[i + 3] as u32;
    b0 + b1 * 256 + b2 * 65536 + b3 * 16777216
}

/// Reads a `u64` from eight little-endian bytes at position `i`.
pub fn decode_u64(data: &Vec<u8>, i: usize) -> (r: u64)
    requires
        i + 8 <= data@.len(),
    ensures
        r == u64_from_le(data@.subrange(i as int, i + 8)),
{
    let n = data.len();
    assert(i + 8 <= n);
    let lo = decode_u32(data, i) as u64;
    let hi = decode_u32(data, i + 4) as u64;
    let s = Ghost(data@.subrange(i as int, i + 8));
    assert(s@[0] == data@[i as int] && s@[1] == data@[i + 1] && s@[2] == data@[i + 2] && s@[3]
        == data@[i + 3] && s@[4] == data@[i + 4] && s@[5] == data@[i + 5] && s@[6] == data@[i + 6]
        && s@[7] == data@[i + 7]);
    lo + hi * 4294967296
}

/// Reads a `u128` from sixteen little-endian bytes at position `i`.
pub fn decode_u128(data: &Vec<u8>, i: usize) -> (r: u128)
    requires
        i + 16 <= data@.len(),
    ensures
        r == u128_from_le(data@.subrange(i as int, i + 16)),
{
    let n = data.len();
    assert(i + 16 <= n);
    let lo = decode_u64(data, i) as u128;
    let hi = decode_u64(data, i + 8) as u128;
    assert(data@.subrange(i as int, i + 16).subrange(0, 8) =~= data@.subrange(i as int, i + 8));
    assert(data@.subrange(i as int, i + 16).subrange(8, 16) =~= data@.subrange(i + 8, i + 16));
    lo + hi * 18446744073709551616
}

} // verus!
