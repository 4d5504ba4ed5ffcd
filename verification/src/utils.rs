//! Fixed-width big-endian integers.

use vstd::prelude::*;

verus! {

/// The four bytes of `x`, most significant first.
pub open spec fn be32(x: u32) -> Seq<u8> {
    seq![
        (x / 0x100_0000) as u8,
        ((x / 0x1_0000) % 0x100) as u8,
        ((x / 0x100) % 0x100) as u8,
        (x % 0x100) as u8,
    ]
}

/// The number whose big-endian bytes are the first four bytes of `s`.
pub open spec fn from_be32(s: Seq<u8>) -> u32
    recommends
        s.len() >= 4,
{
    (s[0] as int * 0x100_0000 + s[1] as int * 0x1_0000 + s[2] as int * 0x100 + s[3] as int) as u32
}

/// The eight bytes of `x`, most significant first.
pub open spec fn be64(x: u64) -> Seq<u8> {
    be32((x / 0x1_0000_0000) as u32) + be32((x % 0x1_0000_0000) as u32)
}

/// The number whose big-endian bytes are the first eight bytes of `s`.
pub open spec fn from_be64(s: Seq<u8>) -> u64
    recommends
        s.len() >= 8,
{
    (from_be32(s.subrange(0, 4)) as int * 0x1_0000_0000 + from_be32(s.subrange(4, 8)) as int) as u64
}

/// Decoding undoes encoding of a 32-bit number.
pub proof fn lemma_be32_roundtrip(x: u32)
    ensures
        be32(x).len() == 4,
        from_be32(be32(x)) == x,
{
    let a = x / 0x100_0000;
    let b = (x / 0x1_0000) % 0x100;
    let c = (x / 0x100) % 0x100;
    let d = x % 0x100;
    assert(a <= 0xff && b <= 0xff && c <= 0xff && d <= 0xff && a * 0x100_0000 + b * 0x1_0000 + c
        * 0x100 + d == x) by (bit_vector)
        requires
            a == x / 0x100_0000,
            b == (x / 0x1_0000) % 0x100,
            c == (x / 0x100) % 0x100,
            d == x % 0x100,
    ;
}

/// Encoding undoes decoding of four bytes.
pub proof fn lemma_from_be32_roundtrip(s: Seq<u8>)
    requires
        s.len() == 4,
    ensures
        be32(from_be32(s)) == s,
{
    let a = s[0] as u32;
    let b = s[1] as u32;
    let c = s[2] as u32;
    let d = s[3] as u32;
    let x = from_be32(s);
    assert(x == a * 0x100_0000 + b * 0x1_0000 + c * 0x100 + d);
    assert(x / 0x100_0000 == a && (x / 0x1_0000) % 0x100 == b && (x / 0x100) % 0x100 == c && x
        % 0x100 == d) by (bit_vector)
        requires
            a <= 0xff,
            b <= 0xff,
            c <= 0xff,
            d <= 0xff,
            x == a * 0x100_0000 + b * 0x1_0000 + c * 0x100 + d,
    ;
    assert(be32(x) =~= s);
}

/// Decoding undoes encoding of a 64-bit number.
pub proof fn lemma_be64_roundtrip(x: u64)
    ensures
        be64(x).len() == 8,
        from_be64(be64(x)) == x,
{
    let hi = (x / 0x1_0000_0000) as u32;
    let lo = (x % 0x1_0000_0000) as u32;
    lemma_be32_roundtrip(hi);
    lemma_be32_roundtrip(lo);
    assert(be64(x).subrange(0, 4) =~= be32(hi));
    assert(be64(x).subrange(4, 8) =~= be32(lo));
}

/// Encoding undoes decoding of eight bytes.
pub proof fn lemma_from_be64_roundtrip(s: Seq<u8>)
    requires
        s.len() == 8,
    ensures
        be64(from_be64(s)) == s,
{
    let a = s.subrange(0, 4);
    let b = s.subrange(4, 8);
    lemma_from_be32_roundtrip(a);
    lemma_from_be32_roundtrip(b);
    let x = from_be64(s);
    assert((x / 0x1_0000_0000) as u32 == from_be32(a));
    assert((x % 0x1_0000_0000) as u32 == from_be32(b));
    assert(be64(x) =~= a + b);
    assert(a + b =~= s);
}

/// The big-endian bytes of `x`.
pub fn encode_u32(x: u32) -> (res: [u8; 4])
    ensures
        res@ == be32(x),
{
    let res: [u8; 4] = [
        (x / 0x100_0000) as u8,
        ((x / 0x1_0000) % 0x100) as u8,
        ((x / 0x100) % 0x100) as u8,
        (x % 0x100) as u8,
    ];
    assert(res@ =~= be32(x));
    res
}

/// The number that four big-endian bytes stand for.
pub fn decode_u32(bytes: &[u8]) -> (res: u32)
    requires
        bytes@.len() == 4,
    ensures
        res == from_be32(bytes@),
{
    let b0: u32 = bytes[0] as u32;
    let b1: u32 = bytes[1] as u32;
    let b2: u32 = bytes[2] as u32;
    let b3: u32 = bytes[3] as u32;
    b0 * 0x100_0000 + b1 * 0x1_0000 + b2 * 0x100 + b3
}

/// The big-endian bytes of `x`.
pub fn encode_u64(x: u64) -> (res: [u8; 8])
    ensures
        res@ == be64(x),
{
    let hi: [u8; 4] = encode_u32((x / 0x1_0000_0000) as u32);
    let lo: [u8; 4] = encode_u32((x % 0x1_0000_0000) as u32);
    let res: [u8; 8] = [hi[0], hi[1], hi[2], hi[3], lo[0], lo[1], lo[2], lo[3]];
    assert(res@ =~= be64(x));
    res
}

/// The number that eight big-endian bytes stand for.
pub fn decode_u64(bytes: &[u8]) -> (res: u64)
    requires
        bytes@.len() == 8,
    ensures
        res == from_be64(bytes@),
{
    let hi: u64 = (bytes[0] as u64) * 0x100_0000 + (bytes[1] as u64) * 0x1_0000 + (bytes[2] as u64)
        * 0x100 + (bytes[3] as u64);
    let lo: u64 = (bytes[4] as u64) * 0x100_0000 + (bytes[5] as u64) * 0x1_0000 + (bytes[6] as u64)
        * 0x100 + (bytes[7] as u64);
    hi * 0x1_0000_0000 + lo
}

} // verus!
