use byteorder::{BigEndian, ByteOrder};
use vstd::prelude::*;

verus! {

/// The number that four bytes spell, most significant first.
pub open spec fn be_u32(b: Seq<u8>) -> int {
    (b[0] as int) * 0x100_0000 + (b[1] as int) * 0x1_0000 + (b[2] as int) * 0x100 + (b[3] as int)
}

/// The number that eight bytes spell, most significant first.
pub open spec fn be_u64(b: Seq<u8>) -> int {
    be_u32(b.subrange(0, 4)) * 0x1_0000_0000 + be_u32(b.subrange(4, 8))
}

/// The four bytes of `n`, most significant first.
pub open spec fn u32_bytes(n: u32) -> Seq<u8> {
    seq![
        (n / 0x100_0000) as u8,
        ((n / 0x1_0000) % 0x100) as u8,
        ((n / 0x100) % 0x100) as u8,
        (n % 0x100) as u8,
    ]
}

/// The eight bytes of `n`, most significant first.
pub open spec fn u64_bytes(n: u64) -> Seq<u8> {
    u32_bytes((n / 0x1_0000_0000) as u32) + u32_bytes((n % 0x1_0000_0000) as u32)
}

pub proof fn lemma_be_u32_bound(b: Seq<u8>)
    requires
        b.len() >= 4,
    ensures
        0 <= be_u32(b) <= u32::MAX,
{
}

pub proof fn lemma_u32_round_trip(n: u32)
    ensures
        u32_bytes(n).len() == 4,
        be_u32(u32_bytes(n)) == n,
{
    let a = n / 0x100_0000;
    let b = (n / 0x1_0000) % 0x100;
    let c = (n / 0x100) % 0x100;
    let d = n % 0x100;
    assert(a * 0x100_0000 + b * 0x1_0000 + c * 0x100 + d == n) by (nonlinear_arith)
        requires
            a == n / 0x100_0000,
            b == (n / 0x1_0000) % 0x100,
            c == (n / 0x100) % 0x100,
            d == n % 0x100,
    {
        assert(n / 0x1_0000 == a * 0x100 + b);
        assert(n / 0x100 == (n / 0x1_0000) * 0x100 + c);
        assert(n == (n / 0x100) * 0x100 + d);
    }
}

pub proof fn lemma_u64_round_trip(n: u64)
    ensures
        u64_bytes(n).len() == 8,
        be_u64(u64_bytes(n)) == n,
{
    let hi = (n / 0x1_0000_0000) as u32;
    let lo = (n % 0x1_0000_0000) as u32;
    lemma_u32_round_trip(hi);
    lemma_u32_round_trip(lo);
    assert(u64_bytes(n).subrange(0, 4) =~= u32_bytes(hi));
    assert(u64_bytes(n).subrange(4, 8) =~= u32_bytes(lo));
}

/// Relies on byteorder's `BigEndian::read_u32`: the first four bytes,
/// most significant first.
#[verifier::external_body]
pub(crate) fn read_be_u32(buf: &[u8]) -> (r: u32)
    requires
        buf@.len() >= 4,
    ensures
        r == be_u32(buf@),
{
    BigEndian::read_u32(buf)
}

/// Relies on byteorder's `BigEndian::read_u64`: the first eight bytes,
/// most significant first.
#[verifier::external_body]
pub(crate) fn read_be_u64(buf: &[u8]) -> (r: u64)
    requires
        buf@.len() >= 8,
    ensures
        r == be_u64(buf@),
{
    BigEndian::read_u64(buf)
}

/// Relies on byteorder's `BigEndian::write_u32`: `n` into four bytes, most
/// significant first.
#[verifier::external_body]
pub(crate) fn write_be_u32(n: u32) -> (r: Vec<u8>)
    ensures
        r@ == u32_bytes(n),
{
    let mut buf = vec![0u8; 4];
    BigEndian::write_u32(&mut buf, n);
    buf
}

/// Relies on byteorder's `BigEndian::write_u64`: `n` into eight bytes, most
/// significant first.
#[verifier::external_body]
pub(crate) fn write_be_u64(n: u64) -> (r: Vec<u8>)
    ensures
        r@ == u64_bytes(n),
{
    let mut buf = vec![0u8; 8];
    BigEndian::write_u64(&mut buf, n);
    buf
}

} // verus!
