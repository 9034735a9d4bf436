use vstd::prelude::*;

use byteorder::{BigEndian, ByteOrder};

verus! {

/// The two bytes of `n`, most significant first.
pub open spec fn u16_be(n: u16) -> Seq<u8> {
    seq![(n / 0x100) as u8, (n % 0x100) as u8]
}

/// The four bytes of `n`, most significant first.
pub open spec fn u32_be(n: u32) -> Seq<u8> {
    seq![
        (n / 0x100_0000) as u8,
        ((n / 0x1_0000) % 0x100) as u8,
        ((n / 0x100) % 0x100) as u8,
        (n % 0x100) as u8,
    ]
}

/// `byteorder::BigEndian::write_u16` on a two-byte buffer: the buffer then holds the bytes
/// of `n`, most significant first.
#[verifier::external_body]
pub(crate) fn u16_be_bytes(n: u16) -> (b: [u8; 2])
    ensures
        b@ == u16_be(n),
{
    let mut b = [0u8; 2];
    BigEndian::write_u16(&mut b, n);
    b
}

/// `byteorder::BigEndian::write_u32` on a four-byte buffer: the buffer then holds the bytes
/// of `n`, most significant first.
#[verifier::external_body]
pub(crate) fn u32_be_bytes(n: u32) -> (b: [u8; 4])
    ensures
        b@ == u32_be(n),
{
    let mut b = [0u8; 4];
    BigEndian::write_u32(&mut b, n);
    b
}

/// `byteorder::BigEndian::read_u32`: the number whose bytes, most significant first, are
/// the first four of `buf`. It panics on a shorter buffer, which `requires` rules out.
#[verifier::external_body]
pub(crate) fn read_u32_be(buf: &[u8]) -> (n: u32)
    requires
        buf@.len() >= 4,
    ensures
        n == buf@[0] * 0x100_0000 + buf@[1] * 0x1_0000 + buf@[2] * 0x100 + buf@[3],
{
    BigEndian::read_u32(buf)
}

} // verus!
