//! Little-endian fields and the CRC-32 checksum.
use byteorder::{ByteOrder, LittleEndian};
use vstd::prelude::*;

verus! {

/// The two bytes of `n`, least significant first.
pub open spec fn le16(n: u16) -> Seq<u8> {
    seq![(n % 256) as u8, (n / 256) as u8]
}

/// The four bytes of `n`, least significant first.
pub open spec fn le32(n: u32) -> Seq<u8> {
    seq![(n % 256) as u8, ((n / 256) % 256) as u8, ((n / 65536) % 256) as u8, (n / 16777216) as u8]
}

/// `n` cut down to its low 16 bits.
pub open spec fn trunc16(n: nat) -> u16 {
    (n % 65536) as u16
}

/// `n` cut down to its low 32 bits.
pub open spec fn trunc32(n: nat) -> u32 {
    (n % 4294967296) as u32
}

/// The IEEE CRC-32 (reflected, initial value and final complement 0xFFFFFFFF) of `data`.
pub uninterp spec fn crc32_of(data: Seq<u8>) -> u32;

/// Relies on byteorder's `LittleEndian::write_u16`: it stores `n` least significant byte first.
#[verifier::external_body]
pub(crate) fn put_u16(buf: &mut Vec<u8>, n: u16)
    ensures
        final(buf)@ == old(buf)@ + le16(n),
{
    let mut b = [0u8; 2];
    LittleEndian::write_u16(&mut b, n);
    buf.extend_from_slice(&b);
}

/// Relies on byteorder's `LittleEndian::write_u32`: it stores `n` least significant byte first.
#[verifier::external_body]
pub(crate) fn put_u32(buf: &mut Vec<u8>, n: u32)
    ensures
        final(buf)@ == old(buf)@ + le32(n),
{
    let mut b = [0u8; 4];
    LittleEndian::write_u32(&mut b, n);
    buf.extend_from_slice(&b);
}

/// Relies on `crc32fast::hash`: the IEEE CRC-32 of the bytes, which depends on them alone
/// and is 0 for no bytes (the hasher starts from state 0 and returns it when fed nothing).
#[verifier::external_body]
fn crc32_hash(data: &[u8]) -> (r: u32)
    ensures
        r == crc32_of(data@),
        data@.len() == 0 ==> r == 0,
{
    crc32fast::hash(data)
}

/// The CRC-32 checksum of `data`.
pub fn checksum(data: &[u8]) -> (r: u32)
    ensures
        r == crc32_of(data@),
        data@.len() == 0 ==> r == 0,
{
    crc32_hash(data)
}

/// The low 32 bits of `n`, as written into a 32-bit size or offset field.
pub fn low32(n: usize) -> (r: u32)
    ensures
        r == trunc32(n as nat),
{
    ((n as u64) % 4294967296u64) as u32
}

/// The low 16 bits of `n`, as written into a 16-bit length or count field.
pub fn low16(n: usize) -> (r: u16)
    ensures
        r == trunc16(n as nat),
{
    ((n as u64) % 65536u64) as u16
}

} // verus!
