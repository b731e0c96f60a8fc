//! Fixed-width integers in byte strings, in both byte orders.

use byteorder::{BigEndian, ByteOrder, LittleEndian};
use vstd::prelude::*;

verus! {

/// The unsigned 32-bit number whose four bytes, most significant first,
/// stand at `at`.
pub open spec fn be_u32(bytes: Seq<u8>, at: int) -> u32 {
    (bytes[at] as int * 0x100_0000 + bytes[at + 1] as int * 0x1_0000 + bytes[at + 2] as int * 0x100
        + bytes[at + 3] as int) as u32
}

/// The unsigned 32-bit number whose four bytes, least significant first,
/// stand at `at`.
pub open spec fn le_u32(bytes: Seq<u8>, at: int) -> u32 {
    (bytes[at + 3] as int * 0x100_0000 + bytes[at + 2] as int * 0x1_0000 + bytes[at + 1] as int
        * 0x100 + bytes[at] as int) as u32
}

/// The unsigned 64-bit number whose eight bytes, least significant first,
/// stand at `at`.
pub open spec fn le_u64(bytes: Seq<u8>, at: int) -> u64 {
    (le_u32(bytes, at + 4) as int * 0x1_0000_0000 + le_u32(bytes, at) as int) as u64
}

/// The signed number with the same 32 bits.
pub open spec fn signed(n: u32) -> i32 {
    if n < 0x8000_0000 {
        n as i32
    } else {
        (n - 0x1_0000_0000) as i32
    }
}

/// The unsigned number with the same 32 bits.
pub open spec fn unsigned(n: i32) -> u32 {
    if n >= 0 {
        n as u32
    } else {
        (n + 0x1_0000_0000) as u32
    }
}

/// The four bytes of `n`, most significant first.
pub open spec fn be_bytes(n: u32) -> Seq<u8> {
    seq![
        (n / 0x100_0000) as u8,
        (n / 0x1_0000 % 0x100) as u8,
        (n / 0x100 % 0x100) as u8,
        (n % 0x100) as u8,
    ]
}

/// The four bytes of `n`, least significant first.
pub open spec fn le_bytes(n: u32) -> Seq<u8> {
    seq![
        (n % 0x100) as u8,
        (n / 0x100 % 0x100) as u8,
        (n / 0x1_0000 % 0x100) as u8,
        (n / 0x100_0000) as u8,
    ]
}

/// `byteorder::BigEndian::read_u32` on the bytes from `at` on: the number
/// that the first four of them spell, most significant byte first.
#[verifier::external_body]
pub(crate) fn read_be_u32(buf: &[u8], at: usize) -> (n: u32)
    requires
        at + 4 <= buf@.len(),
    ensures
        n == be_u32(buf@, at as int),
{
    BigEndian::read_u32(&buf[at..])
}

/// `byteorder::BigEndian::read_i32` on the bytes from `at` on: the signed
/// number with the bits that the first four of them spell, most significant
/// byte first.
#[verifier::external_body]
pub(crate) fn read_be_i32(buf: &[u8], at: usize) -> (n: i32)
    requires
        at + 4 <= buf@.len(),
    ensures
        n == signed(be_u32(buf@, at as int)),
{
    BigEndian::read_i32(&buf[at..])
}

/// `byteorder::LittleEndian::read_u32` on the bytes from `at` on: the
/// number that the first four of them spell, least significant byte first.
#[verifier::external_body]
pub(crate) fn read_le_u32(buf: &[u8], at: usize) -> (n: u32)
    requires
        at + 4 <= buf@.len(),
    ensures
        n == le_u32(buf@, at as int),
{
    LittleEndian::read_u32(&buf[at..])
}

/// `byteorder::LittleEndian::read_u64` on the bytes from `at` on: the
/// number that the first eight of them spell, least significant byte first.
#[verifier::external_body]
pub(crate) fn read_le_u64(buf: &[u8], at: usize) -> (n: u64)
    requires
        at + 8 <= buf@.len(),
    ensures
        n == le_u64(buf@, at as int),
{
    LittleEndian::read_u64(&buf[at..])
}

/// `byteorder::BigEndian::write_u32` into four bytes, which are added to
/// the end of `out`: the bytes of `n`, most significant first.
#[verifier::external_body]
pub(crate) fn put_be_u32(out: &mut Vec<u8>, n: u32)
    ensures
        final(out)@ == old(out)@ + be_bytes(n),
{
    let mut four = [0u8; 4];
    BigEndian::write_u32(&mut four, n);
    out.extend_from_slice(&four);
}

/// `byteorder::LittleEndian::write_u32` into four bytes, which are added to
/// the end of `out`: the bytes of `n`, least significant first.
#[verifier::external_body]
pub(crate) fn put_le_u32(out: &mut Vec<u8>, n: u32)
    ensures
        final(out)@ == old(out)@ + le_bytes(n),
{
    let mut four = [0u8; 4];
    LittleEndian::write_u32(&mut four, n);
    out.extend_from_slice(&four);
}

} // verus!
