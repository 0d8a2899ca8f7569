//! The decoders that other crates provide: little-endian integers, UTF-8
//! text and zlib streams.

use vstd::prelude::*;
use vstd::utf8::{valid_utf8, decode_utf8};
use byteorder::ByteOrder;
use std::io::Read;

verus! {

/// The 16-bit number whose little-endian bytes start at `at`.
pub open spec fn u16_at(data: Seq<u8>, at: int) -> u16 {
    (data[at] as int + 256 * (data[at + 1] as int)) as u16
}

/// The 32-bit number whose little-endian bytes start at `at`.
pub open spec fn u32_at(data: Seq<u8>, at: int) -> u32 {
    (data[at] as int + 256 * (data[at + 1] as int) + 65536 * (data[at + 2] as int) + 16777216 * (
    data[at + 3] as int)) as u32
}

/// The 64-bit number whose little-endian bytes start at `at`.
pub open spec fn u64_at(data: Seq<u8>, at: int) -> u64 {
    (u32_at(data, at) as int + 0x1_0000_0000 * (u32_at(data, at + 4) as int)) as u64
}

/// `byteorder::LittleEndian::read_u16`: the number that the first two bytes
/// of `buf` spell, low byte first. The call panics on a shorter buffer.
#[verifier::external_body]
pub(crate) fn le_u16(buf: &[u8]) -> (r: u16)
    requires
        buf@.len() >= 2,
    ensures
        r == u16_at(buf@, 0),
{
    byteorder::LittleEndian::read_u16(buf)
}

/// `byteorder::LittleEndian::read_u32`: the number that the first four
/// bytes of `buf` spell, low byte first. The call panics on a shorter buffer.
#[verifier::external_body]
pub(crate) fn le_u32(buf: &[u8]) -> (r: u32)
    requires
        buf@.len() >= 4,
    ensures
        r == u32_at(buf@, 0),
{
    byteorder::LittleEndian::read_u32(buf)
}

/// `byteorder::LittleEndian::read_u64`: the number that the first eight
/// bytes of `buf` spell, low byte first. The call panics on a shorter buffer.
#[verifier::external_body]
pub(crate) fn le_u64(buf: &[u8]) -> (r: u64)
    requires
        buf@.len() >= 8,
    ensures
        r == u64_at(buf@, 0),
{
    byteorder::LittleEndian::read_u64(buf)
}

/// `String::from_utf8`: the text that the bytes encode, where they are
/// valid UTF-8, and nothing where they are not.
#[verifier::external_body]
pub(crate) fn utf8_text(bytes: Vec<u8>) -> (r: Option<String>)
    ensures
        r is Some <==> valid_utf8(bytes@),
        r matches Some(s) ==> s@ == decode_utf8(bytes@),
{
    match String::from_utf8(bytes) {
        Ok(s) => Some(s),
        Err(_) => None,
    }
}

/// The first `n` bytes of the zlib stream `data` inflated, if the stream
/// yields that many.
pub uninterp spec fn zlib_inflated(data: Seq<u8>, n: nat) -> Option<Seq<u8>>;

/// `flate2::read::ZlibDecoder` read to exactly `n` bytes: the bytes, or
/// nothing where the stream is damaged or ends before them.
#[verifier::external_body]
pub(crate) fn inflate(data: &[u8], n: usize) -> (r: Option<Vec<u8>>)
    ensures
        match r {
            Some(out) => zlib_inflated(data@, n as nat) == Some(out@) && out@.len() == n,
            None => zlib_inflated(data@, n as nat) is None,
        },
{
    let mut out = vec![0u8; n];
    let mut decoder = flate2::read::ZlibDecoder::new(data);
    match decoder.read_exact(&mut out) {
        Ok(()) => Some(out),
        Err(_) => None,
    }
}

} // verus!
