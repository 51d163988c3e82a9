//! The calls that the codec leaves to others: little-endian integers and the
//! UTF-8 check. Their contracts are taken on trust.

use vstd::prelude::*;
use vstd::utf8::{decode_utf8, valid_utf8};
use byteorder::{ByteOrder, LittleEndian};
use crate::layout::{le_u32, u32_le};

verus! {

/// `byteorder::LittleEndian::read_u32`: the integer that the first four
/// bytes of `buf` hold, lowest byte first. It panics on a shorter buffer.
#[verifier::external_body]
pub(crate) fn read_u32_le(buf: &[u8]) -> (r: u32)
    requires
        buf@.len() >= 4,
    ensures
        r == le_u32(buf@.subrange(0, 4)),
{
    LittleEndian::read_u32(buf)
}

/// `byteorder::LittleEndian::write_u32` on a buffer of four bytes: the bytes
/// of `n`, lowest first.
#[verifier::external_body]
pub(crate) fn write_u32_le(n: u32) -> (r: [u8; 4])
    ensures
        r@ == u32_le(n),
{
    let mut buf: [u8; 4] = [0; 4];
    LittleEndian::write_u32(&mut buf, n);
    buf
}

/// `String::from_utf8`: the text that `bytes` encode, and `None` exactly when
/// they are not UTF-8.
#[verifier::external_body]
pub(crate) fn string_from_utf8(bytes: Vec<u8>) -> (r: Option<String>)
    ensures
        r is Some <==> valid_utf8(bytes@),
        r matches Some(s) ==> s@ == decode_utf8(bytes@),
{
    match String::from_utf8(bytes) {
        Ok(s) => Some(s),
        Err(_) => None,
    }
}

} // verus!
