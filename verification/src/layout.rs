//! The byte layout of a table, as functions on sequences of bytes.
//!
//! A table is the signature, the number of records, and the records, all
//! integers little-endian:
//!
//! ```text
//! signature: u32 | count: u32 | count records
//! record: name_length: u8 | name: name_length bytes of UTF-8
//!         | operator_precedence: u8 | kind_tag: u8 | opcode: u32
//! ```

use vstd::prelude::*;
use vstd::utf8::{decode_utf8, encode_utf8, valid_utf8};
use crate::error::{FormatFault, NtlError, Oversize};
use crate::item::ItemView;
use crate::kind::FunctionType;

verus! {

/// The value that the first four bytes of every table hold.
pub const SIGNATURE: u32 = 0x2C8D14F1;

/// The number of bytes before the first record.
pub const HEADER_LEN: usize = 8;

/// The longest name that a record can hold, in bytes.
pub const MAX_NAME_LEN: usize = 255;

/// The four bytes of `x`, lowest first.
pub open spec fn u32_le(x: u32) -> Seq<u8> {
    seq![
        (x % 256) as u8,
        (x / 256 % 256) as u8,
        (x / 65536 % 256) as u8,
        (x / 16777216) as u8,
    ]
}

/// The integer whose four bytes, lowest first, are `b`.
pub open spec fn le_u32(b: Seq<u8>) -> u32
    recommends
        b.len() == 4,
{
    (b[0] + 256 * b[1] + 65536 * b[2] + 16777216 * b[3]) as u32
}

/// The bytes of a length-prefixed name: a length byte, then the UTF-8 bytes.
/// A name of more than 255 bytes has none; `index` is the record's place in
/// the table and is reported with the error.
pub open spec fn spec_write_string(name: Seq<char>, index: int) -> Result<Seq<u8>, NtlError> {
    let body = encode_utf8(name);
    if body.len() > MAX_NAME_LEN {
        Err(
            NtlError::ValueTooLarge(
                Oversize::Name { index: index as usize, len: body.len() as usize },
            ),
        )
    } else {
        Ok(seq![body.len() as u8] + body)
    }
}

/// The bytes of one record.
pub open spec fn spec_write_item(item: ItemView, index: int) -> Result<Seq<u8>, NtlError> {
    match spec_write_string(item.name, index) {
        Err(e) => Err(e),
        Ok(name) => Ok(
            name + seq![item.oper_precedence, item.typ.tag()] + u32_le(item.opcode),
        ),
    }
}

/// The bytes of the first `n` records, one after the other. The first record
/// that has no bytes decides the error.
pub open spec fn spec_write_items(items: Seq<ItemView>, n: nat) -> Result<Seq<u8>, NtlError>
    recommends
        n <= items.len(),
    decreases n,
{
    if n == 0 {
        Ok(Seq::empty())
    } else {
        match spec_write_items(items, (n - 1) as nat) {
            Err(e) => Err(e),
            Ok(before) => match spec_write_item(items[n - 1], n - 1) {
                Err(e) => Err(e),
                Ok(last) => Ok(before + last),
            },
        }
    }
}

/// The file image of a table: signature, count, records. The count is checked
/// before any record.
pub open spec fn spec_encode(items: Seq<ItemView>) -> Result<Seq<u8>, NtlError> {
    if items.len() > u32::MAX {
        Err(NtlError::ValueTooLarge(Oversize::Count { count: items.len() as usize }))
    } else {
        match spec_write_items(items, items.len()) {
            Err(e) => Err(e),
            Ok(body) => Ok(u32_le(SIGNATURE) + u32_le(items.len() as u32) + body),
        }
    }
}

/// Whether a table has a file image: the count fits 32 bits and every name
/// fits 255 bytes.
pub open spec fn encodable(items: Seq<ItemView>) -> bool {
    &&& items.len() <= u32::MAX
    &&& forall|i: int| 0 <= i < items.len() ==> fits(#[trigger] items[i])
}

/// Whether the name of a record fits its length byte.
pub open spec fn fits(item: ItemView) -> bool {
    encode_utf8(item.name).len() <= MAX_NAME_LEN
}

/// The length-prefixed name that starts at byte `pos`, and the position after
/// it.
pub open spec fn spec_read_string(bytes: Seq<u8>, pos: int, index: int) -> Result<
    (Seq<char>, int),
    NtlError,
> {
    if pos >= bytes.len() {
        Err(NtlError::Truncation { offset: pos as usize })
    } else if pos + 1 + bytes[pos] > bytes.len() {
        Err(NtlError::Truncation { offset: (pos + 1) as usize })
    } else {
        let body = bytes.subrange(pos + 1, pos + 1 + bytes[pos]);
        if valid_utf8(body) {
            Ok((decode_utf8(body), pos + 1 + bytes[pos]))
        } else {
            Err(NtlError::Encoding { index: index as usize })
        }
    }
}

/// The record that starts at byte `pos`, and the position after it. The
/// fields are read in the order of the layout, and the first that fails
/// decides the error.
pub open spec fn spec_read_item(bytes: Seq<u8>, pos: int, index: int) -> Result<
    (ItemView, int),
    NtlError,
> {
    match spec_read_string(bytes, pos, index) {
        Err(e) => Err(e),
        Ok((name, p)) => if p >= bytes.len() {
            Err(NtlError::Truncation { offset: p as usize })
        } else if p + 1 >= bytes.len() {
            Err(NtlError::Truncation { offset: (p + 1) as usize })
        } else {
            match FunctionType::of_tag(bytes[p + 1]) {
                None => Err(
                    NtlError::Format(
                        FormatFault::Kind { index: index as usize, tag: bytes[p + 1] },
                    ),
                ),
                Some(typ) => if p + 6 > bytes.len() {
                    Err(NtlError::Truncation { offset: (p + 2) as usize })
                } else {
                    Ok(
                        (
                            ItemView {
                                opcode: le_u32(bytes.subrange(p + 2, p + 6)),
                                name,
                                oper_precedence: bytes[p],
                                typ,
                            },
                            p + 6,
                        ),
                    )
                },
            }
        },
    }
}

/// The first `n` records after the header, and the position after them.
pub open spec fn spec_read_items(bytes: Seq<u8>, n: nat) -> Result<(Seq<ItemView>, int), NtlError>
    decreases n,
{
    if n == 0 {
        Ok((Seq::empty(), HEADER_LEN as int))
    } else {
        match spec_read_items(bytes, (n - 1) as nat) {
            Err(e) => Err(e),
            Ok((before, pos)) => match spec_read_item(bytes, pos, n - 1) {
                Err(e) => Err(e),
                Ok((last, end)) => Ok((before.push(last), end)),
            },
        }
    }
}

/// The table that a file image holds, and the number of bytes that it takes.
/// The signature is checked as soon as it is read; what follows the last
/// record is not looked at.
pub open spec fn spec_decode_to(bytes: Seq<u8>) -> Result<(Seq<ItemView>, int), NtlError> {
    if bytes.len() < 4 {
        Err(NtlError::Truncation { offset: 0 })
    } else if le_u32(bytes.subrange(0, 4)) != SIGNATURE {
        Err(NtlError::Format(FormatFault::Signature { found: le_u32(bytes.subrange(0, 4)) }))
    } else if bytes.len() < 8 {
        Err(NtlError::Truncation { offset: 4 })
    } else {
        spec_read_items(bytes, le_u32(bytes.subrange(4, 8)) as nat)
    }
}

/// The table that a file image holds.
pub open spec fn spec_decode(bytes: Seq<u8>) -> Result<Seq<ItemView>, NtlError> {
    match spec_decode_to(bytes) {
        Err(e) => Err(e),
        Ok((items, _)) => Ok(items),
    }
}

} // verus!
