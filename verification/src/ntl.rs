//! Reading and writing file images.

use vstd::prelude::*;
use vstd::slice::{slice_subrange, slice_to_vec};
use vstd::utf8::encode_utf8;
use crate::error::{FormatFault, NtlError, Oversize};
use crate::item::{table_view, ItemView, NativeTableItem};
use crate::kind::FunctionType;
use crate::laws::{lemma_encode_succeeds_iff, lemma_read_error_stays, lemma_write_error_stays};
use crate::layout::{
    encodable, le_u32, spec_decode, spec_encode, spec_read_item, spec_read_items,
    spec_read_string, spec_write_item, spec_write_items, spec_write_string, u32_le, HEADER_LEN,
    MAX_NAME_LEN, SIGNATURE,
};
use crate::wire::{read_u32_le, string_from_utf8, write_u32_le};

verus! {

/// Reads the length-prefixed text that starts at byte `pos`, and gives it
/// with the position after it. `index` is only reported with an error.
fn read_string(bytes: &[u8], pos: usize, index: usize) -> (r: Result<(String, usize), NtlError>)
    ensures
        match r {
            Ok((text, next)) => spec_read_string(bytes@, pos as int, index as int) == Ok::<
                (Seq<char>, int),
                NtlError,
            >((text@, next as int)),
            Err(e) => spec_read_string(bytes@, pos as int, index as int) == Err::<
                (Seq<char>, int),
                NtlError,
            >(e),
        },
{
    if pos >= bytes.len() {
        return Err(NtlError::Truncation { offset: pos });
    }
    let len = bytes[pos] as usize;
    if len > bytes.len() - pos - 1 {
        return Err(NtlError::Truncation { offset: pos + 1 });
    }
    let text_buf = slice_to_vec(slice_subrange(bytes, pos + 1, pos + 1 + len));
    match string_from_utf8(text_buf) {
        Some(text) => Ok((text, pos + 1 + len)),
        None => Err(NtlError::Encoding { index }),
    }
}

/// Appends the length byte and the UTF-8 bytes of `text` to `writer`. A text
/// of more than 255 bytes is refused and nothing is appended.
fn write_string(writer: &mut Vec<u8>, text: &str, index: usize) -> (r: Result<(), NtlError>)
    ensures
        match r {
            Ok(()) => spec_write_string(text@, index as int) is Ok && final(writer)@ == old(
                writer,
            )@ + spec_write_string(text@, index as int)->Ok_0,
            Err(e) => spec_write_string(text@, index as int) == Err::<Seq<u8>, NtlError>(e)
                && final(writer)@ == old(writer)@,
        },
{
    let body = text.as_bytes();
    let len = body.len();
    if len > MAX_NAME_LEN {
        return Err(NtlError::ValueTooLarge(Oversize::Name { index, len }));
    }
    writer.push(len as u8);
    writer.extend_from_slice(body);
    assert(writer@ =~= old(writer)@ + (seq![len as u8] + encode_utf8(text@)));
    Ok(())
}

/// Appends the four bytes of `n`, lowest first.
fn write_u32(writer: &mut Vec<u8>, n: u32)
    ensures
        final(writer)@ == old(writer)@ + u32_le(n),
{
    let buf = write_u32_le(n);
    writer.extend_from_slice(buf.as_slice());
    assert(writer@ =~= old(writer)@ + u32_le(n));
}

/// Reads the record that starts at byte `pos`.
fn read_item(bytes: &[u8], pos: usize, index: usize) -> (r: Result<
    (NativeTableItem, usize),
    NtlError,
>)
    ensures
        match r {
            Ok((item, next)) => spec_read_item(bytes@, pos as int, index as int) == Ok::<
                (ItemView, int),
                NtlError,
            >((item@, next as int)),
            Err(e) => spec_read_item(bytes@, pos as int, index as int) == Err::<
                (ItemView, int),
                NtlError,
            >(e),
        },
{
    let (name, p) = match read_string(bytes, pos, index) {
        Ok(found) => found,
        Err(e) => {
            return Err(e);
        },
    };
    if p >= bytes.len() {
        return Err(NtlError::Truncation { offset: p });
    }
    let oper_precedence = bytes[p];
    if p + 1 >= bytes.len() {
        return Err(NtlError::Truncation { offset: p + 1 });
    }
    let tag = bytes[p + 1];
    let typ = match FunctionType::from(tag) {
        Ok(typ) => typ,
        Err(e) => {
            return Err(NtlError::Format(FormatFault::Kind { index, tag: e.tag }));
        },
    };
    if bytes.len() - p < 6 {
        return Err(NtlError::Truncation { offset: p + 2 });
    }
    let opcode = read_u32_le(slice_subrange(bytes, p + 2, p + 6));
    assert(bytes@.subrange(p + 2, p + 6).subrange(0, 4) =~= bytes@.subrange(p + 2, p + 6));
    Ok((NativeTableItem { opcode, name, oper_precedence, typ }, p + 6))
}

/// Appends the bytes of one record, or nothing if its name is too long.
fn write_item(writer: &mut Vec<u8>, item: &NativeTableItem, index: usize) -> (r: Result<
    (),
    NtlError,
>)
    ensures
        match r {
            Ok(()) => spec_write_item(item@, index as int) is Ok && final(writer)@ == old(
                writer,
            )@ + spec_write_item(item@, index as int)->Ok_0,
            Err(e) => spec_write_item(item@, index as int) == Err::<Seq<u8>, NtlError>(e)
                && final(writer)@ == old(writer)@,
        },
{
    match write_string(writer, item.name.as_str(), index) {
        Ok(()) => {},
        Err(e) => {
            return Err(e);
        },
    }
    writer.push(item.oper_precedence);
    writer.push(item.typ.to_u8());
    write_u32(writer, item.opcode);
    assert(writer@ =~= old(writer)@ + spec_write_item(item@, index as int)->Ok_0);
    Ok(())
}

/// Reads a file image: the table that `bytes` hold, record by record in the
/// order of the file, or the first error that reading meets.
///
/// Bytes after the last record are not read.
pub fn read_ntl(bytes: &[u8]) -> (r: Result<Vec<NativeTableItem>, NtlError>)
    ensures
        match r {
            Ok(items) => spec_decode(bytes@) == Ok::<Seq<ItemView>, NtlError>(
                table_view(items@),
            ),
            Err(e) => spec_decode(bytes@) == Err::<Seq<ItemView>, NtlError>(e),
        },
        bytes@.len() >= 4 && le_u32(bytes@.subrange(0, 4)) != SIGNATURE ==> r == Err::<
            Vec<NativeTableItem>,
            NtlError,
        >(NtlError::Format(FormatFault::Signature { found: le_u32(bytes@.subrange(0, 4)) })),
{
    if bytes.len() < 4 {
        return Err(NtlError::Truncation { offset: 0 });
    }
    let sig = read_u32_le(slice_subrange(bytes, 0, 4));
    assert(bytes@.subrange(0, 4).subrange(0, 4) =~= bytes@.subrange(0, 4));
    if sig != SIGNATURE {
        return Err(NtlError::Format(FormatFault::Signature { found: sig }));
    }
    if bytes.len() < HEADER_LEN {
        return Err(NtlError::Truncation { offset: 4 });
    }
    let num = read_u32_le(slice_subrange(bytes, 4, 8));
    assert(bytes@.subrange(4, 8).subrange(0, 4) =~= bytes@.subrange(4, 8));

    let mut items: Vec<NativeTableItem> = Vec::new();
    let mut pos: usize = HEADER_LEN;
    let mut i: u32 = 0;
    assert(table_view(items@) =~= Seq::<ItemView>::empty());
    while i < num
        invariant
            i <= num,
            num == le_u32(bytes@.subrange(4, 8)),
            bytes@.len() >= 8,
            le_u32(bytes@.subrange(0, 4)) == SIGNATURE,
            spec_read_items(bytes@, i as nat) == Ok::<(Seq<ItemView>, int), NtlError>(
                (table_view(items@), pos as int),
            ),
        decreases num - i,
    {
        match read_item(bytes, pos, i as usize) {
            Ok((item, next)) => {
                let ghost before = table_view(items@);
                let ghost last = item@;
                items.push(item);
                pos = next;
                assert(table_view(items@) =~= before.push(last));
            },
            Err(e) => {
                proof {
                    lemma_read_error_stays(bytes@, (i + 1) as nat, num as nat);
                }
                return Err(e);
            },
        }
        i += 1;
    }
    Ok(items)
}

/// Writes a file image: the signature, the number of records, and the
/// records in the order of `items`.
///
/// A table of more than 2^32 - 1 records is refused, and so is one with a
/// name of more than 255 bytes: the error names the first such record.
pub fn write_ntl(items: &Vec<NativeTableItem>) -> (r: Result<Vec<u8>, NtlError>)
    ensures
        match r {
            Ok(bytes) => spec_encode(table_view(items@)) == Ok::<Seq<u8>, NtlError>(bytes@),
            Err(e) => spec_encode(table_view(items@)) == Err::<Seq<u8>, NtlError>(e),
        },
        r is Ok <==> encodable(table_view(items@)),
        r matches Err(e) ==> e is ValueTooLarge,
{
    proof {
        lemma_encode_succeeds_iff(table_view(items@));
    }
    let count = items.len();
    if count > u32::MAX as usize {
        return Err(NtlError::ValueTooLarge(Oversize::Count { count }));
    }
    let mut writer: Vec<u8> = Vec::new();
    write_u32(&mut writer, SIGNATURE);
    write_u32(&mut writer, count as u32);
    let ghost head = writer@;
    let ghost table = table_view(items@);
    let mut i: usize = 0;
    while i < count
        invariant
            i <= count,
            count == items@.len(),
            count <= u32::MAX,
            table == table_view(items@),
            head == u32_le(SIGNATURE) + u32_le(count as u32),
            spec_write_items(table, i as nat) is Ok,
            writer@ == head + spec_write_items(table, i as nat)->Ok_0,
        decreases count - i,
    {
        match write_item(&mut writer, &items[i], i) {
            Ok(()) => {
                assert(writer@ =~= head + spec_write_items(table, (i + 1) as nat)->Ok_0);
            },
            Err(e) => {
                proof {
                    lemma_write_error_stays(table, (i + 1) as nat, count as nat);
                }
                return Err(e);
            },
        }
        i += 1;
    }
    Ok(writer)
}

} // verus!
