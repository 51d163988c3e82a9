use uscript_ntl::{
    read_ntl, write_ntl, FormatFault, FunctionType, InvalidTag, NativeTableItem, NtlError,
    Oversize, SIGNATURE,
};

const HEADER: [u8; 4] = [0xF1, 0x14, 0x8D, 0x2C];

fn item(opcode: u32, name: &str, oper_precedence: u8, typ: FunctionType) -> NativeTableItem {
    NativeTableItem { opcode, name: name.to_string(), oper_precedence, typ }
}

fn image(count: u32, records: &[u8]) -> Vec<u8> {
    let mut bytes = HEADER.to_vec();
    bytes.extend_from_slice(&count.to_le_bytes());
    bytes.extend_from_slice(records);
    bytes
}

#[test]
fn signature_constant() {
    assert_eq!(SIGNATURE, 0x2C8D14F1);
}

#[test]
fn empty_table_is_eight_bytes() {
    let bytes = write_ntl(&Vec::new()).unwrap();
    assert_eq!(bytes, vec![0xF1, 0x14, 0x8D, 0x2C, 0x00, 0x00, 0x00, 0x00]);
}

#[test]
fn eight_bytes_hold_an_empty_table() {
    let items = read_ntl(&[0xF1, 0x14, 0x8D, 0x2C, 0x00, 0x00, 0x00, 0x00]).unwrap();
    assert_eq!(items, Vec::new());
}

#[test]
fn single_record_layout() {
    let bytes = write_ntl(&vec![item(7, "Add", 10, FunctionType::Operator)]).unwrap();
    assert_eq!(bytes.len(), 18);
    assert_eq!(
        bytes,
        vec![
            0xF1, 0x14, 0x8D, 0x2C, // signature
            0x01, 0x00, 0x00, 0x00, // count
            0x03, b'A', b'd', b'd', // name
            0x0A, // precedence
            0x02, // kind
            0x07, 0x00, 0x00, 0x00, // opcode
        ]
    );
}

#[test]
fn single_record_reads_back() {
    let bytes = vec![
        0xF1, 0x14, 0x8D, 0x2C, 0x01, 0x00, 0x00, 0x00, 0x03, b'A', b'd', b'd', 0x0A, 0x02, 0x07,
        0x00, 0x00, 0x00,
    ];
    assert_eq!(read_ntl(&bytes).unwrap(), vec![item(7, "Add", 10, FunctionType::Operator)]);
}

#[test]
fn opcode_is_little_endian_on_write() {
    let bytes = write_ntl(&vec![item(0x0102_0304, "", 0, FunctionType::Function)]).unwrap();
    assert_eq!(&bytes[8..], &[0x00, 0x00, 0x01, 0x04, 0x03, 0x02, 0x01]);
}

#[test]
fn opcode_is_little_endian_on_read() {
    let bytes = image(1, &[0x00, 0x00, 0x01, 0x04, 0x03, 0x02, 0x01]);
    assert_eq!(read_ntl(&bytes).unwrap()[0].opcode, 0x0102_0304);
}

#[test]
fn count_is_little_endian() {
    let mut items = Vec::new();
    for i in 0..258u32 {
        items.push(item(i, "f", 0, FunctionType::Function));
    }
    let bytes = write_ntl(&items).unwrap();
    assert_eq!(&bytes[4..8], &[0x02, 0x01, 0x00, 0x00]);
    assert_eq!(bytes.len(), 8 + 258 * 8);
    assert_eq!(read_ntl(&bytes).unwrap(), items);
}

#[test]
fn round_trip_keeps_fields_and_order() {
    let items = vec![
        item(300, "Zeta", 0, FunctionType::Function),
        item(1, "Plus", 20, FunctionType::Operator),
        item(4_000_000_000, "Not", 255, FunctionType::PreOperator),
        item(1, "Inc", 7, FunctionType::PostOperator),
        item(0, "", 0, FunctionType::Function),
    ];
    let bytes = write_ntl(&items).unwrap();
    assert_eq!(read_ntl(&bytes).unwrap(), items);
}

#[test]
fn round_trip_of_names_outside_ascii() {
    let items = vec![
        item(1, "é", 1, FunctionType::Function),
        item(2, "日本語", 2, FunctionType::Operator),
        item(3, "a😀b", 3, FunctionType::PostOperator),
    ];
    let bytes = write_ntl(&items).unwrap();
    assert_eq!(bytes[8], 2);
    assert_eq!(&bytes[9..11], "é".as_bytes());
    assert_eq!(read_ntl(&bytes).unwrap(), items);
}

#[test]
fn bytes_round_trip_exactly() {
    let bytes = image(
        2,
        &[
            0x02, 0xC3, 0xA9, 0x05, 0x03, 0x78, 0x56, 0x34, 0x12, // "é"
            0x01, b'x', 0xFF, 0x04, 0xFF, 0xFF, 0xFF, 0xFF, // "x"
        ],
    );
    let items = read_ntl(&bytes).unwrap();
    assert_eq!(
        items,
        vec![
            item(0x1234_5678, "é", 5, FunctionType::PreOperator),
            item(u32::MAX, "x", 255, FunctionType::PostOperator),
        ]
    );
    assert_eq!(write_ntl(&items).unwrap(), bytes);
}

#[test]
fn bytes_after_the_last_record_are_not_read() {
    let mut bytes = image(1, &[0x01, b'f', 0x00, 0x01, 0x09, 0x00, 0x00, 0x00]);
    let whole = bytes.len();
    bytes.extend_from_slice(&[0xFF, 0x00, 0xC3]);
    let items = read_ntl(&bytes).unwrap();
    assert_eq!(items, vec![item(9, "f", 0, FunctionType::Function)]);
    assert_eq!(write_ntl(&items).unwrap(), bytes[..whole].to_vec());
}

#[test]
fn count_of_zero_reads_no_record() {
    let bytes = image(0, &[0x05, 0x00]);
    assert_eq!(read_ntl(&bytes).unwrap(), Vec::new());
}

#[test]
fn wrong_signature_is_a_format_error() {
    let bytes = vec![0xF1, 0x14, 0x8D, 0x2D, 0x00, 0x00, 0x00, 0x00];
    assert_eq!(
        read_ntl(&bytes),
        Err(NtlError::Format(FormatFault::Signature { found: 0x2D8D14F1 }))
    );
}

#[test]
fn big_endian_signature_is_a_format_error() {
    let bytes = vec![0x2C, 0x8D, 0x14, 0xF1, 0x00, 0x00, 0x00, 0x00];
    assert_eq!(
        read_ntl(&bytes),
        Err(NtlError::Format(FormatFault::Signature { found: 0xF1148D2C }))
    );
}

#[test]
fn wrong_signature_is_found_before_anything_else_is_read() {
    assert_eq!(
        read_ntl(&[0x00, 0x00, 0x00, 0x00]),
        Err(NtlError::Format(FormatFault::Signature { found: 0 }))
    );
    let bytes = vec![0x01, 0x00, 0x00, 0x00, 0x01, 0x00, 0x00, 0x00, 0x09];
    assert_eq!(read_ntl(&bytes), Err(NtlError::Format(FormatFault::Signature { found: 1 })));
}

#[test]
fn kind_tags_outside_one_to_four_are_format_errors() {
    let zero = image(1, &[0x01, b'f', 0x00, 0x00, 0x09, 0x00, 0x00, 0x00]);
    assert_eq!(
        read_ntl(&zero),
        Err(NtlError::Format(FormatFault::Kind { index: 0, tag: 0 }))
    );
    let five = image(1, &[0x01, b'f', 0x00, 0x05, 0x09, 0x00, 0x00, 0x00]);
    assert_eq!(
        read_ntl(&five),
        Err(NtlError::Format(FormatFault::Kind { index: 0, tag: 5 }))
    );
}

#[test]
fn invalid_kind_names_its_record() {
    let bytes = image(
        3,
        &[
            0x01, b'a', 0x00, 0x01, 0x01, 0x00, 0x00, 0x00, //
            0x01, b'b', 0x00, 0x04, 0x02, 0x00, 0x00, 0x00, //
            0x01, b'c', 0x00, 0xFF, 0x03, 0x00, 0x00, 0x00,
        ],
    );
    assert_eq!(
        read_ntl(&bytes),
        Err(NtlError::Format(FormatFault::Kind { index: 2, tag: 0xFF }))
    );
}

#[test]
fn invalid_kind_is_found_before_the_opcode_is_missed() {
    let bytes = image(1, &[0x00, 0x00, 0x09]);
    assert_eq!(
        read_ntl(&bytes),
        Err(NtlError::Format(FormatFault::Kind { index: 0, tag: 9 }))
    );
}

#[test]
fn kind_tags_one_to_four() {
    let kinds = [
        (1u8, FunctionType::Function),
        (2u8, FunctionType::Operator),
        (3u8, FunctionType::PreOperator),
        (4u8, FunctionType::PostOperator),
    ];
    for (tag, kind) in kinds {
        let bytes = image(1, &[0x00, 0x00, tag, 0x00, 0x00, 0x00, 0x00]);
        assert_eq!(read_ntl(&bytes).unwrap()[0].typ, kind);
        assert_eq!(FunctionType::from(tag), Ok(kind));
        assert_eq!(kind.to_u8(), tag);
        assert_eq!(write_ntl(&vec![item(0, "", 0, kind)]).unwrap()[10], tag);
    }
}

#[test]
fn every_byte_is_a_kind_or_refused() {
    for n in 0..=255u8 {
        match FunctionType::from(n) {
            Ok(kind) => {
                assert!((1..=4).contains(&n));
                assert_eq!(kind.to_u8(), n);
            }
            Err(e) => {
                assert!(n == 0 || n > 4);
                assert_eq!(e, InvalidTag { tag: n });
            }
        }
    }
}

#[test]
fn stream_that_ends_inside_a_name_is_truncated() {
    let bytes = image(1, &[0x05, b'A', b'd']);
    assert_eq!(read_ntl(&bytes), Err(NtlError::Truncation { offset: 9 }));
}

#[test]
fn name_with_no_byte_left_is_truncated() {
    let bytes = image(1, &[0x01]);
    assert_eq!(read_ntl(&bytes), Err(NtlError::Truncation { offset: 9 }));
}

#[test]
fn truncation_names_the_field_that_is_cut() {
    assert_eq!(read_ntl(&[]), Err(NtlError::Truncation { offset: 0 }));
    assert_eq!(read_ntl(&HEADER[..3]), Err(NtlError::Truncation { offset: 0 }));
    assert_eq!(read_ntl(&HEADER), Err(NtlError::Truncation { offset: 4 }));
    let mut seven = HEADER.to_vec();
    seven.extend_from_slice(&[0x00, 0x00, 0x00]);
    assert_eq!(read_ntl(&seven), Err(NtlError::Truncation { offset: 4 }));
    // count says one record, none follows
    assert_eq!(read_ntl(&image(1, &[])), Err(NtlError::Truncation { offset: 8 }));
    // the precedence is missing
    assert_eq!(read_ntl(&image(1, &[0x01, b'f'])), Err(NtlError::Truncation { offset: 10 }));
    // the kind is missing
    assert_eq!(
        read_ntl(&image(1, &[0x01, b'f', 0x00])),
        Err(NtlError::Truncation { offset: 11 })
    );
    // the opcode is missing or cut
    assert_eq!(
        read_ntl(&image(1, &[0x01, b'f', 0x00, 0x01])),
        Err(NtlError::Truncation { offset: 12 })
    );
    assert_eq!(
        read_ntl(&image(1, &[0x01, b'f', 0x00, 0x01, 0x09, 0x00, 0x00])),
        Err(NtlError::Truncation { offset: 12 })
    );
}

#[test]
fn second_record_missing_is_truncated() {
    let bytes = image(2, &[0x01, b'f', 0x00, 0x01, 0x09, 0x00, 0x00, 0x00]);
    assert_eq!(read_ntl(&bytes), Err(NtlError::Truncation { offset: 16 }));
}

#[test]
fn name_that_is_not_utf8_is_an_encoding_error() {
    let bytes = image(1, &[0x02, 0xC3, 0x28, 0x00, 0x01, 0x00, 0x00, 0x00, 0x00]);
    assert_eq!(read_ntl(&bytes), Err(NtlError::Encoding { index: 0 }));
    let second = image(
        2,
        &[
            0x01, b'a', 0x00, 0x01, 0x01, 0x00, 0x00, 0x00, //
            0x01, 0x80, 0x00, 0x01, 0x02, 0x00, 0x00, 0x00,
        ],
    );
    assert_eq!(read_ntl(&second), Err(NtlError::Encoding { index: 1 }));
}

#[test]
fn name_cut_inside_a_character_is_an_encoding_error() {
    // the length byte splits the two bytes of "é"
    let bytes = image(1, &[0x01, 0xC3, 0xA9, 0x01, 0x00, 0x00, 0x00, 0x00]);
    assert_eq!(read_ntl(&bytes), Err(NtlError::Encoding { index: 0 }));
}

#[test]
fn name_of_300_bytes_is_too_large() {
    let long = "n".repeat(300);
    let items = vec![item(1, &long, 0, FunctionType::Function)];
    assert_eq!(
        write_ntl(&items),
        Err(NtlError::ValueTooLarge(Oversize::Name { index: 0, len: 300 }))
    );
}

#[test]
fn name_length_is_measured_in_bytes() {
    // 128 characters of two bytes each
    let long = "é".repeat(128);
    let items = vec![
        item(1, "ok", 0, FunctionType::Function),
        item(2, &long, 0, FunctionType::Function),
        item(3, &"x".repeat(400), 0, FunctionType::Function),
    ];
    assert_eq!(
        write_ntl(&items),
        Err(NtlError::ValueTooLarge(Oversize::Name { index: 1, len: 256 }))
    );
}

#[test]
fn name_of_255_bytes_fits() {
    let long = "n".repeat(255);
    let items = vec![item(1, &long, 3, FunctionType::Operator)];
    let bytes = write_ntl(&items).unwrap();
    assert_eq!(bytes.len(), 8 + 1 + 255 + 6);
    assert_eq!(bytes[8], 255);
    assert_eq!(read_ntl(&bytes).unwrap(), items);
}

#[test]
fn name_of_256_bytes_does_not_fit() {
    let items = vec![item(1, &"n".repeat(256), 3, FunctionType::Operator)];
    assert_eq!(
        write_ntl(&items),
        Err(NtlError::ValueTooLarge(Oversize::Name { index: 0, len: 256 }))
    );
}

#[test]
fn equal_opcodes_are_kept() {
    let items = vec![
        item(5, "a", 0, FunctionType::Function),
        item(5, "a", 0, FunctionType::Function),
    ];
    let bytes = write_ntl(&items).unwrap();
    assert_eq!(read_ntl(&bytes).unwrap(), items);
}
