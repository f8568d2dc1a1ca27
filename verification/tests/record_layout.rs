use proxy_rs::codec::{group_fields, FieldGroup};
use proxy_rs::file_send::FileSendHeader;
use proxy_rs::record::{
    decode_record, encode_record, impl_stream_codec, DeriveError, FieldKind, FieldValue, ItemShape,
};
use proxy_rs::wire::{Decoded, WireError};

fn describe(groups: &[FieldGroup]) -> Vec<(bool, Vec<usize>)> {
    groups
        .iter()
        .map(|g| match g {
            FieldGroup::Regular(i) => (false, vec![*i]),
            FieldGroup::Bitpack(v) => (true, v.clone()),
        })
        .collect()
}

fn header_kinds() -> Vec<FieldKind> {
    vec![FieldKind::U8, FieldKind::Str, FieldKind::U64, FieldKind::Flag]
}

fn header_values(name: &str, size: u64, overwrite: bool) -> Vec<FieldValue> {
    vec![
        FieldValue::U8(1),
        FieldValue::Str(name.to_string()),
        FieldValue::U64(size),
        FieldValue::Flag(overwrite),
    ]
}

fn groups_for(kinds: &[FieldKind]) -> Vec<FieldGroup> {
    match impl_stream_codec(ItemShape::NamedStruct, kinds) {
        Ok(g) => g,
        Err(e) => panic!("derive refused: {}", e.message()),
    }
}

#[test]
fn derive_groups_the_file_send_header() {
    let groups = groups_for(&header_kinds());
    assert_eq!(
        describe(&groups),
        vec![(false, vec![0]), (false, vec![1]), (false, vec![2]), (true, vec![3])]
    );
}

#[test]
fn consecutive_flags_share_one_group() {
    let groups = group_fields(&[true, true, false, true, true, true]);
    assert_eq!(describe(&groups), vec![(true, vec![0, 1]), (false, vec![2]), (true, vec![3, 4, 5])]);
    assert!(group_fields(&[]).is_empty());
}

#[test]
fn derive_refuses_other_items() {
    for shape in [ItemShape::TupleStruct, ItemShape::UnitStruct] {
        match impl_stream_codec(shape, &header_kinds()) {
            Err(e) => {
                assert_eq!(e, DeriveError::RequiresNamedFields);
                assert_eq!(e.message(), "StreamCodec requires named fields");
            }
            Ok(_) => panic!("accepted a struct without named fields"),
        }
    }
    for shape in [ItemShape::Enum, ItemShape::Union] {
        match impl_stream_codec(shape, &header_kinds()) {
            Err(e) => {
                assert_eq!(e, DeriveError::RequiresStruct);
                assert_eq!(e.message(), "StreamCodec requires a struct");
            }
            Ok(_) => panic!("accepted an item that is not a struct"),
        }
    }
}

#[test]
fn derived_layout_matches_file_send_header() {
    let groups = groups_for(&header_kinds());
    for (name, size, overwrite) in [("notes.txt", 1234u64, true), ("a", 0, false), ("ü.bin", u64::MAX, true)] {
        let mut derived = Vec::new();
        encode_record(&groups, &header_values(name, size, overwrite), &mut derived);
        let mut by_hand = Vec::new();
        FileSendHeader { version: 1, file_name: name.to_string(), file_size: size, can_overwrite: overwrite }
            .write_to_stream(&mut by_hand);
        assert_eq!(derived, by_hand);
    }
}

#[test]
fn flags_pack_in_field_order() {
    let kinds = vec![FieldKind::Flag, FieldKind::Flag, FieldKind::U16, FieldKind::Flag];
    let groups = groups_for(&kinds);
    let values = vec![FieldValue::Flag(false), FieldValue::Flag(true), FieldValue::U16(0x1234), FieldValue::Flag(true)];
    let mut out = Vec::new();
    encode_record(&groups, &values, &mut out);
    assert_eq!(out, vec![0b0000_0010, 0x12, 0x34, 0b0000_0001]);
}

#[test]
fn record_roundtrip_with_trailing_bytes() {
    let kinds = vec![FieldKind::U16, FieldKind::Flag, FieldKind::Flag, FieldKind::Str, FieldKind::U8];
    let groups = groups_for(&kinds);
    let values = vec![
        FieldValue::U16(8080),
        FieldValue::Flag(true),
        FieldValue::Flag(false),
        FieldValue::Str("host".to_string()),
        FieldValue::U8(7),
    ];
    let mut out = Vec::new();
    encode_record(&groups, &values, &mut out);
    let n = out.len();
    assert_eq!(n, 2 + 1 + 2 + 4 + 1);
    out.extend_from_slice(b"payload");
    match decode_record(&kinds, &groups, &out) {
        Ok(Decoded::Complete { value, used }) => {
            assert_eq!(used, n);
            assert_eq!(value.len(), 5);
            assert!(matches!(value[0], FieldValue::U16(8080)));
            assert!(matches!(value[1], FieldValue::Flag(true)));
            assert!(matches!(value[2], FieldValue::Flag(false)));
            match &value[3] {
                FieldValue::Str(s) => assert_eq!(s, "host"),
                _ => panic!("expected a string"),
            }
            assert!(matches!(value[4], FieldValue::U8(7)));
        }
        _ => panic!("record not decoded"),
    }
}

#[test]
fn record_prefixes_ask_for_more() {
    let kinds = header_kinds();
    let groups = groups_for(&kinds);
    let mut out = Vec::new();
    encode_record(&groups, &header_values("file", 9, false), &mut out);
    for k in 0..out.len() {
        match decode_record(&kinds, &groups, &out[..k]) {
            Ok(Decoded::Incomplete { needed }) => assert!(k < needed && needed <= out.len()),
            _ => panic!("prefix of length {k} not incomplete"),
        }
    }
}

#[test]
fn record_rejects_invalid_string() {
    let kinds = header_kinds();
    let groups = groups_for(&kinds);
    let bytes = [1u8, 0, 2, 0xC3, 0x28, 0, 0, 0, 0, 0, 0, 0, 0, 0];
    assert!(matches!(decode_record(&kinds, &groups, &bytes), Err(WireError::InvalidUtf8(_))));
}
