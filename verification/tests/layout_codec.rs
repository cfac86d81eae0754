use dialectc::codec::{decode, encode};
use dialectc::layout::{crc_extra, plan_layout};
use dialectc::types::{FieldKind, FieldModel, FieldValue, MessageModel, Prim, WireError};

fn field(name: &[u8], kind: FieldKind, ext: bool) -> FieldModel {
    FieldModel {
        name: name.to_vec(),
        kind,
        enum_ref: None,
        units: Vec::new(),
        is_extension: ext,
    }
}

fn msg(name: &[u8], id: u32, fields: Vec<FieldModel>) -> MessageModel {
    MessageModel {
        id,
        name: name.to_vec(),
        description: Vec::new(),
        fields,
        deprecated: false,
        wip: false,
    }
}

fn scalar(p: Prim) -> FieldKind {
    FieldKind::Scalar(p)
}

#[test]
fn wire_order_sorts_by_descending_width_with_stable_ties() {
    // declared widths [1, 4, 2, 8, 1]
    let fields = vec![
        field(b"a", scalar(Prim::U8), false),
        field(b"b", scalar(Prim::U32), false),
        field(b"c", scalar(Prim::U16), false),
        field(b"d", scalar(Prim::U64), false),
        field(b"e", scalar(Prim::I8), false),
    ];
    let (order, min_len, full_len) = plan_layout(&fields);
    // widths in wire order are [8, 4, 2, 1, 1]; ties keep declaration order
    assert_eq!(order, vec![3, 1, 2, 0, 4]);
    assert_eq!(min_len, 16);
    assert_eq!(full_len, 16);
}

#[test]
fn wire_order_extensions_stay_in_declaration_order() {
    let fields = vec![
        field(b"a", scalar(Prim::U8), false),
        field(b"x", scalar(Prim::U64), true),
        field(b"y", scalar(Prim::U8), true),
    ];
    let (order, min_len, full_len) = plan_layout(&fields);
    assert_eq!(order, vec![0, 1, 2]);
    assert_eq!(min_len, 1);
    assert_eq!(full_len, 10);
}

fn ping_fields() -> Vec<FieldModel> {
    vec![
        field(b"seq", scalar(Prim::U32), false),
        field(b"tag", scalar(Prim::U8), false),
        field(b"code", scalar(Prim::U16), true),
    ]
}

fn ping_values() -> Vec<FieldValue> {
    vec![
        FieldValue { elems: vec![0xDEAD_BEEF] },
        FieldValue { elems: vec![7] },
        FieldValue { elems: vec![0x1234] },
    ]
}

#[test]
fn encode_is_little_endian_in_wire_order() {
    let bytes = encode(&ping_fields(), &ping_values());
    assert_eq!(bytes, vec![0xEF, 0xBE, 0xAD, 0xDE, 0x07, 0x34, 0x12]);
}

#[test]
fn round_trip_preserves_every_field() {
    let fields = ping_fields();
    let bytes = encode(&fields, &ping_values());
    let back = decode(&fields, &bytes).unwrap();
    assert_eq!(back[0].elems, vec![0xDEAD_BEEF]);
    assert_eq!(back[1].elems, vec![7]);
    assert_eq!(back[2].elems, vec![0x1234]);
}

#[test]
fn round_trip_arrays_and_wide_values() {
    let fields = vec![
        field(b"big", scalar(Prim::U64), false),
        field(b"txt", FieldKind::Array(Prim::Char, 4), false),
    ];
    let vals = vec![
        FieldValue { elems: vec![u64::MAX] },
        FieldValue { elems: vec![104, 105, 33, 0] },
    ];
    let bytes = encode(&fields, &vals);
    assert_eq!(bytes.len(), 12);
    let back = decode(&fields, &bytes).unwrap();
    assert_eq!(back[0].elems, vec![u64::MAX]);
    assert_eq!(back[1].elems, vec![104, 105, 33, 0]);
}

#[test]
fn truncation_at_minimum_zeroes_every_extension_field() {
    let fields = ping_fields();
    let bytes = encode(&fields, &ping_values());
    let cut = bytes[..5].to_vec();
    let back = decode(&fields, &cut).unwrap();
    assert_eq!(back[0].elems, vec![0xDEAD_BEEF]);
    assert_eq!(back[1].elems, vec![7]);
    assert_eq!(back[2].elems, vec![0]);
}

#[test]
fn truncation_mid_extension_field_zeroes_that_field() {
    let fields = ping_fields();
    let bytes = encode(&fields, &ping_values());
    let cut = bytes[..6].to_vec();
    let back = decode(&fields, &cut).unwrap();
    assert_eq!(back[0].elems, vec![0xDEAD_BEEF]);
    assert_eq!(back[2].elems, vec![0]);
}

#[test]
fn truncation_below_minimum_fails() {
    let fields = ping_fields();
    let bytes = encode(&fields, &ping_values());
    let cut = bytes[..4].to_vec();
    assert_eq!(decode(&fields, &cut), Err(WireError::TruncatedPayload));
}

#[test]
fn decode_ignores_trailing_extra_bytes() {
    let fields = ping_fields();
    let mut bytes = encode(&fields, &ping_values());
    bytes.push(0xAA);
    bytes.push(0xBB);
    let back = decode(&fields, &bytes).unwrap();
    assert_eq!(back[0].elems, vec![0xDEAD_BEEF]);
    assert_eq!(back[2].elems, vec![0x1234]);
}

#[test]
fn empty_message_round_trips() {
    let fields: Vec<FieldModel> = Vec::new();
    let vals: Vec<FieldValue> = Vec::new();
    let bytes = encode(&fields, &vals);
    assert_eq!(bytes.len(), 0);
    let back = decode(&fields, &bytes).unwrap();
    assert_eq!(back.len(), 0);
}

#[test]
fn crc_extra_has_the_prescribed_value() {
    let m = msg(b"PING", 9, ping_fields());
    assert_eq!(crc_extra(&m), 205);
    let empty = msg(b"A", 1, Vec::new());
    assert_eq!(crc_extra(&empty), 138);
    let arr = msg(b"LOG", 2, vec![field(b"txt", FieldKind::Array(Prim::Char, 4), false)]);
    assert_eq!(crc_extra(&arr), 153);
}

#[test]
fn crc_extra_is_stable_across_repeated_builds() {
    let m = msg(b"PING", 9, ping_fields());
    let first = crc_extra(&m);
    for _ in 0..10 {
        assert_eq!(crc_extra(&m), first);
    }
}

#[test]
fn crc_extra_changes_with_field_name_type_or_length() {
    let base = msg(b"PING", 9, ping_fields());
    let renamed = msg(
        b"PING",
        9,
        vec![
            field(b"seq2", scalar(Prim::U32), false),
            field(b"tag", scalar(Prim::U8), false),
        ],
    );
    assert_eq!(crc_extra(&renamed), 209);
    assert_ne!(crc_extra(&base), crc_extra(&renamed));
    let retyped = msg(
        b"PING",
        9,
        vec![
            field(b"seq", scalar(Prim::I32), false),
            field(b"tag", scalar(Prim::U8), false),
            field(b"code", scalar(Prim::U16), true),
        ],
    );
    assert_ne!(crc_extra(&base), crc_extra(&retyped));
}

#[test]
fn crc_extra_ignores_units_descriptions_and_extensions() {
    let base = msg(b"PING", 9, ping_fields());
    let mut with_units = ping_fields();
    with_units[0].units = b"ms".to_vec();
    let mut m2 = msg(b"PING", 9, with_units);
    m2.description = b"anything".to_vec();
    assert_eq!(crc_extra(&base), crc_extra(&m2));
    // a changed or dropped extension field does not change the checksum
    let no_ext = msg(
        b"PING",
        9,
        vec![
            field(b"seq", scalar(Prim::U32), false),
            field(b"tag", scalar(Prim::U8), false),
        ],
    );
    assert_eq!(crc_extra(&base), crc_extra(&no_ext));
}
