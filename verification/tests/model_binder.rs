use dialectc::binder::{bind, dispatch};
use dialectc::codec::encode;
use dialectc::model::{build, resolve_closure};
use dialectc::types::{
    BuildError, DialectFile, EnumEntry, EnumModel, FieldKind, FieldModel, FieldValue, MessageModel,
    MessageSet, Prim, WireError,
};

fn entry(name: &[u8], value: u64) -> EnumEntry {
    EnumEntry {
        value,
        name: name.to_vec(),
        description: Vec::new(),
        inherited: false,
    }
}

fn an_enum(name: &[u8], entries: Vec<EnumEntry>) -> EnumModel {
    EnumModel {
        name: name.to_vec(),
        entries,
        is_bitmask: false,
    }
}

fn field(name: &[u8], kind: FieldKind, ext: bool) -> FieldModel {
    FieldModel {
        name: name.to_vec(),
        kind,
        enum_ref: None,
        units: Vec::new(),
        is_extension: ext,
    }
}

fn msg(name: &[u8], id: u32, fields: Vec<FieldModel>) -> MessageModel {
    MessageModel {
        id,
        name: name.to_vec(),
        description: Vec::new(),
        fields,
        deprecated: false,
        wip: false,
    }
}

fn dialect(
    path: &[u8],
    imports: Vec<Vec<u8>>,
    enums: Vec<EnumModel>,
    messages: Vec<MessageModel>,
) -> DialectFile {
    DialectFile {
        path: path.to_vec(),
        version: 1,
        imports,
        enums,
        messages,
    }
}

#[test]
fn closure_merge_unions_enum_entries() {
    // a imports b; b defines enum E with X=1; a adds Y=2 to E
    let a = dialect(
        b"a",
        vec![b"b".to_vec()],
        vec![an_enum(b"E", vec![entry(b"Y", 2)])],
        vec![],
    );
    let b = dialect(b"b", vec![], vec![an_enum(b"E", vec![entry(b"X", 1)])], vec![]);
    let files = vec![a, b];
    let set = build(&files, &b"a".to_vec()).unwrap();
    assert_eq!(set.enums.len(), 1);
    let e = &set.enums[0];
    assert_eq!(e.name, b"E".to_vec());
    let mut names: Vec<Vec<u8>> = e.entries.iter().map(|x| x.name.clone()).collect();
    names.sort();
    assert_eq!(names, vec![b"X".to_vec(), b"Y".to_vec()]);
}

#[test]
fn conflicting_entry_values_fail_the_build() {
    let a = dialect(
        b"a",
        vec![b"b".to_vec()],
        vec![an_enum(b"E", vec![entry(b"X", 2)])],
        vec![],
    );
    let b = dialect(b"b", vec![], vec![an_enum(b"E", vec![entry(b"X", 1)])], vec![]);
    let files = vec![a, b];
    assert_eq!(
        build(&files, &b"a".to_vec()),
        Err(BuildError::DuplicateEnumEntry)
    );
}

#[test]
fn same_entry_same_value_is_deduplicated() {
    let a = dialect(
        b"a",
        vec![b"b".to_vec()],
        vec![an_enum(b"E", vec![entry(b"X", 1)])],
        vec![],
    );
    let b = dialect(b"b", vec![], vec![an_enum(b"E", vec![entry(b"X", 1)])], vec![]);
    let files = vec![a, b];
    let set = build(&files, &b"a".to_vec()).unwrap();
    assert_eq!(set.enums[0].entries.len(), 1);
}

#[test]
fn duplicate_message_ids_fail_the_build() {
    let a = dialect(
        b"a",
        vec![b"b".to_vec()],
        vec![],
        vec![msg(b"ONE", 7, vec![])],
    );
    let b = dialect(b"b", vec![], vec![], vec![msg(b"OTHER", 7, vec![])]);
    let files = vec![a, b];
    assert_eq!(
        build(&files, &b"a".to_vec()),
        Err(BuildError::DuplicateMessageId)
    );
}

#[test]
fn unknown_enum_reference_fails_the_build() {
    let mut f = field(b"mode", FieldKind::Scalar(Prim::U8), false);
    f.enum_ref = Some(b"NOPE".to_vec());
    let a = dialect(b"a", vec![], vec![], vec![msg(b"M", 1, vec![f])]);
    let files = vec![a];
    assert_eq!(
        build(&files, &b"a".to_vec()),
        Err(BuildError::UnknownEnumReference)
    );
}

#[test]
fn zero_array_length_fails_the_build() {
    let f = field(b"xs", FieldKind::Array(Prim::U8, 0), false);
    let a = dialect(b"a", vec![], vec![], vec![msg(b"M", 1, vec![f])]);
    let files = vec![a];
    assert_eq!(
        build(&files, &b"a".to_vec()),
        Err(BuildError::InvalidArrayLength)
    );
}

#[test]
fn base_field_after_extension_fails_the_build() {
    let fields = vec![
        field(b"x", FieldKind::Scalar(Prim::U8), true),
        field(b"y", FieldKind::Scalar(Prim::U8), false),
    ];
    let a = dialect(b"a", vec![], vec![], vec![msg(b"M", 1, fields)]);
    let files = vec![a];
    assert_eq!(
        build(&files, &b"a".to_vec()),
        Err(BuildError::MalformedMessage)
    );
}

#[test]
fn import_cycle_is_detected() {
    let x = dialect(b"x", vec![b"y".to_vec()], vec![], vec![]);
    let y = dialect(b"y", vec![b"x".to_vec()], vec![], vec![]);
    let files = vec![x, y];
    assert_eq!(
        resolve_closure(&files, &b"x".to_vec()),
        Err(BuildError::IncludeCycle)
    );
    assert_eq!(
        build(&files, &b"x".to_vec()),
        Err(BuildError::IncludeCycle)
    );
}

#[test]
fn self_import_is_a_cycle() {
    let x = dialect(b"x", vec![b"x".to_vec()], vec![], vec![]);
    let files = vec![x];
    assert_eq!(
        resolve_closure(&files, &b"x".to_vec()),
        Err(BuildError::IncludeCycle)
    );
}

#[test]
fn absent_import_is_missing() {
    let a = dialect(b"a", vec![b"ghost".to_vec()], vec![], vec![]);
    let files = vec![a];
    assert_eq!(
        resolve_closure(&files, &b"a".to_vec()),
        Err(BuildError::MissingInclude)
    );
    let none: Vec<DialectFile> = Vec::new();
    assert_eq!(
        resolve_closure(&none, &b"a".to_vec()),
        Err(BuildError::MissingInclude)
    );
}

#[test]
fn diamond_imports_resolve_each_file_once() {
    let a = dialect(b"a", vec![b"b".to_vec(), b"c".to_vec()], vec![], vec![]);
    let b = dialect(b"b", vec![b"d".to_vec()], vec![], vec![]);
    let c = dialect(b"c", vec![b"d".to_vec()], vec![], vec![]);
    let d = dialect(b"d", vec![], vec![], vec![msg(b"M", 5, vec![])]);
    let files = vec![a, b, c, d];
    let order = resolve_closure(&files, &b"a".to_vec()).unwrap();
    assert_eq!(order.len(), 4);
    // and building does not see d's message twice
    let set = build(&files, &b"a".to_vec()).unwrap();
    assert_eq!(set.messages.len(), 1);
}

fn unit(tag: &[u8], messages: Vec<MessageModel>) -> MessageSet {
    MessageSet {
        name: tag.to_vec(),
        version: 1,
        enums: vec![],
        messages,
    }
}

#[test]
fn dispatch_requires_the_dialect_tag_and_scopes_ids() {
    // dialects A and C both define message id 42 with different layouts
    let a = unit(
        b"A",
        vec![msg(b"SMALL", 42, vec![field(b"v", FieldKind::Scalar(Prim::U8), false)])],
    );
    let c = unit(
        b"C",
        vec![msg(b"WIDE", 42, vec![field(b"v", FieldKind::Scalar(Prim::U32), false)])],
    );
    let agg = bind(vec![a, c]);
    let bytes = vec![1, 2, 3, 4];
    let da = dispatch(&agg, &b"A".to_vec(), 42, &bytes).unwrap();
    let dc = dispatch(&agg, &b"C".to_vec(), 42, &bytes).unwrap();
    assert_eq!(da.values[0].elems, vec![1]);
    assert_eq!(dc.values[0].elems, vec![0x04030201]);
    assert_eq!(da.dialect, b"A".to_vec());
    assert_eq!(dc.dialect, b"C".to_vec());
}

#[test]
fn dispatch_rejects_unknown_dialects_and_ids() {
    let a = unit(
        b"A",
        vec![msg(b"SMALL", 42, vec![field(b"v", FieldKind::Scalar(Prim::U8), false)])],
    );
    let agg = bind(vec![a]);
    let bytes = vec![1];
    assert_eq!(
        dispatch(&agg, &b"B".to_vec(), 42, &bytes),
        Err(WireError::UnknownDialect)
    );
    assert_eq!(
        dispatch(&agg, &b"A".to_vec(), 43, &bytes),
        Err(WireError::UnknownMessageId)
    );
    let empty: Vec<u8> = Vec::new();
    assert_eq!(
        dispatch(&agg, &b"A".to_vec(), 42, &empty),
        Err(WireError::TruncatedPayload)
    );
}

#[test]
fn dispatched_decode_round_trips_an_encoded_message() {
    let fields = vec![
        field(b"seq", FieldKind::Scalar(Prim::U16), false),
        field(b"note", FieldKind::Array(Prim::Char, 3), true),
    ];
    let payload = encode(
        &fields,
        &vec![
            FieldValue { elems: vec![513] },
            FieldValue { elems: vec![104, 105, 0] },
        ],
    );
    let a = unit(b"A", vec![msg(b"NOTE", 3, fields)]);
    let agg = bind(vec![a]);
    let d = dispatch(&agg, &b"A".to_vec(), 3, &payload).unwrap();
    assert_eq!(d.id, 3);
    assert_eq!(d.values[0].elems, vec![513]);
    assert_eq!(d.values[1].elems, vec![104, 105, 0]);
}

#[test]
fn bind_orders_units_by_dialect_tag() {
    let c = unit(b"charlie", vec![]);
    let a = unit(b"alpha", vec![]);
    let b = unit(b"bravo", vec![]);
    let agg = bind(vec![c, a, b]);
    let tags: Vec<Vec<u8>> = agg.units.iter().map(|u| u.name.clone()).collect();
    assert_eq!(
        tags,
        vec![b"alpha".to_vec(), b"bravo".to_vec(), b"charlie".to_vec()]
    );
}
