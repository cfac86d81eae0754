use dialectc::ident::ident_of;
use dialectc::layout::{crc_extra, plan_layout};
use dialectc::model::build;
use dialectc::parse::{check_file, kind_of_token, parse, prim_of_token};
use dialectc::types::{BuildError, FieldKind, Prim};

#[test]
fn parse_minimal_header() {
    let d = parse(&b"d 3\n".to_vec(), &b"tiny".to_vec()).unwrap();
    assert_eq!(d.version, 3);
    assert_eq!(d.path, b"tiny".to_vec());
    assert!(d.imports.is_empty());
    assert!(d.enums.is_empty());
    assert!(d.messages.is_empty());
}

#[test]
fn parse_full_dialect() {
    let text = b"d 1\n\
i common\n\
e MODE b\n\
v OFF 0 engine off\n\
v ON 1\n\
.\n\
m 42 STATUS\n\
f uint32_t seq - ms\n\
f uint8_t mode MODE\n\
x\n\
f uint16_t detail\n\
.\n";
    let d = parse(&text.to_vec(), &b"main".to_vec()).unwrap();
    assert_eq!(d.version, 1);
    assert_eq!(d.imports, vec![b"common".to_vec()]);
    assert_eq!(d.enums.len(), 1);
    let e = &d.enums[0];
    assert!(e.is_bitmask);
    assert_eq!(e.entries.len(), 2);
    assert_eq!(e.entries[0].name, b"OFF".to_vec());
    assert_eq!(e.entries[0].value, 0);
    assert_eq!(e.entries[0].description, b"engine off".to_vec());
    assert_eq!(d.messages.len(), 1);
    let m = &d.messages[0];
    assert_eq!(m.id, 42);
    assert_eq!(m.name, b"STATUS".to_vec());
    assert_eq!(m.fields.len(), 3);
    assert_eq!(m.fields[0].units, b"ms".to_vec());
    assert_eq!(m.fields[0].enum_ref, None);
    assert_eq!(m.fields[1].enum_ref, Some(b"MODE".to_vec()));
    assert!(!m.fields[1].is_extension);
    assert!(m.fields[2].is_extension);
    assert!(check_file(&d).is_ok());
}

#[test]
fn parse_rejects_structural_mistakes() {
    // no header
    assert_eq!(
        parse(&b"i x\n".to_vec(), &b"p".to_vec()),
        Err(BuildError::MalformedSchema)
    );
    // unknown tag
    assert_eq!(
        parse(&b"d 1\nq zzz\n".to_vec(), &b"p".to_vec()),
        Err(BuildError::MalformedSchema)
    );
    // entry outside an enum
    assert_eq!(
        parse(&b"d 1\nv X 1\n".to_vec(), &b"p".to_vec()),
        Err(BuildError::MalformedSchema)
    );
    // field outside a message
    assert_eq!(
        parse(&b"d 1\nf uint8_t a\n".to_vec(), &b"p".to_vec()),
        Err(BuildError::MalformedSchema)
    );
    // unclosed message
    assert_eq!(
        parse(&b"d 1\nm 1 M\n".to_vec(), &b"p".to_vec()),
        Err(BuildError::MalformedSchema)
    );
    // a non-integer where an integer is required
    assert_eq!(
        parse(&b"d one\n".to_vec(), &b"p".to_vec()),
        Err(BuildError::MalformedSchema)
    );
    // unknown field type
    assert_eq!(
        parse(&b"d 1\nm 1 M\nf uint9_t a\n.\n".to_vec(), &b"p".to_vec()),
        Err(BuildError::MalformedSchema)
    );
}

#[test]
fn parse_rejects_bad_array_lengths() {
    assert_eq!(
        parse(&b"d 1\nm 1 M\nf uint8_t[0] a\n.\n".to_vec(), &b"p".to_vec()),
        Err(BuildError::InvalidArrayLength)
    );
    assert_eq!(
        parse(&b"d 1\nm 1 M\nf uint8_t[300] a\n.\n".to_vec(), &b"p".to_vec()),
        Err(BuildError::InvalidArrayLength)
    );
}

#[test]
fn type_tokens_map_to_the_catalog() {
    assert_eq!(prim_of_token(&b"uint8_t".to_vec()), Some(Prim::U8));
    assert_eq!(prim_of_token(&b"double".to_vec()), Some(Prim::F64));
    assert_eq!(prim_of_token(&b"char".to_vec()), Some(Prim::Char));
    assert_eq!(prim_of_token(&b"u8".to_vec()), None);
    assert_eq!(
        kind_of_token(&b"char[16]".to_vec()),
        Ok(FieldKind::Array(Prim::Char, 16))
    );
    assert_eq!(
        kind_of_token(&b"int16_t".to_vec()),
        Ok(FieldKind::Scalar(Prim::I16))
    );
    assert_eq!(
        kind_of_token(&b"char[16".to_vec()),
        Err(BuildError::MalformedSchema)
    );
}

#[test]
fn check_file_rejects_repeated_names_and_ids() {
    let dup_entry = parse(
        &b"d 1\ne E\nv X 1\nv X 2\n.\n".to_vec(),
        &b"p".to_vec(),
    )
    .unwrap();
    assert_eq!(check_file(&dup_entry), Err(BuildError::DuplicateEnumEntry));
    let dup_id = parse(
        &b"d 1\nm 1 A\n.\nm 1 B\n.\n".to_vec(),
        &b"p".to_vec(),
    )
    .unwrap();
    assert_eq!(check_file(&dup_id), Err(BuildError::DuplicateMessageId));
    let dup_enum = parse(&b"d 1\ne E\n.\ne E\n.\n".to_vec(), &b"p".to_vec()).unwrap();
    assert_eq!(check_file(&dup_enum), Err(BuildError::MalformedSchema));
}

#[test]
fn parsed_files_build_and_lay_out_end_to_end() {
    let common = parse(
        &b"d 1\ne MODE\nv OFF 0\n.\n".to_vec(),
        &b"common".to_vec(),
    )
    .unwrap();
    let main = parse(
        &b"d 1\ni common\nm 9 PING\nf uint32_t seq\nf uint8_t tag\nx\nf uint16_t code\n.\n"
            .to_vec(),
        &b"main".to_vec(),
    )
    .unwrap();
    assert!(check_file(&common).is_ok());
    assert!(check_file(&main).is_ok());
    let files = vec![main, common];
    let set = build(&files, &b"main".to_vec()).unwrap();
    assert_eq!(set.enums.len(), 1);
    assert_eq!(set.messages.len(), 1);
    let m = &set.messages[0];
    // the wire layout and checksum of the parsed message
    let (order, min_len, full_len) = plan_layout(&m.fields);
    assert_eq!(order, vec![0, 1, 2]);
    assert_eq!(min_len, 5);
    assert_eq!(full_len, 7);
    assert_eq!(crc_extra(m), 205);
}

#[test]
fn identifier_transform_is_fixed_and_reversible() {
    // ordinary names pass through unchanged
    assert_eq!(ident_of(&b"seq".to_vec()), b"seq".to_vec());
    assert_eq!(ident_of(&b"MODE".to_vec()), b"MODE".to_vec());
    // reserved words get the fixed escape suffix
    assert_eq!(ident_of(&b"type".to_vec()), b"type_".to_vec());
    assert_eq!(ident_of(&b"fn".to_vec()), b"fn_".to_vec());
    // a name that already ends with the suffix is escaped too, so the
    // transform never maps two names to one identifier
    assert_eq!(ident_of(&b"type_".to_vec()), b"type__".to_vec());
    assert_ne!(ident_of(&b"type".to_vec()), ident_of(&b"type_".to_vec()));
}
