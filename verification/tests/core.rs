use cyrene::bytes::{be_u32, be_u64, from_be, hex, push_part};
use cyrene::error::{Error, ErrorCode};
use cyrene::id::{AppId, DocumentId, ReplicaId, SpaceId};
use cyrene::schema::document::{
    expand_document, DeclaredData, DeclaredOption, DocumentError, DocumentInput, FieldInput,
    OptionValue,
};
use cyrene::schema::{describe, fnv1a, fnv1a_extend, stable_field_id, FieldDeclaration, SchemaError};
use cyrene::text::{decimal, decimal_wide, parse_number};

#[test]
fn identifiers_round_trip_through_text() {
    let id = DocumentId::new();
    assert_eq!(DocumentId::parse(&id.to_string()), Ok(id));
}

#[test]
fn identifier_text_is_exact() {
    assert_eq!(
        SpaceId::from_u128(0).to_string(),
        "00000000000000000000000000"
    );
    assert_eq!(
        ReplicaId::from_u128(u128::MAX).to_string(),
        "7ZZZZZZZZZZZZZZZZZZZZZZZZZ"
    );
    assert_eq!(
        AppId::from_u128(33).to_string(),
        "00000000000000000000000011"
    );
    assert_eq!(
        DocumentId::parse("00000000000000000000000011").unwrap().as_u128(),
        33
    );
    assert_ne!(SpaceId::new(), SpaceId::new());
}

#[test]
fn malformed_identifiers_are_refused() {
    assert!(SpaceId::parse("").is_err());
    assert!(SpaceId::parse("0000000000000000000000000").is_err());
    assert!(SpaceId::parse("0000000000000000000000000!").is_err());
    let reason = SpaceId::parse("abc").unwrap_err().message();
    assert_eq!(reason, "invalid length");
}

#[test]
fn errors_render_their_code_and_source() {
    let error = Error::with_source(ErrorCode::Storage, "could not commit", "disk full".to_owned());
    assert_eq!(error.code(), ErrorCode::Storage);
    assert_eq!(error.message(), "could not commit");
    assert_eq!(error.source(), Some("disk full"));
    assert!(error.to_string().contains("could not commit"));
    assert_eq!(Error::new(ErrorCode::InvalidInput, "x").source(), None);
}

#[test]
fn numbers_and_bytes_are_written_exactly() {
    assert_eq!(decimal(0), "0");
    assert_eq!(decimal(u64::MAX), "18446744073709551615");
    assert_eq!(
        decimal_wide(u128::MAX),
        "340282366920938463463374607431768211455"
    );
    assert_eq!(parse_number("18446744073709551615"), Ok(u64::MAX));
    assert!(parse_number("18446744073709551616").is_err());
    assert!(parse_number("").is_err());
    assert!(parse_number("12x").is_err());
    assert_eq!(be_u32(0x0102_0304), vec![1, 2, 3, 4]);
    assert_eq!(be_u64(258), vec![0, 0, 0, 0, 0, 0, 1, 2]);
    assert_eq!(from_be(&[1, 2]), 258);
    assert_eq!(hex(&[0, 1, 254, 255]), "0001feff");
    let mut framed = Vec::new();
    push_part(&mut framed, b"ab");
    assert_eq!(framed, vec![0, 0, 0, 0, 0, 0, 0, 2, b'a', b'b']);
}

#[test]
fn hashes_are_those_of_fnv_1a() {
    assert_eq!(fnv1a(b""), 0xcbf2_9ce4_8422_2325);
    assert_eq!(fnv1a(b"a"), 0xaf63_dc4c_8601_ec8c);
    assert_eq!(fnv1a(b"foobar"), 0x8594_4171_f739_67e8);
    assert_eq!(fnv1a_extend(fnv1a(b"foo"), b"bar"), fnv1a(b"foobar"));
}

fn field(name: &str, kind: &str, explicit: Option<u32>) -> FieldDeclaration {
    FieldDeclaration {
        name: name.to_owned(),
        id: explicit,
        rust_type: kind.to_owned(),
        merge: false,
    }
}

#[test]
fn field_identities_are_stable_and_distinct() {
    let fields = vec![
        field("title", "String", None),
        field("done", "bool", Some(7)),
    ];
    let described = describe("notes", 1, &fields).unwrap();
    assert_eq!(described.ids[0], stable_field_id("title"));
    assert_eq!(described.ids[1], 7);
    let renamed = vec![
        field("title", "String", None),
        field("finished", "bool", Some(7)),
    ];
    assert_eq!(describe("notes", 1, &renamed).unwrap().ids[1], 7);
    let repeated = vec![field("a", "u8", Some(3)), field("b", "u8", Some(3))];
    assert_eq!(
        describe("notes", 1, &repeated).err(),
        Some(SchemaError::DuplicateFieldId(1))
    );
    assert_eq!(
        describe("", 1, &Vec::new()).err(),
        Some(SchemaError::EmptyName)
    );
    let zero = vec![field("a", "u8", Some(0))];
    assert_eq!(
        describe("notes", 1, &zero).err(),
        Some(SchemaError::ZeroFieldId(0))
    );
}

fn option(key: &str, value: OptionValue) -> DeclaredOption {
    DeclaredOption {
        key: key.to_owned(),
        value,
    }
}

fn declared_field(name: &str, options: Vec<DeclaredOption>) -> FieldInput {
    FieldInput {
        name: name.to_owned(),
        rust_type: "String".to_owned(),
        options,
    }
}

fn declaration(options: Vec<DeclaredOption>, data: DeclaredData) -> DocumentInput {
    DocumentInput {
        ident: "Note".to_owned(),
        options,
        data,
    }
}

#[test]
fn a_document_expands_to_its_described_schema() {
    let plain = expand_document(&declaration(
        Vec::new(),
        DeclaredData::NamedFields(vec![
            declared_field("title", Vec::new()),
            declared_field("body", vec![option("merge", OptionValue::Missing)]),
        ]),
    ))
    .unwrap();
    assert_eq!((plain.name.as_str(), plain.version), ("Note", 1));
    assert_eq!(plain.ids, vec![stable_field_id("title"), stable_field_id("body")]);
    assert_eq!(plain.merged, vec![1]);
    let mut fingerprint = fnv1a_extend(fnv1a("Note".as_bytes()), &1_u32.to_be_bytes());
    for name in ["title", "body"] {
        fingerprint = fnv1a_extend(fingerprint, &stable_field_id(name).to_be_bytes());
        fingerprint = fnv1a_extend(fingerprint, name.as_bytes());
        fingerprint = fnv1a_extend(fingerprint, "String".as_bytes());
    }
    assert_eq!(plain.fingerprint, fingerprint);

    let named = expand_document(&declaration(
        vec![
            option("name", OptionValue::Text("app.note".to_owned())),
            option("version", OptionValue::Number(3)),
        ],
        DeclaredData::NamedFields(vec![declared_field(
            "title",
            vec![option("id", OptionValue::Number(42))],
        )]),
    ))
    .unwrap();
    assert_eq!((named.name.as_str(), named.version), ("app.note", 3));
    assert_eq!(named.ids, vec![42]);
    assert!(named.merged.is_empty());
}

#[test]
fn malformed_document_declarations_are_refused() {
    let refusal = |input: DocumentInput| expand_document(&input).err().unwrap();
    let fields = || DeclaredData::NamedFields(vec![declared_field("title", Vec::new())]);
    let with_options = |options: Vec<DeclaredOption>| {
        declaration(
            Vec::new(),
            DeclaredData::NamedFields(vec![
                declared_field("title", Vec::new()),
                declared_field("body", options),
            ]),
        )
    };

    let error = refusal(declaration(
        vec![option("title", OptionValue::Missing)],
        fields(),
    ));
    assert!(matches!(error, DocumentError::UnknownContainerOption));
    assert_eq!(error.message(), "expected `name` or `version`");
    let error = refusal(declaration(
        vec![
            option("version", OptionValue::Number(2)),
            option("name", OptionValue::Number(7)),
        ],
        fields(),
    ));
    assert!(matches!(error, DocumentError::ContainerValue(1)));
    let error = refusal(declaration(
        vec![option("name", OptionValue::Text(String::new()))],
        DeclaredData::NotAStruct,
    ));
    assert!(matches!(error, DocumentError::Schema(SchemaError::EmptyName)));
    assert_eq!(error.message(), "schema name cannot be empty");
    let error = refusal(declaration(Vec::new(), DeclaredData::NotAStruct));
    assert!(matches!(error, DocumentError::NotAStruct));
    assert_eq!(error.message(), "Document currently supports structs");
    let error = refusal(declaration(Vec::new(), DeclaredData::OtherStruct));
    assert!(matches!(error, DocumentError::UnnamedFields));
    assert_eq!(
        error.message(),
        "Document currently supports structs with named fields"
    );
    let error = refusal(with_options(vec![option("name", OptionValue::Missing)]));
    assert!(matches!(error, DocumentError::UnknownFieldOption(1)));
    assert_eq!(error.message(), "expected `id` or `merge`");
    let error = refusal(with_options(vec![option("id", OptionValue::Other)]));
    assert!(matches!(error, DocumentError::FieldValue(1)));
    let error = refusal(with_options(vec![option("id", OptionValue::Number(0))]));
    assert!(matches!(
        error,
        DocumentError::Schema(SchemaError::ZeroFieldId(1))
    ));
    assert_eq!(error.message(), "field ID must be non-zero");
    let taken = OptionValue::Number(stable_field_id("title"));
    let error = refusal(with_options(vec![option("id", taken)]));
    assert!(matches!(
        error,
        DocumentError::Schema(SchemaError::DuplicateFieldId(1))
    ));
    assert_eq!(error.message(), "duplicate Cyrene field ID");
}
