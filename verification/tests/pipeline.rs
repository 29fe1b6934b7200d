use datatype_codec::classify::{DataField, DataFieldArg};
use datatype_codec::data_enum::{DataEnumArg, DataEnumArgs, EnumSchema};
use datatype_codec::codec::DecodeError;
use datatype_codec::parse::{
    get_collection_embedded_type, is_collection_type, ClassifyError, DeclaredType,
};
use datatype_codec::structs::{DatatypeAttribute, DatatypeAttributeType, DatatypeEndianness};
use datatype_codec::types::{FloatType, IntegerType, TypeError};
use datatype_codec::validate::{validate, ValidationError};
use datatype_codec::codec::{decode, encode};
use datatype_codec::link::{link, LinkError, TypeBinding, TypeEnv};
use datatype_codec::value::Value;
use datatype_codec::{datatype, data_enum, CompileError};

fn field(name: &str, ty: DeclaredType, attrs: Vec<DataFieldArg>) -> DataField {
    DataField { name: name.to_owned(), attrs, ty }
}

fn named(t: &str) -> DeclaredType {
    DeclaredType::Named(t.to_owned())
}

fn positions(attrs: &[DatatypeAttribute]) -> Vec<usize> {
    attrs.iter().map(|a| a.position.unwrap()).collect()
}

fn names(attrs: &[DatatypeAttribute]) -> Vec<&str> {
    attrs.iter().map(|a| a.name.as_str()).collect()
}

#[test]
fn catalog_lookup() {
    assert_eq!(IntegerType::from_token(&"u8".to_owned()), Ok(IntegerType::U8));
    assert_eq!(IntegerType::from_token(&"i128".to_owned()), Ok(IntegerType::I128));
    assert_eq!(
        IntegerType::from_token(&"u24".to_owned()),
        Err(TypeError::UnknownPrimitiveType)
    );
    assert_eq!(FloatType::from_token(&"f64".to_owned()), Ok(FloatType::F64));
    assert_eq!(
        FloatType::from_token(&"f16".to_owned()),
        Err(TypeError::UnknownPrimitiveType)
    );
    assert_eq!(IntegerType::U32.size(), 4);
    assert_eq!(IntegerType::U128.size(), 16);
    assert_eq!(FloatType::F32.size(), 4);
    assert_eq!(IntegerType::I16.token(), "i16");
    assert_eq!(IntegerType::default(), IntegerType::U16);
    assert_eq!(FloatType::default(), FloatType::F32);
    assert_eq!(DatatypeEndianness::default(), DatatypeEndianness::BigEndian);
    assert_eq!(
        DatatypeEndianness::try_from_token(&"LittleEndian".to_owned()),
        Some(DatatypeEndianness::LittleEndian)
    );
    assert_eq!(DatatypeEndianness::try_from_token(&"middle".to_owned()), None);
}

#[test]
fn collection_type_shapes() {
    let vec_u32 = DeclaredType::Generic("Vec".to_owned(), "u32".to_owned());
    assert_eq!(is_collection_type(&vec_u32), Some((true, None)));
    assert_eq!(
        get_collection_embedded_type(&vec_u32),
        Ok(("u32".to_owned(), None))
    );
    let arr = DeclaredType::Array("u8".to_owned(), 4);
    assert_eq!(is_collection_type(&arr), Some((true, Some(4))));
    assert_eq!(get_collection_embedded_type(&arr), Ok(("u8".to_owned(), Some(4))));
    assert_eq!(is_collection_type(&named("u32")), None);
    assert_eq!(is_collection_type(&DeclaredType::Group), None);
    assert_eq!(
        get_collection_embedded_type(&DeclaredType::Group),
        Err(ClassifyError::UnsupportedGroupType)
    );
}

#[test]
fn classify_plain_fields() {
    let f = field("seconds", named("u8"), vec![]);
    let attrs = f.to_attributes().unwrap();
    assert_eq!(attrs.len(), 1);
    assert_eq!(attrs[0].ty, DatatypeAttributeType::PrimitiveInteger(IntegerType::U8));
    assert_eq!(attrs[0].endianness, DatatypeEndianness::BigEndian);
    assert_eq!(attrs[0].position, None);
    assert!(!attrs[0].reserved);

    let t = field("message", named("String"), vec![]);
    assert_eq!(t.to_attributes().unwrap()[0].ty, DatatypeAttributeType::Text);

    let fl = field("ratio", named("f64"), vec![]);
    assert_eq!(
        fl.to_attributes().unwrap()[0].ty,
        DatatypeAttributeType::PrimitiveFloat(FloatType::F64)
    );

    let nested = field("time", named("Time"), vec![]);
    assert_eq!(
        nested.to_attributes().unwrap()[0].ty,
        DatatypeAttributeType::Struct("Time".to_owned())
    );

    let grouped = field("pair", DeclaredType::Group, vec![]);
    assert_eq!(grouped.to_attributes(), Err(ClassifyError::UnsupportedGroupType));
}

#[test]
fn classify_collection_expands_to_pair() {
    let f = field(
        "messages",
        DeclaredType::Generic("Vec".to_owned(), "String".to_owned()),
        vec![
            DataFieldArg::LengthType(IntegerType::U8),
            DataFieldArg::LengthPosition(1),
            DataFieldArg::Endianness(DatatypeEndianness::LittleEndian),
        ],
    );
    let attrs = f.to_attributes().unwrap();
    assert_eq!(attrs.len(), 2);
    assert_eq!(attrs[0].ty, DatatypeAttributeType::CollectionLength(IntegerType::U8));
    assert_eq!(attrs[0].position, Some(1));
    assert_eq!(attrs[0].endianness, DatatypeEndianness::LittleEndian);
    assert_eq!(
        attrs[1].ty,
        DatatypeAttributeType::Collection("String".to_owned(), None)
    );
    assert_eq!(attrs[1].position, None);
    assert_eq!(attrs[0].name, attrs[1].name);
}

#[test]
fn explicit_position_reorders() {
    // with position = 1 on seconds, the resolved order is minutes, seconds,
    // hours
    let fields = vec![
        field("seconds", named("u8"), vec![DataFieldArg::Position(1)]),
        field("minutes", named("u8"), vec![]),
        field("hours", named("u8"), vec![]),
    ];
    let attrs = datatype(&fields).unwrap();
    assert_eq!(names(&attrs), vec!["minutes", "seconds", "hours"]);
    assert_eq!(positions(&attrs), vec![0, 1, 2]);
    assert_eq!(attrs[1].position, Some(1));
}

#[test]
fn length_position_reorders() {
    // seconds, length of messages, minutes, hours, messages
    let fields = vec![
        field("seconds", named("u8"), vec![]),
        field("minutes", named("u8"), vec![]),
        field("hours", named("u8"), vec![]),
        field(
            "messages",
            DeclaredType::Generic("Vec".to_owned(), "String".to_owned()),
            vec![DataFieldArg::LengthPosition(1)],
        ),
    ];
    let attrs = datatype(&fields).unwrap();
    assert_eq!(
        names(&attrs),
        vec!["seconds", "messages", "minutes", "hours", "messages"]
    );
    assert_eq!(positions(&attrs), vec![0, 1, 2, 3, 4]);
    assert_eq!(attrs[1].ty, DatatypeAttributeType::CollectionLength(IntegerType::U16));
}

#[test]
fn position_out_of_range_rejected() {
    // two attributes, position 3 > 2: rejected naming the field, the maximum
    // allowed value, and the attempted value
    let fields = vec![
        field("a", named("u8"), vec![DataFieldArg::Position(3)]),
        field("b", named("u8"), vec![]),
    ];
    match datatype(&fields) {
        Err(CompileError::Validation(errs)) => {
            assert_eq!(
                errs,
                vec![ValidationError::PositionOutOfRange {
                    name: "a".to_owned(),
                    max: 2,
                    attempted: 3,
                }]
            );
        }
        other => panic!("expected a validation failure, got {:?}", other),
    }
}

#[test]
fn duplicate_position_rejected() {
    // two attributes both claiming position 2: rejected naming the position
    // and both claimants
    let fields = vec![
        field("a", named("u8"), vec![DataFieldArg::Position(2)]),
        field("b", named("u8"), vec![DataFieldArg::Position(2)]),
        field("c", named("u8"), vec![]),
    ];
    match datatype(&fields) {
        Err(CompileError::Validation(errs)) => {
            assert_eq!(
                errs,
                vec![ValidationError::DuplicatePosition {
                    position: 2,
                    names: vec!["a".to_owned(), "b".to_owned()],
                }]
            );
        }
        other => panic!("expected a validation failure, got {:?}", other),
    }
}

#[test]
fn validate_reports_all_violations() {
    let fields = vec![
        field("a", named("u8"), vec![DataFieldArg::Position(9)]),
        field("b", named("u8"), vec![DataFieldArg::Position(1)]),
        field("c", named("u8"), vec![DataFieldArg::Position(1)]),
    ];
    let mut attrs = Vec::new();
    for f in &fields {
        attrs.extend(f.to_attributes().unwrap());
    }
    let errs = validate(&attrs);
    assert_eq!(errs.len(), 2);
    assert!(matches!(errs[0], ValidationError::PositionOutOfRange { .. }));
    assert!(matches!(errs[1], ValidationError::DuplicatePosition { .. }));
}

#[test]
fn declaration_order_is_default() {
    let fields = vec![
        field("a", named("u16"), vec![]),
        field("b", named("String"), vec![]),
        field("c", named("f32"), vec![]),
    ];
    let attrs = datatype(&fields).unwrap();
    assert_eq!(names(&attrs), vec!["a", "b", "c"]);
    assert_eq!(positions(&attrs), vec![0, 1, 2]);
}

#[test]
fn unpositioned_fills_gaps_first_fit() {
    // an unpositioned attribute can land before an explicit one that appears
    // earlier in the declaration, since a lower slot is free
    let fields = vec![
        field("a", named("u8"), vec![DataFieldArg::Position(2)]),
        field("b", named("u8"), vec![]),
        field("c", named("u8"), vec![]),
    ];
    let attrs = datatype(&fields).unwrap();
    assert_eq!(names(&attrs), vec!["b", "c", "a"]);
    assert_eq!(positions(&attrs), vec![0, 1, 2]);
}

#[test]
fn reserved_flag_carries_over() {
    let fields = vec![
        field("a", named("u8"), vec![]),
        field("_reserved", named("u16"), vec![DataFieldArg::Reserved]),
    ];
    let attrs = datatype(&fields).unwrap();
    assert!(!attrs[0].reserved);
    assert!(attrs[1].reserved);
    assert_eq!(attrs[1].ty, DatatypeAttributeType::PrimitiveInteger(IntegerType::U16));
}

#[test]
fn enum_defaults_and_round_trip() {
    // defaults: 8-bit backing kind, big-endian
    let schema = data_enum(&DataEnumArgs { args: vec![] }, vec![0, 1, 2]);
    assert_eq!(schema.ty, IntegerType::U8);
    assert_eq!(schema.endianness, DatatypeEndianness::BigEndian);
    assert_eq!(schema.size(), 1);
    let bytes = schema.encode(2);
    assert_eq!(bytes, vec![2]);
    assert_eq!(schema.decode(&bytes), Ok(2));
}

#[test]
fn enum_directives_and_errors() {
    let schema = EnumSchema::produce(
        &DataEnumArgs {
            args: vec![
                DataEnumArg::Type(IntegerType::U16),
                DataEnumArg::Endianness(DatatypeEndianness::LittleEndian),
            ],
        },
        vec![1, 2, 300],
    );
    assert_eq!(schema.ty, IntegerType::U16);
    assert_eq!(schema.size(), 2);
    let bytes = schema.encode(300);
    assert_eq!(bytes, vec![0x2C, 0x01]);
    assert_eq!(schema.decode(&bytes), Ok(300));
    // a byte pattern matching no case is an invalid discriminant
    assert_eq!(
        schema.decode(&vec![0x05, 0x00]),
        Err(DecodeError::InvalidDiscriminant)
    );
    // too few bytes end the stream early
    assert_eq!(schema.decode(&vec![0x01]), Err(DecodeError::UnexpectedEof));
}

#[test]
fn end_to_end_compile_link_and_round_trip() {
    // the nested record type, compiled and linked first
    let time_fields = vec![
        field("seconds", named("u8"), vec![]),
        field("minutes", named("u8"), vec![]),
        field("hours", named("u8"), vec![]),
    ];
    let time_attrs = datatype(&time_fields).unwrap();
    let empty_env = TypeEnv { entries: vec![] };
    let time_layout = link(&time_attrs, &empty_env).unwrap();

    // the outer record refers to it by name
    let fields = vec![
        field("time", named("Time"), vec![]),
        field(
            "messages",
            DeclaredType::Generic("Vec".to_owned(), "String".to_owned()),
            vec![DataFieldArg::LengthType(IntegerType::U8)],
        ),
    ];
    let attrs = datatype(&fields).unwrap();
    let env = TypeEnv {
        entries: vec![TypeBinding { name: "Time".to_owned(), layout: time_layout }],
    };
    let layout = link(&attrs, &env).unwrap();

    let v = Value::Record(vec![
        Value::Record(vec![
            Value::Integer(1),
            Value::Integer(2),
            Value::Integer(3),
        ]),
        Value::List(vec![Value::Text(b"hi".to_vec()), Value::Text(b"yo".to_vec())]),
    ]);
    let bytes = encode(&layout, &v);
    assert_eq!(
        bytes,
        vec![1, 2, 3, 0x02, b'h', b'i', 0, b'y', b'o', 0]
    );
    assert_eq!(decode(&layout, &bytes).unwrap(), v);
}

#[test]
fn link_rejects_unbound_type_names() {
    let fields = vec![field("time", named("Time"), vec![])];
    let attrs = datatype(&fields).unwrap();
    let env = TypeEnv { entries: vec![] };
    assert_eq!(
        link(&attrs, &env),
        Err(LinkError::UnresolvedType("Time".to_owned()))
    );
}
