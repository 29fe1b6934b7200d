use datatype_codec::codec::{decode, encode, size, DecodeError};
use datatype_codec::layout::{ElemKind, FieldKind, LayoutAttr, RecordLayout};
use datatype_codec::structs::DatatypeEndianness;
use datatype_codec::types::{FloatType, IntegerType};
use datatype_codec::value::Value;

fn attr(name: &str, kind: FieldKind, endianness: DatatypeEndianness, reserved: bool) -> LayoutAttr {
    LayoutAttr { name: name.to_owned(), kind, endianness, reserved }
}

fn plain(name: &str, kind: FieldKind) -> LayoutAttr {
    attr(name, kind, DatatypeEndianness::BigEndian, false)
}

#[test]
fn endianness_selection() {
    // a 16-bit integer holding 0x0102: big-endian writes [0x01, 0x02],
    // little-endian writes [0x02, 0x01]
    let big = RecordLayout {
        attrs: vec![attr(
            "x",
            FieldKind::Integer(IntegerType::U16),
            DatatypeEndianness::BigEndian,
            false,
        )],
    };
    let little = RecordLayout {
        attrs: vec![attr(
            "x",
            FieldKind::Integer(IntegerType::U16),
            DatatypeEndianness::LittleEndian,
            false,
        )],
    };
    let v = Value::Record(vec![Value::Integer(0x0102)]);
    assert_eq!(encode(&big, &v), vec![0x01, 0x02]);
    assert_eq!(encode(&little, &v), vec![0x02, 0x01]);
}

#[test]
fn text_termination() {
    // a text field holding "hi" encodes as its bytes plus one zero terminator
    let l = RecordLayout { attrs: vec![plain("message", FieldKind::Text)] };
    let v = Value::Record(vec![Value::Text(b"hi".to_vec())]);
    assert_eq!(encode(&l, &v), vec![0x68, 0x69, 0x00]);
    let back = decode(&l, &vec![0x68, 0x69, 0x00]).unwrap();
    assert_eq!(back, v);
}

#[test]
fn reserved_field_zero_bytes() {
    // a reserved 16-bit field serializes as two zero bytes and contributes
    // no field to the decoded value
    let l = RecordLayout {
        attrs: vec![
            plain("a", FieldKind::Integer(IntegerType::U8)),
            attr(
                "_reserved",
                FieldKind::Integer(IntegerType::U16),
                DatatypeEndianness::BigEndian,
                true,
            ),
            plain("b", FieldKind::Integer(IntegerType::U8)),
        ],
    };
    let v = Value::Record(vec![Value::Integer(0xAA), Value::Integer(0xBB)]);
    let bytes = encode(&l, &v);
    assert_eq!(bytes, vec![0xAA, 0x00, 0x00, 0xBB]);
    let back = decode(&l, &bytes).unwrap();
    match &back {
        Value::Record(fields) => assert_eq!(fields.len(), 2),
        _ => panic!("expected a record"),
    }
    assert_eq!(back, v);
}

#[test]
fn collection_framing() {
    // three 32-bit integers with an 8-bit length kind: one length byte 0x03,
    // then 12 value bytes
    let l = RecordLayout {
        attrs: vec![
            plain("xs", FieldKind::Length(IntegerType::U8)),
            plain(
                "xs",
                FieldKind::Collection(ElemKind::Integer(IntegerType::U32), None),
            ),
        ],
    };
    let v = Value::Record(vec![Value::List(vec![
        Value::Integer(1),
        Value::Integer(2),
        Value::Integer(0x01020304),
    ])]);
    let bytes = encode(&l, &v);
    assert_eq!(
        bytes,
        vec![0x03, 0, 0, 0, 1, 0, 0, 0, 2, 0x01, 0x02, 0x03, 0x04]
    );
    assert_eq!(bytes.len(), 13);
    let back = decode(&l, &bytes).unwrap();
    assert_eq!(back, v);
}

#[test]
fn size_agrees_with_encoding() {
    let l = RecordLayout {
        attrs: vec![
            plain("n", FieldKind::Integer(IntegerType::U64)),
            plain("t", FieldKind::Text),
            plain("xs", FieldKind::Length(IntegerType::U16)),
            plain(
                "xs",
                FieldKind::Collection(ElemKind::Integer(IntegerType::U16), None),
            ),
        ],
    };
    let v = Value::Record(vec![
        Value::Integer(7),
        Value::Text(b"abc".to_vec()),
        Value::List(vec![Value::Integer(10), Value::Integer(20)]),
    ]);
    let bytes = encode(&l, &v);
    assert_eq!(size(&l, &v), bytes.len());
    assert_eq!(size(&l, &v), 8 + 4 + 2 + 4);
}

#[test]
fn nested_record_round_trip() {
    let time = RecordLayout {
        attrs: vec![
            plain("seconds", FieldKind::Integer(IntegerType::U8)),
            plain("minutes", FieldKind::Integer(IntegerType::U8)),
            plain("hours", FieldKind::Integer(IntegerType::U8)),
        ],
    };
    let l = RecordLayout {
        attrs: vec![
            plain("time", FieldKind::Record(time)),
            plain("message", FieldKind::Text),
        ],
    };
    let v = Value::Record(vec![
        Value::Record(vec![
            Value::Integer(5),
            Value::Integer(30),
            Value::Integer(12),
        ]),
        Value::Text(b"ok".to_vec()),
    ]);
    let bytes = encode(&l, &v);
    assert_eq!(bytes, vec![5, 30, 12, 0x6F, 0x6B, 0x00]);
    assert_eq!(decode(&l, &bytes).unwrap(), v);
    assert_eq!(size(&l, &v), 6);
}

#[test]
fn round_trip_with_length_ahead() {
    // the length attribute may sit anywhere before its collection
    let l = RecordLayout {
        attrs: vec![
            plain("seconds", FieldKind::Integer(IntegerType::U8)),
            plain("messages", FieldKind::Length(IntegerType::U16)),
            plain("minutes", FieldKind::Integer(IntegerType::U8)),
            plain("messages", FieldKind::Collection(ElemKind::Text, None)),
        ],
    };
    let v = Value::Record(vec![
        Value::Integer(1),
        Value::Integer(2),
        Value::List(vec![Value::Text(b"a".to_vec()), Value::Text(b"bc".to_vec())]),
    ]);
    let bytes = encode(&l, &v);
    assert_eq!(bytes, vec![1, 0, 2, 2, b'a', 0, b'b', b'c', 0]);
    assert_eq!(decode(&l, &bytes).unwrap(), v);
}

#[test]
fn fixed_arity_round_trip() {
    // a fixed-size array still carries its length prefix, and decode uses
    // the arity as the element count
    let l = RecordLayout {
        attrs: vec![
            plain("xs", FieldKind::Length(IntegerType::U16)),
            plain(
                "xs",
                FieldKind::Collection(ElemKind::Integer(IntegerType::U8), Some(3)),
            ),
        ],
    };
    let v = Value::Record(vec![Value::List(vec![
        Value::Integer(9),
        Value::Integer(8),
        Value::Integer(7),
    ])]);
    let bytes = encode(&l, &v);
    assert_eq!(bytes, vec![0, 3, 9, 8, 7]);
    assert_eq!(decode(&l, &bytes).unwrap(), v);
}

#[test]
fn float_bit_pattern_round_trip() {
    let l = RecordLayout {
        attrs: vec![
            plain("x", FieldKind::Float(FloatType::F32)),
            plain("y", FieldKind::Float(FloatType::F64)),
        ],
    };
    let x: f32 = 1.5;
    let y: f64 = -2.25;
    let v = Value::Record(vec![
        Value::Float(x.to_bits() as u64),
        Value::Float(y.to_bits()),
    ]);
    let bytes = encode(&l, &v);
    assert_eq!(bytes.len(), 12);
    assert_eq!(&bytes[0..4], &x.to_bits().to_be_bytes());
    assert_eq!(&bytes[4..12], &y.to_bits().to_be_bytes());
    let back = decode(&l, &bytes).unwrap();
    match &back {
        Value::Record(fields) => {
            match (&fields[0], &fields[1]) {
                (Value::Float(bx), Value::Float(by)) => {
                    assert_eq!(f32::from_bits(*bx as u32), x);
                    assert_eq!(f64::from_bits(*by), y);
                }
                _ => panic!("expected float fields"),
            }
        }
        _ => panic!("expected a record"),
    }
}

#[test]
fn decode_eof() {
    let l = RecordLayout {
        attrs: vec![plain("n", FieldKind::Integer(IntegerType::U32))],
    };
    assert_eq!(decode(&l, &vec![1, 2, 3]), Err(DecodeError::UnexpectedEof));
    // unterminated text is also an early end of stream
    let lt = RecordLayout { attrs: vec![plain("t", FieldKind::Text)] };
    assert_eq!(decode(&lt, &vec![b'h', b'i']), Err(DecodeError::UnexpectedEof));
}

#[test]
fn length_truncates_silently() {
    // 256 elements with an 8-bit length kind: the prefix wraps to zero and
    // the elements are still written (the documented truncation gap)
    let mut items = Vec::new();
    for _ in 0..256 {
        items.push(Value::Integer(0xFF));
    }
    let l = RecordLayout {
        attrs: vec![
            plain("xs", FieldKind::Length(IntegerType::U8)),
            plain(
                "xs",
                FieldKind::Collection(ElemKind::Integer(IntegerType::U8), None),
            ),
        ],
    };
    let v = Value::Record(vec![Value::List(items)]);
    let bytes = encode(&l, &v);
    assert_eq!(bytes.len(), 257);
    assert_eq!(bytes[0], 0x00);
}

#[test]
fn wide_integers_round_trip() {
    let l = RecordLayout {
        attrs: vec![
            attr(
                "a",
                FieldKind::Integer(IntegerType::U128),
                DatatypeEndianness::LittleEndian,
                false,
            ),
            plain("b", FieldKind::Integer(IntegerType::I64)),
        ],
    };
    // a signed field carries its two's-complement bit pattern
    let b = (-2i64) as u64 as u128;
    let v = Value::Record(vec![Value::Integer(u128::MAX - 5), Value::Integer(b)]);
    let bytes = encode(&l, &v);
    assert_eq!(bytes.len(), 24);
    assert_eq!(decode(&l, &bytes).unwrap(), v);
}

#[test]
fn empty_record_and_empty_values() {
    let empty = RecordLayout { attrs: vec![] };
    let v = Value::Record(vec![]);
    assert_eq!(encode(&empty, &v), Vec::<u8>::new());
    assert_eq!(decode(&empty, &vec![]).unwrap(), v);
    assert_eq!(size(&empty, &v), 0);

    let l = RecordLayout {
        attrs: vec![
            plain("t", FieldKind::Text),
            plain("xs", FieldKind::Length(IntegerType::U8)),
            plain(
                "xs",
                FieldKind::Collection(ElemKind::Integer(IntegerType::U16), None),
            ),
        ],
    };
    let v = Value::Record(vec![Value::Text(vec![]), Value::List(vec![])]);
    let bytes = encode(&l, &v);
    assert_eq!(bytes, vec![0x00, 0x00]);
    assert_eq!(decode(&l, &bytes).unwrap(), v);
}

#[test]
fn trailing_bytes_are_ignored() {
    let l = RecordLayout {
        attrs: vec![plain("n", FieldKind::Integer(IntegerType::U8))],
    };
    let back = decode(&l, &vec![7, 99, 98, 97]).unwrap();
    assert_eq!(back, Value::Record(vec![Value::Integer(7)]));
}

#[test]
fn collection_of_records_round_trip() {
    let point = RecordLayout {
        attrs: vec![
            plain("x", FieldKind::Integer(IntegerType::U8)),
            plain("y", FieldKind::Integer(IntegerType::U8)),
        ],
    };
    let l = RecordLayout {
        attrs: vec![
            plain("ps", FieldKind::Length(IntegerType::U8)),
            plain("ps", FieldKind::Collection(ElemKind::Record(point), None)),
        ],
    };
    let v = Value::Record(vec![Value::List(vec![
        Value::Record(vec![Value::Integer(1), Value::Integer(2)]),
        Value::Record(vec![Value::Integer(3), Value::Integer(4)]),
    ])]);
    let bytes = encode(&l, &v);
    assert_eq!(bytes, vec![2, 1, 2, 3, 4]);
    assert_eq!(decode(&l, &bytes).unwrap(), v);
    assert_eq!(size(&l, &v), 5);
}

#[test]
fn collection_elements_follow_field_endianness() {
    let l = RecordLayout {
        attrs: vec![
            attr(
                "xs",
                FieldKind::Length(IntegerType::U8),
                DatatypeEndianness::LittleEndian,
                false,
            ),
            attr(
                "xs",
                FieldKind::Collection(ElemKind::Integer(IntegerType::U16), None),
                DatatypeEndianness::LittleEndian,
                false,
            ),
        ],
    };
    let v = Value::Record(vec![Value::List(vec![Value::Integer(0x0102)])]);
    assert_eq!(encode(&l, &v), vec![0x01, 0x02, 0x01]);
    assert_eq!(decode(&l, &encode(&l, &v)).unwrap(), v);
}

#[test]
fn reserved_float_zero_bits() {
    let l = RecordLayout {
        attrs: vec![attr(
            "_pad",
            FieldKind::Float(FloatType::F32),
            DatatypeEndianness::BigEndian,
            true,
        )],
    };
    let v = Value::Record(vec![]);
    assert_eq!(encode(&l, &v), vec![0, 0, 0, 0]);
    assert_eq!(decode(&l, &vec![1, 2, 3, 4]).unwrap(), Value::Record(vec![]));
}
