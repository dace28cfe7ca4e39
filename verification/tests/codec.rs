use custom_types::builder::map_insert;
use custom_types::decode::decode;
use custom_types::encode::encode;
use custom_types::ty::{FieldDesc, TypeDesc, VariantDesc};
use custom_types::value::{DecodeError, I256Parts, U256Parts, Value};

fn roundtrip(v: Value, t: &TypeDesc) -> Value {
    let bytes = encode(&v);
    let back = decode(&bytes, t).expect("decode of a fresh encoding");
    assert_eq!(back, v);
    back
}

#[test]
fn bool_true_roundtrip() {
    let bytes = encode(&Value::Bool(true));
    assert_eq!(bytes, vec![1u8]);
    assert_eq!(decode(&bytes, &TypeDesc::Bool), Ok(Value::Bool(true)));
}

#[test]
fn bool_false_roundtrip() {
    roundtrip(Value::Bool(false), &TypeDesc::Bool);
}

#[test]
fn bool_bad_byte_is_shape_mismatch() {
    assert_eq!(decode(&vec![2u8], &TypeDesc::Bool), Err(DecodeError::ShapeMismatch));
}

#[test]
fn void_roundtrip() {
    let bytes = encode(&Value::Void);
    assert_eq!(bytes.len(), 0);
    assert_eq!(decode(&bytes, &TypeDesc::Void), Ok(Value::Void));
}

#[test]
fn u32_roundtrip_big_endian() {
    let bytes = encode(&Value::U32(0x0102_0304));
    assert_eq!(bytes, vec![1u8, 2, 3, 4]);
    roundtrip(Value::U32(0x0102_0304), &TypeDesc::U32);
    roundtrip(Value::U32(0), &TypeDesc::U32);
    roundtrip(Value::U32(u32::MAX), &TypeDesc::U32);
}

#[test]
fn signed_integers_roundtrip() {
    roundtrip(Value::I32(-123), &TypeDesc::I32);
    roundtrip(Value::I32(i32::MIN), &TypeDesc::I32);
    roundtrip(Value::I64(i64::MIN), &TypeDesc::I64);
    roundtrip(Value::I64(-1), &TypeDesc::I64);
    roundtrip(Value::I128(-1), &TypeDesc::I128);
    roundtrip(Value::I128(i128::MIN), &TypeDesc::I128);
    assert_eq!(encode(&Value::I32(-1)), vec![0xffu8, 0xff, 0xff, 0xff]);
}

#[test]
fn unsigned_integers_roundtrip() {
    roundtrip(Value::U64(u64::MAX), &TypeDesc::U64);
    roundtrip(Value::U128(u128::MAX), &TypeDesc::U128);
}

#[test]
fn u256_roundtrip() {
    let v = Value::U256(U256Parts { hi: 1, lo: 2 });
    let bytes = encode(&v);
    assert_eq!(bytes.len(), 32);
    assert_eq!(bytes[15], 1);
    assert_eq!(bytes[31], 2);
    roundtrip(v, &TypeDesc::U256);
}

#[test]
fn i256_roundtrip() {
    let v = Value::I256(I256Parts { hi: -1, lo: 5 });
    let bytes = encode(&v);
    assert_eq!(bytes.len(), 32);
    assert_eq!(bytes[0], 0xff);
    roundtrip(v, &TypeDesc::I256);
}

#[test]
fn i256_truncated_is_unexpected_end() {
    let v = Value::I256(I256Parts { hi: -1, lo: 5 });
    let mut bytes = encode(&v);
    bytes.pop();
    assert_eq!(decode(&bytes, &TypeDesc::I256), Err(DecodeError::UnexpectedEnd));
}

#[test]
fn symbol_roundtrip() {
    roundtrip(Value::Symbol(b"Hello_99".to_vec()), &TypeDesc::Symbol);
    roundtrip(Value::Symbol(Vec::new()), &TypeDesc::Symbol);
}

#[test]
fn symbol_bad_alphabet_is_invalid_symbol() {
    let bytes = vec![0u8, 0, 0, 1, b'!'];
    assert_eq!(decode(&bytes, &TypeDesc::Symbol), Err(DecodeError::InvalidSymbol));
}

#[test]
fn symbol_too_long_is_invalid_symbol() {
    let mut bytes = vec![0u8, 0, 0, 33];
    bytes.extend(std::iter::repeat(b'a').take(33));
    assert_eq!(decode(&bytes, &TypeDesc::Symbol), Err(DecodeError::InvalidSymbol));
}

#[test]
fn text_and_bytes_roundtrip() {
    roundtrip(Value::Text(b"hello world".to_vec()), &TypeDesc::Text);
    roundtrip(Value::Bytes(vec![0, 1, 2, 255]), &TypeDesc::Bytes);
    roundtrip(Value::Bytes(Vec::new()), &TypeDesc::Bytes);
}

#[test]
fn oversized_length_is_length_limit_exceeded() {
    // a claimed length of 65536 is over the decoder's bound
    let bytes = vec![0u8, 1, 0, 0];
    assert_eq!(decode(&bytes, &TypeDesc::Bytes), Err(DecodeError::LengthLimitExceeded));
}

#[test]
fn fixed_bytes_nine_roundtrip_and_mismatch() {
    let v = Value::FixedBytes(vec![1, 2, 3, 4, 5, 6, 7, 8, 9]);
    let bytes = encode(&v);
    assert_eq!(decode(&bytes, &TypeDesc::FixedBytes(9)), Ok(v));
    assert_eq!(
        decode(&bytes, &TypeDesc::FixedBytes(8)),
        Err(DecodeError::ShapeMismatch)
    );
}

#[test]
fn address_roundtrip() {
    let v = Value::Address(vec![7u8; 32]);
    let bytes = encode(&v);
    assert_eq!(bytes.len(), 32);
    roundtrip(v, &TypeDesc::Address);
}

#[test]
fn optional_absent_is_one_flag_byte() {
    let t = TypeDesc::Optional(Box::new(TypeDesc::U32));
    let bytes = encode(&Value::Optional(vec![]));
    assert_eq!(bytes, vec![0u8]);
    assert_eq!(decode(&bytes, &t), Ok(Value::Optional(vec![])));
}

#[test]
fn optional_present_roundtrip() {
    let t = TypeDesc::Optional(Box::new(TypeDesc::U32));
    let v = Value::Optional(vec![Value::U32(42)]);
    let bytes = encode(&v);
    assert_eq!(bytes, vec![1u8, 0, 0, 0, 42]);
    assert_eq!(decode(&bytes, &t), Ok(v));
}

#[test]
fn optional_bad_flag_is_shape_mismatch() {
    let t = TypeDesc::Optional(Box::new(TypeDesc::U32));
    assert_eq!(decode(&vec![3u8], &t), Err(DecodeError::ShapeMismatch));
}

#[test]
fn vector_roundtrip() {
    let t = TypeDesc::Vector(Box::new(TypeDesc::U32));
    let v = Value::Vector(vec![Value::U32(1), Value::U32(2), Value::U32(3)]);
    let bytes = encode(&v);
    assert_eq!(bytes.len(), 4 + 12);
    assert_eq!(decode(&bytes, &t), Ok(v));
    roundtrip(Value::Vector(vec![]), &t);
}

#[test]
fn tuple_roundtrip() {
    let t = TypeDesc::Tuple(vec![TypeDesc::Symbol, TypeDesc::U32]);
    let v = Value::Tuple(vec![Value::Symbol(b"ab".to_vec()), Value::U32(9)]);
    roundtrip(v, &t);
}

#[test]
fn map_encodes_in_ascending_key_order() {
    let t = TypeDesc::MapOf(Box::new(TypeDesc::U32), Box::new(TypeDesc::Bool));
    // entries stored in canonical order: key 1 before key 3
    let v = Value::MapOf(vec![
        (Value::U32(1), Value::Bool(false)),
        (Value::U32(3), Value::Bool(true)),
    ]);
    let bytes = encode(&v);
    assert_eq!(bytes, vec![0u8, 0, 0, 2, 0, 0, 0, 1, 0, 0, 0, 0, 3, 1]);
    assert_eq!(decode(&bytes, &t), Ok(v));
}

#[test]
fn map_out_of_order_is_unordered_map_keys() {
    let t = TypeDesc::MapOf(Box::new(TypeDesc::U32), Box::new(TypeDesc::Bool));
    let wrong = Value::MapOf(vec![
        (Value::U32(3), Value::Bool(true)),
        (Value::U32(1), Value::Bool(false)),
    ]);
    let bytes = encode(&wrong);
    assert_eq!(decode(&bytes, &t), Err(DecodeError::UnorderedMapKeys));
}

#[test]
fn map_repeated_key_is_duplicate_map_key() {
    let t = TypeDesc::MapOf(Box::new(TypeDesc::U32), Box::new(TypeDesc::Bool));
    let wrong = Value::MapOf(vec![
        (Value::U32(1), Value::Bool(true)),
        (Value::U32(1), Value::Bool(false)),
    ]);
    let bytes = encode(&wrong);
    assert_eq!(decode(&bytes, &t), Err(DecodeError::DuplicateMapKey));
}

#[test]
fn map_encoding_is_determined_by_entries() {
    let a = Value::MapOf(vec![
        (Value::U32(1), Value::Bool(false)),
        (Value::U32(3), Value::Bool(true)),
    ]);
    let b = Value::MapOf(vec![
        (Value::U32(1), Value::Bool(false)),
        (Value::U32(3), Value::Bool(true)),
    ]);
    assert_eq!(encode(&a), encode(&b));
}

#[test]
fn encoding_is_deterministic() {
    let v = Value::Vector(vec![Value::Text(b"x".to_vec()), Value::Text(b"y".to_vec())]);
    assert_eq!(encode(&v), encode(&v));
}

#[test]
fn enum_unit_roundtrip_and_bounds() {
    let t = TypeDesc::EnumUnit(3);
    roundtrip(Value::EnumUnit(0), &t);
    roundtrip(Value::EnumUnit(2), &t);
    assert_eq!(decode(&vec![3u8], &t), Err(DecodeError::ShapeMismatch));
}

fn two_variant_enum() -> TypeDesc {
    TypeDesc::EnumTagged(vec![
        VariantDesc { name: b"A".to_vec(), payload: vec![] },
        VariantDesc { name: b"B".to_vec(), payload: vec![TypeDesc::U32] },
    ])
}

#[test]
fn enum_tagged_roundtrip() {
    let t = two_variant_enum();
    let v = Value::EnumTagged(1, vec![Value::U32(7)]);
    let bytes = encode(&v);
    assert_eq!(bytes, vec![1u8, 0, 0, 0, 7]);
    assert_eq!(decode(&bytes, &t), Ok(v));
    roundtrip(Value::EnumTagged(0, vec![]), &t);
}

#[test]
fn enum_tag_out_of_bounds_is_shape_mismatch() {
    let t = two_variant_enum();
    assert_eq!(decode(&vec![5u8], &t), Err(DecodeError::ShapeMismatch));
}

#[test]
fn struct_roundtrip() {
    let t = TypeDesc::StructOf(vec![
        FieldDesc { name: b"a".to_vec(), shape: TypeDesc::U32 },
        FieldDesc { name: b"b".to_vec(), shape: TypeDesc::Bool },
        FieldDesc { name: b"c".to_vec(), shape: TypeDesc::Symbol },
    ]);
    let v = Value::StructOf(vec![
        Value::U32(5),
        Value::Bool(true),
        Value::Symbol(b"Hi".to_vec()),
    ]);
    roundtrip(v, &t);
}

#[test]
fn trailing_byte_is_trailing_data() {
    let mut bytes = encode(&Value::U32(5));
    bytes.push(0);
    assert_eq!(decode(&bytes, &TypeDesc::U32), Err(DecodeError::TrailingData));
}

#[test]
fn truncated_u32_is_unexpected_end() {
    let bytes = vec![0u8, 0, 0];
    assert_eq!(decode(&bytes, &TypeDesc::U32), Err(DecodeError::UnexpectedEnd));
}

#[test]
fn deep_descriptor_is_recursion_limit_exceeded() {
    let mut t = TypeDesc::U32;
    for _ in 0..70 {
        t = TypeDesc::Optional(Box::new(t));
    }
    assert_eq!(decode(&vec![0u8], &t), Err(DecodeError::RecursionLimitExceeded));
}

#[test]
fn nested_optional_within_bound_roundtrips() {
    let mut t = TypeDesc::U32;
    let mut v = Value::U32(8);
    for _ in 0..20 {
        t = TypeDesc::Optional(Box::new(t));
        v = Value::Optional(vec![v]);
    }
    roundtrip(v, &t);
}

#[test]
fn composite_nested_roundtrip() {
    let t = TypeDesc::Vector(Box::new(TypeDesc::Tuple(vec![
        TypeDesc::Text,
        TypeDesc::Optional(Box::new(TypeDesc::I64)),
    ])));
    let v = Value::Vector(vec![
        Value::Tuple(vec![Value::Text(b"k".to_vec()), Value::Optional(vec![Value::I64(-9)])]),
        Value::Tuple(vec![Value::Text(b"m".to_vec()), Value::Optional(vec![])]),
    ]);
    roundtrip(v, &t);
}

#[test]
fn map_insert_keeps_ascending_order() {
    let m = map_insert(Vec::new(), Value::U32(3), Value::Bool(true)).unwrap();
    let m = map_insert(m, Value::U32(1), Value::Bool(false)).unwrap();
    assert_eq!(
        m,
        vec![(Value::U32(1), Value::Bool(false)), (Value::U32(3), Value::Bool(true))]
    );
}

#[test]
fn map_insert_order_does_not_matter() {
    let a = map_insert(Vec::new(), Value::U32(3), Value::Bool(true)).unwrap();
    let a = map_insert(a, Value::U32(1), Value::Bool(false)).unwrap();
    let b = map_insert(Vec::new(), Value::U32(1), Value::Bool(false)).unwrap();
    let b = map_insert(b, Value::U32(3), Value::Bool(true)).unwrap();
    assert_eq!(a, b);
    assert_eq!(encode(&Value::MapOf(a)), encode(&Value::MapOf(b)));
}

#[test]
fn map_insert_rejects_duplicate_key() {
    let m = map_insert(Vec::new(), Value::U32(1), Value::Bool(true)).unwrap();
    assert!(map_insert(m, Value::U32(1), Value::Bool(false)).is_none());
}

#[test]
fn map_insert_places_middle_key() {
    let m = map_insert(Vec::new(), Value::U32(1), Value::Bool(true)).unwrap();
    let m = map_insert(m, Value::U32(9), Value::Bool(true)).unwrap();
    let m = map_insert(m, Value::U32(5), Value::Bool(false)).unwrap();
    assert_eq!(
        m,
        vec![
            (Value::U32(1), Value::Bool(true)),
            (Value::U32(5), Value::Bool(false)),
            (Value::U32(9), Value::Bool(true)),
        ]
    );
}

#[test]
fn short_buffer_against_wider_shape_is_unexpected_end() {
    let bytes = encode(&Value::Bool(true));
    assert_eq!(decode(&bytes, &TypeDesc::U32), Err(DecodeError::UnexpectedEnd));
}

#[test]
fn enum_with_too_many_variants_is_shape_mismatch() {
    let t = TypeDesc::EnumUnit(300);
    assert_eq!(decode(&vec![0u8], &t), Err(DecodeError::ShapeMismatch));
}
