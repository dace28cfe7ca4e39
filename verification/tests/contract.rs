use custom_types::contract::{ComplexEnum, Contract, Error, RoyalCard, SimpleEnum, Test, TupleStruct};
use custom_types::decode::decode;
use custom_types::encode::encode;
use custom_types::ty::TypeDesc;
use custom_types::value::{I256Parts, U256Parts, Value};

#[test]
fn hello_echoes_symbol() {
    assert_eq!(Contract::hello(b"Howdy".to_vec()), b"Howdy".to_vec());
}

#[test]
fn woid_returns_unit() {
    Contract::woid();
}

#[test]
fn val_is_void() {
    assert_eq!(Contract::val(), Value::Void);
}

#[test]
fn u32_fail_on_even_accepts_odd() {
    assert_eq!(Contract::u32_fail_on_even(1), Ok(1));
    assert_eq!(Contract::u32_fail_on_even(255), Ok(255));
}

#[test]
fn u32_fail_on_even_rejects_even() {
    assert_eq!(Contract::u32_fail_on_even(2), Err(Error::NumberMustBeOdd));
    assert_eq!(Contract::u32_fail_on_even(0), Err(Error::NumberMustBeOdd));
    assert_eq!(Error::NumberMustBeOdd.code(), 1);
}

#[test]
fn integer_echoes() {
    assert_eq!(Contract::u32_(7), 7);
    assert_eq!(Contract::i32_(-7), -7);
    assert_eq!(Contract::i64_(-9000000000), -9000000000);
    assert_eq!(Contract::i128(-1), -1);
    assert_eq!(Contract::u128(u128::MAX), u128::MAX);
}

#[test]
fn strukt_hel_greets() {
    let t = Test { a: 0, b: false, c: b"friend".to_vec() };
    let out = Contract::strukt_hel(t);
    assert_eq!(out, vec![b"Hello".to_vec(), b"friend".to_vec()]);
}

#[test]
fn strukt_echoes() {
    let t = Test { a: 1, b: true, c: b"c".to_vec() };
    let back = Contract::strukt(t);
    assert_eq!(back, Test { a: 1, b: true, c: b"c".to_vec() });
}

#[test]
fn simple_and_complex_echo() {
    assert_eq!(Contract::simple(SimpleEnum::Second), SimpleEnum::Second);
    let c = ComplexEnum::Asset(vec![9u8; 32], -5);
    assert_eq!(Contract::complex(c), ComplexEnum::Asset(vec![9u8; 32], -5));
    let t = Test { a: 2, b: false, c: b"x".to_vec() };
    assert_eq!(
        Contract::complex(ComplexEnum::Struct(t)),
        ComplexEnum::Struct(Test { a: 2, b: false, c: b"x".to_vec() })
    );
}

#[test]
fn addresse_and_bytes_echo() {
    assert_eq!(Contract::addresse(vec![1u8; 32]), vec![1u8; 32]);
    assert_eq!(Contract::bytes(vec![1, 2, 3]), vec![1, 2, 3]);
    assert_eq!(Contract::bytes_n(vec![0u8; 9]), vec![0u8; 9]);
}

#[test]
fn card_echo_and_ranks() {
    assert_eq!(Contract::card(RoyalCard::Queen), RoyalCard::Queen);
    assert_eq!(RoyalCard::Jack.rank(), 11);
    assert_eq!(RoyalCard::Queen.rank(), 12);
    assert_eq!(RoyalCard::King.rank(), 13);
}

#[test]
fn booleans() {
    assert_eq!(Contract::boolean(true), true);
    assert_eq!(Contract::not(true), false);
    assert_eq!(Contract::not(false), true);
}

#[test]
fn multi_args_uses_flag() {
    assert_eq!(Contract::multi_args(5, true), 5);
    assert_eq!(Contract::multi_args(5, false), 0);
}

#[test]
fn container_echoes() {
    assert_eq!(
        Contract::map(vec![(1, true), (3, false)]),
        vec![(1, true), (3, false)]
    );
    assert_eq!(Contract::vec(vec![1, 2, 3]), vec![1, 2, 3]);
    assert_eq!(
        Contract::tuple((b"sym".to_vec(), 4)),
        (b"sym".to_vec(), 4)
    );
    assert_eq!(Contract::option(Some(1)), Some(1));
    assert_eq!(Contract::option(None), None);
    assert_eq!(Contract::string(b"text".to_vec()), b"text".to_vec());
}

#[test]
fn wide_integer_echoes() {
    let u = U256Parts { hi: 1, lo: 2 };
    assert_eq!(Contract::u256(u), u);
    let i = I256Parts { hi: -1, lo: 2 };
    assert_eq!(Contract::i256(i), i);
}

#[test]
fn tuple_strukt_echoes() {
    let v = TupleStruct(Test { a: 1, b: true, c: b"c".to_vec() }, SimpleEnum::Third);
    let back = Contract::tuple_strukt(v);
    assert_eq!(
        back,
        TupleStruct(Test { a: 1, b: true, c: b"c".to_vec() }, SimpleEnum::Third)
    );
}

#[test]
fn test_struct_roundtrips_through_codec() {
    let t = Test { a: 5, b: true, c: b"Hi".to_vec() };
    let shape = Test::type_desc();
    let v = t.to_value();
    let bytes = encode(&v);
    let back = decode(&bytes, &shape).expect("fresh encoding decodes");
    assert_eq!(
        back,
        Value::StructOf(vec![
            Value::U32(5),
            Value::Bool(true),
            Value::Symbol(b"Hi".to_vec()),
        ])
    );
}

#[test]
fn simple_enum_roundtrips_through_codec() {
    let v = SimpleEnum::Third.to_value();
    assert_eq!(SimpleEnum::Third.tag(), 2);
    let bytes = encode(&v);
    assert_eq!(bytes, vec![2u8]);
    let back = decode(&bytes, &TypeDesc::EnumUnit(3)).expect("fresh encoding decodes");
    assert_eq!(back, Value::EnumUnit(2));
}
