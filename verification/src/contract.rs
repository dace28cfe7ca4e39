//! A sample catalogue of typed entry points over the value model: one
//! echo-style method per supported shape, plus the concrete struct and enum
//! shapes they exercise. Addresses, symbols, strings and byte strings are
//! carried as plain byte vectors; 256-bit integers as two 128-bit halves.

use vstd::prelude::*;
use crate::ty::{FieldDesc, TypeDesc};
use crate::value::{valid_symbol, vview_seq, I256Parts, U256Parts, Value, VVal};

verus! {

/// Error a contract method can report.
#[derive(Clone, Copy, Debug, PartialEq, Eq, Structural)]
pub enum Error {
    /// The argument must be an odd number.
    NumberMustBeOdd,
}

impl Error {
    /// The numeric code this error carries in the surrounding system.
    pub fn code(&self) -> (r: u32)
        ensures
            r == 1,
    {
        1
    }
}

/// A three-variant enum with no payloads.
#[derive(Clone, Copy, Debug, PartialEq, Eq, Structural)]
pub enum SimpleEnum {
    First,
    Second,
    Third,
}

impl SimpleEnum {
    /// The variant's declaration index: its wire tag.
    pub fn tag(&self) -> (r: u32)
        ensures
            *self is First ==> r == 0,
            *self is Second ==> r == 1,
            *self is Third ==> r == 2,
    {
        match self {
            SimpleEnum::First => 0,
            SimpleEnum::Second => 1,
            SimpleEnum::Third => 2,
        }
    }

    /// The value of this variant under the unit-enum shape of three
    /// declared variants.
    pub fn to_value(&self) -> (r: Value)
        ensures
            r@ == VVal::EnumUnit(self.tag_spec()),
    {
        Value::EnumUnit(self.tag())
    }

    /// The declaration index, as contracts speak of it.
    pub open spec fn tag_spec(&self) -> u32 {
        match self {
            SimpleEnum::First => 0,
            SimpleEnum::Second => 1,
            SimpleEnum::Third => 2,
        }
    }
}

/// Court cards, with their customary ranks.
#[derive(Clone, Copy, Debug, PartialEq, Eq, Structural)]
pub enum RoyalCard {
    Jack,
    Queen,
    King,
}

impl RoyalCard {
    /// The card's numeric rank.
    pub fn rank(&self) -> (r: u32)
        ensures
            *self is Jack ==> r == 11,
            *self is Queen ==> r == 12,
            *self is King ==> r == 13,
    {
        match self {
            RoyalCard::Jack => 11,
            RoyalCard::Queen => 12,
            RoyalCard::King => 13,
        }
    }
}

/// A sample struct shape: a number, a flag and a symbol.
#[derive(Debug, PartialEq, Eq)]
pub struct Test {
    pub a: u32,
    pub b: bool,
    pub c: Vec<u8>,
}

impl Test {
    /// The model of this struct as a value of its declared shape: the three
    /// fields in declared order.
    pub open spec fn as_vval(&self) -> VVal {
        VVal::StructOf(seq![VVal::U32(self.a), VVal::Bool(self.b), VVal::Symbol(self.c@)])
    }

    /// Pack the struct as a codec value of its declared shape.
    pub fn to_value(self) -> (r: Value)
        ensures
            r@ == self.as_vval(),
    {
        let ghost g = self;
        let mut fields: Vec<Value> = Vec::new();
        fields.push(Value::U32(self.a));
        fields.push(Value::Bool(self.b));
        fields.push(Value::Symbol(self.c));
        proof {
            crate::value::vview_seq_index(fields@, 0);
            crate::value::vview_seq_index(fields@, 1);
            crate::value::vview_seq_index(fields@, 2);
            assert(vview_seq(fields@) =~= g.as_vval()->StructOf_0);
        }
        Value::StructOf(fields)
    }

    /// The declared shape of `Test`: field names and field shapes in order.
    pub fn type_desc() -> (r: TypeDesc)
        ensures
            r matches TypeDesc::StructOf(fs) && fs@.len() == 3 && fs@[0].shape is U32
                && fs@[1].shape is Bool && fs@[2].shape is Symbol,
    {
        let mut fs: Vec<FieldDesc> = Vec::new();
        let mut na: Vec<u8> = Vec::new();
        na.push(97);
        fs.push(FieldDesc { name: na, shape: TypeDesc::U32 });
        let mut nb: Vec<u8> = Vec::new();
        nb.push(98);
        fs.push(FieldDesc { name: nb, shape: TypeDesc::Bool });
        let mut nc: Vec<u8> = Vec::new();
        nc.push(99);
        fs.push(FieldDesc { name: nc, shape: TypeDesc::Symbol });
        TypeDesc::StructOf(fs)
    }
}

/// A tuple struct pairing a `Test` with a `SimpleEnum`.
#[derive(Debug, PartialEq, Eq)]
pub struct TupleStruct(pub Test, pub SimpleEnum);

/// A data-carrying enum over the catalogue's shapes. `Asset` carries an
/// account identifier (32 bytes) and an amount.
#[derive(Debug, PartialEq, Eq)]
pub enum ComplexEnum {
    Struct(Test),
    Tuple(TupleStruct),
    Enum(SimpleEnum),
    Asset(Vec<u8>, i128),
    Void,
}

/// The contract surface: one method per supported type shape. Every method
/// states exactly what it returns.
pub struct Contract;

impl Contract {
    /// Echo a symbol.
    pub fn hello(hello: Vec<u8>) -> (r: Vec<u8>)
        requires
            valid_symbol(hello@),
        ensures
            r == hello,
    {
        hello
    }

    /// Do nothing.
    pub fn woid() {
    }

    /// An arbitrary value: the unit value.
    pub fn val() -> (r: Value)
        ensures
            r@ == VVal::Void,
    {
        Value::Void
    }

    /// Echo an odd number; reject an even one.
    pub fn u32_fail_on_even(u32_: u32) -> (r: Result<u32, Error>)
        ensures
            u32_ % 2 == 1 ==> r == Ok::<u32, Error>(u32_),
            u32_ % 2 == 0 ==> r == Err::<u32, Error>(Error::NumberMustBeOdd),
    {
        if u32_ % 2 == 1 {
            Ok(u32_)
        } else {
            Err(Error::NumberMustBeOdd)
        }
    }

    /// Echo an unsigned 32-bit integer.
    pub fn u32_(u32_: u32) -> (r: u32)
        ensures
            r == u32_,
    {
        u32_
    }

    /// Echo a signed 32-bit integer.
    pub fn i32_(i32_: i32) -> (r: i32)
        ensures
            r == i32_,
    {
        i32_
    }

    /// Echo a signed 64-bit integer.
    pub fn i64_(i64_: i64) -> (r: i64)
        ensures
            r == i64_,
    {
        i64_
    }

    /// Greet a struct: a fixed greeting symbol followed by the struct's own
    /// symbol field.
    pub fn strukt_hel(strukt: Test) -> (r: Vec<Vec<u8>>)
        ensures
            r@.len() == 2,
            r@[0]@ == hello_symbol(),
            r@[1]@ == strukt.c@,
    {
        let mut greeting: Vec<u8> = Vec::new();
        greeting.push(72);
        greeting.push(101);
        greeting.push(108);
        greeting.push(108);
        greeting.push(111);
        proof {
            assert(greeting@ =~= hello_symbol());
        }
        let mut out: Vec<Vec<u8>> = Vec::new();
        out.push(greeting);
        out.push(strukt.c);
        out
    }

    /// Echo a struct.
    pub fn strukt(strukt: Test) -> (r: Test)
        ensures
            r == strukt,
    {
        strukt
    }

    /// Echo a unit-variant enum.
    pub fn simple(simple: SimpleEnum) -> (r: SimpleEnum)
        ensures
            r == simple,
    {
        simple
    }

    /// Echo a data-carrying enum.
    pub fn complex(complex: ComplexEnum) -> (r: ComplexEnum)
        ensures
            r == complex,
    {
        complex
    }

    /// Echo an account identifier (32 bytes).
    pub fn addresse(addresse: Vec<u8>) -> (r: Vec<u8>)
        requires
            addresse@.len() == 32,
        ensures
            r == addresse,
    {
        addresse
    }

    /// Echo a byte string.
    pub fn bytes(bytes: Vec<u8>) -> (r: Vec<u8>)
        ensures
            r == bytes,
    {
        bytes
    }

    /// Echo a byte string of exactly nine bytes.
    pub fn bytes_n(bytes_n: Vec<u8>) -> (r: Vec<u8>)
        requires
            bytes_n@.len() == 9,
        ensures
            r == bytes_n,
    {
        bytes_n
    }

    /// Echo a court card.
    pub fn card(card: RoyalCard) -> (r: RoyalCard)
        ensures
            r == card,
    {
        card
    }

    /// Echo a boolean.
    pub fn boolean(boolean: bool) -> (r: bool)
        ensures
            r == boolean,
    {
        boolean
    }

    /// Negate a boolean.
    pub fn not(boolean: bool) -> (r: bool)
        ensures
            r == !boolean,
    {
        !boolean
    }

    /// Echo a signed 128-bit integer.
    pub fn i128(x: i128) -> (r: i128)
        ensures
            r == x,
    {
        x
    }

    /// Echo an unsigned 128-bit integer.
    pub fn u128(x: u128) -> (r: u128)
        ensures
            r == x,
    {
        x
    }

    /// The first argument when the flag is set, zero otherwise.
    pub fn multi_args(a: u32, b: bool) -> (r: u32)
        ensures
            b ==> r == a,
            !b ==> r == 0,
    {
        if b {
            a
        } else {
            0
        }
    }

    /// Echo a map from numbers to flags, entries in ascending key order.
    pub fn map(map: Vec<(u32, bool)>) -> (r: Vec<(u32, bool)>)
        ensures
            r == map,
    {
        map
    }

    /// Echo a vector of numbers.
    pub fn vec(vec: Vec<u32>) -> (r: Vec<u32>)
        ensures
            r == vec,
    {
        vec
    }

    /// Echo a pair of a symbol and a number.
    pub fn tuple(tuple: (Vec<u8>, u32)) -> (r: (Vec<u8>, u32))
        requires
            valid_symbol(tuple.0@),
        ensures
            r == tuple,
    {
        tuple
    }

    /// Echo an optional number.
    pub fn option(option: Option<u32>) -> (r: Option<u32>)
        ensures
            r == option,
    {
        option
    }

    /// Echo an unsigned 256-bit integer.
    pub fn u256(u256: U256Parts) -> (r: U256Parts)
        ensures
            r == u256,
    {
        u256
    }

    /// Echo a signed 256-bit integer.
    pub fn i256(i256: I256Parts) -> (r: I256Parts)
        ensures
            r == i256,
    {
        i256
    }

    /// Echo a text string.
    pub fn string(string: Vec<u8>) -> (r: Vec<u8>)
        ensures
            r == string,
    {
        string
    }

    /// Echo a tuple struct.
    pub fn tuple_strukt(tuple_strukt: TupleStruct) -> (r: TupleStruct)
        ensures
            r == tuple_strukt,
    {
        tuple_strukt
    }
}

/// The greeting symbol's bytes.
pub open spec fn hello_symbol() -> Seq<u8> {
    seq![72u8, 101u8, 108u8, 108u8, 111u8]
}

} // verus!
