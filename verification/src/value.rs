//! Values: the executable value tree, its mathematical model, and the errors
//! decoding can report.

use vstd::prelude::*;
use crate::ty::SYMBOL_MAX;

verus! {

/// Why a decode call rejected its input. Every failure is data-dependent and
/// recoverable; a failed decode returns no partial value.
#[derive(Clone, Copy, Debug, PartialEq, Eq, Structural)]
pub enum DecodeError {
    /// The buffer ended before the expected shape was fully consumed.
    UnexpectedEnd,
    /// A discriminant, tag or fixed length did not match the expected shape.
    ShapeMismatch,
    /// Bytes remained after the expected shape was fully consumed.
    TrailingData,
    /// A decoded map carried two entries with the same key.
    DuplicateMapKey,
    /// A decoded map's keys were not in strictly ascending order.
    UnorderedMapKeys,
    /// A decoded symbol broke the symbol alphabet or length rule.
    InvalidSymbol,
    /// The descriptor nests deeper than the decoder's recursion bound.
    RecursionLimitExceeded,
    /// A decoded length or count field exceeded the decoder's size bound.
    LengthLimitExceeded,
}

/// A 256-bit unsigned integer as two 128-bit halves.
#[derive(Clone, Copy, Debug, PartialEq, Eq, Structural)]
pub struct U256Parts {
    pub hi: u128,
    pub lo: u128,
}

/// A 256-bit signed integer in two's complement: a signed high half and an
/// unsigned low half.
#[derive(Clone, Copy, Debug, PartialEq, Eq, Structural)]
pub struct I256Parts {
    pub hi: i128,
    pub lo: u128,
}

/// An in-memory value. Composite values hold their children in declared
/// order; a map holds its entries in ascending key order; an optional holds
/// at most one element. `conforms` in `wire` states which values fit which
/// descriptor.
#[derive(Debug, PartialEq, Eq)]
pub enum Value {
    Void,
    Bool(bool),
    U32(u32),
    I32(i32),
    U64(u64),
    I64(i64),
    U128(u128),
    I128(i128),
    U256(U256Parts),
    I256(I256Parts),
    Symbol(Vec<u8>),
    Text(Vec<u8>),
    Bytes(Vec<u8>),
    FixedBytes(Vec<u8>),
    Address(Vec<u8>),
    /// Absent (no element) or present (exactly one element).
    Optional(Vec<Value>),
    Vector(Vec<Value>),
    /// Entries as (key, value) pairs in strictly ascending key order.
    MapOf(Vec<(Value, Value)>),
    Tuple(Vec<Value>),
    /// Field values in the declared field order of the struct shape.
    StructOf(Vec<Value>),
    /// The index of the selected variant.
    EnumUnit(u32),
    /// The index of the selected variant and its payload values in order.
    EnumTagged(u32, Vec<Value>),
}

/// The mathematical model of a value; what contracts and proofs speak of.
#[verifier::ext_equal]
pub enum VVal {
    Void,
    Bool(bool),
    U32(u32),
    I32(i32),
    U64(u64),
    I64(i64),
    U128(u128),
    I128(i128),
    U256(U256Parts),
    I256(I256Parts),
    Symbol(Seq<u8>),
    Text(Seq<u8>),
    Bytes(Seq<u8>),
    FixedBytes(Seq<u8>),
    Address(Seq<u8>),
    Optional(Seq<VVal>),
    Vector(Seq<VVal>),
    MapOf(Seq<(VVal, VVal)>),
    Tuple(Seq<VVal>),
    StructOf(Seq<VVal>),
    EnumUnit(u32),
    EnumTagged(u32, Seq<VVal>),
}

pub open spec fn vview(v: Value) -> VVal
    decreases v,
{
    match v {
        Value::Void => VVal::Void,
        Value::Bool(b) => VVal::Bool(b),
        Value::U32(x) => VVal::U32(x),
        Value::I32(x) => VVal::I32(x),
        Value::U64(x) => VVal::U64(x),
        Value::I64(x) => VVal::I64(x),
        Value::U128(x) => VVal::U128(x),
        Value::I128(x) => VVal::I128(x),
        Value::U256(p) => VVal::U256(p),
        Value::I256(p) => VVal::I256(p),
        Value::Symbol(b) => VVal::Symbol(b@),
        Value::Text(b) => VVal::Text(b@),
        Value::Bytes(b) => VVal::Bytes(b@),
        Value::FixedBytes(b) => VVal::FixedBytes(b@),
        Value::Address(b) => VVal::Address(b@),
        Value::Optional(es) => VVal::Optional(vview_seq(es@)),
        Value::Vector(es) => VVal::Vector(vview_seq(es@)),
        Value::MapOf(es) => VVal::MapOf(vview_entries(es@)),
        Value::Tuple(es) => VVal::Tuple(vview_seq(es@)),
        Value::StructOf(es) => VVal::StructOf(vview_seq(es@)),
        Value::EnumUnit(i) => VVal::EnumUnit(i),
        Value::EnumTagged(i, es) => VVal::EnumTagged(i, vview_seq(es@)),
    }
}

pub open spec fn vview_seq(es: Seq<Value>) -> Seq<VVal>
    decreases es,
{
    if es.len() == 0 {
        Seq::empty()
    } else {
        seq![vview(es[0])] + vview_seq(es.skip(1))
    }
}

pub open spec fn vview_entries(es: Seq<(Value, Value)>) -> Seq<(VVal, VVal)>
    decreases es,
{
    if es.len() == 0 {
        Seq::empty()
    } else {
        seq![(vview(es[0].0), vview(es[0].1))] + vview_entries(es.skip(1))
    }
}

impl View for Value {
    type V = VVal;

    open spec fn view(&self) -> VVal {
        vview(*self)
    }
}

/// The length of a viewed child sequence is the length of the original.
pub broadcast proof fn vview_seq_len(es: Seq<Value>)
    ensures
        #[trigger] vview_seq(es).len() == es.len(),
    decreases es,
{
    if es.len() > 0 {
        vview_seq_len(es.skip(1));
    }
}

/// Each element of a viewed child sequence is the view of the original child.
pub broadcast proof fn vview_seq_index(es: Seq<Value>, i: int)
    requires
        0 <= i < es.len(),
    ensures
        vview_seq(es).len() == es.len(),
        #[trigger] vview_seq(es)[i] == vview(es[i]),
    decreases es,
{
    vview_seq_len(es);
    if i > 0 {
        vview_seq_index(es.skip(1), i - 1);
    }
}

/// The length of a viewed entry sequence is the length of the original.
pub broadcast proof fn vview_entries_len(es: Seq<(Value, Value)>)
    ensures
        #[trigger] vview_entries(es).len() == es.len(),
    decreases es,
{
    if es.len() > 0 {
        vview_entries_len(es.skip(1));
    }
}

/// Each viewed entry is the pair of views of the original entry.
pub broadcast proof fn vview_entries_index(es: Seq<(Value, Value)>, i: int)
    requires
        0 <= i < es.len(),
    ensures
        vview_entries(es).len() == es.len(),
        #[trigger] vview_entries(es)[i] == (vview(es[i].0), vview(es[i].1)),
    decreases es,
{
    vview_entries_len(es);
    if i > 0 {
        vview_entries_index(es.skip(1), i - 1);
    }
}

/// The bytes a symbol may hold: ASCII digits, letters and underscore.
pub open spec fn symbol_byte_ok(b: u8) -> bool {
    (48 <= b && b <= 57) || (65 <= b && b <= 90) || (97 <= b && b <= 122) || b == 95
}

/// A valid symbol: bounded length over the restricted alphabet.
pub open spec fn valid_symbol(s: Seq<u8>) -> bool {
    s.len() <= SYMBOL_MAX && forall|i: int| 0 <= i < s.len() ==> symbol_byte_ok(s[i])
}

} // verus!

verus! {

/// Viewing child values commutes with appending one more.
pub proof fn lemma_vview_seq_push(p: Seq<Value>, x: Value)
    ensures
        vview_seq(p.push(x)) == vview_seq(p).push(vview(x)),
    decreases p,
{
    if p.len() == 0 {
        reveal_with_fuel(vview_seq, 3);
        assert(p.push(x) =~= seq![x]);
        assert(seq![x].skip(1) =~= Seq::<Value>::empty());
        assert(vview_seq(p.push(x)) =~= vview_seq(p).push(vview(x)));
    } else {
        assert(p.push(x).skip(1) =~= p.skip(1).push(x));
        lemma_vview_seq_push(p.skip(1), x);
        assert(vview_seq(p.push(x)) =~= vview_seq(p).push(vview(x)));
    }
}

/// Viewing map entries commutes with appending one more.
pub proof fn lemma_vview_entries_push(p: Seq<(Value, Value)>, x: (Value, Value))
    ensures
        vview_entries(p.push(x)) == vview_entries(p).push((vview(x.0), vview(x.1))),
    decreases p,
{
    if p.len() == 0 {
        reveal_with_fuel(vview_entries, 3);
        assert(p.push(x) =~= seq![x]);
        assert(seq![x].skip(1) =~= Seq::<(Value, Value)>::empty());
        assert(vview_entries(p.push(x)) =~= vview_entries(p).push((vview(x.0), vview(x.1))));
    } else {
        assert(p.push(x).skip(1) =~= p.skip(1).push(x));
        lemma_vview_entries_push(p.skip(1), x);
        assert(vview_entries(p.push(x)) =~= vview_entries(p).push((vview(x.0), vview(x.1))));
    }
}

} // verus!
