//! Type descriptors: the schema against which values are encoded and decoded.

use vstd::prelude::*;

verus! {

/// Largest element count or byte length the decoder accepts for a
/// variable-length shape (strings, byte strings, vectors, maps).
pub const MAX_LEN: u32 = 65535;

/// Largest type-descriptor nesting depth the decoder accepts; bounds the
/// recursion a decode call can perform.
pub const MAX_DEPTH: u32 = 64;

/// Largest length of a symbol value.
pub const SYMBOL_MAX: u32 = 32;

/// Largest number of variants a unit or tagged enum may declare; the variant
/// tag is carried in a single byte on the wire.
pub const TAG_LIMIT: u32 = 256;

/// One named field of a struct shape: the field's name and its shape.
/// The name is part of the schema only; it is never written to the wire,
/// since encode and decode always run against a known descriptor.
pub struct FieldDesc {
    pub name: Vec<u8>,
    pub shape: TypeDesc,
}

/// One declared variant of a tagged enum: its name and the shapes of its
/// payload, in order. An empty payload list describes a data-free variant.
pub struct VariantDesc {
    pub name: Vec<u8>,
    pub payload: Vec<TypeDesc>,
}

/// The shape of a value. A value is encoded and decoded against a descriptor;
/// the descriptor itself is never written to the wire.
pub enum TypeDesc {
    /// The unit value; encodes to no bytes.
    Void,
    /// A boolean; one byte, 0 or 1.
    Bool,
    /// Unsigned 32-bit integer, big-endian.
    U32,
    /// Signed 32-bit integer, two's-complement big-endian.
    I32,
    /// Unsigned 64-bit integer, big-endian.
    U64,
    /// Signed 64-bit integer, two's-complement big-endian.
    I64,
    /// Unsigned 128-bit integer, big-endian.
    U128,
    /// Signed 128-bit integer, two's-complement big-endian.
    I128,
    /// Unsigned 256-bit integer, big-endian.
    U256,
    /// Signed 256-bit integer, two's-complement big-endian.
    I256,
    /// A short identifier over a restricted alphabet, at most `SYMBOL_MAX`
    /// bytes; length-prefixed on the wire and re-validated on decode.
    Symbol,
    /// Variable-length text, length-prefixed.
    Text,
    /// Variable-length opaque bytes, length-prefixed.
    Bytes,
    /// Exactly this many bytes; the length is part of the type. The wire
    /// still carries the length prefix, and decode rejects any other value.
    FixedBytes(u32),
    /// An opaque 32-byte account or contract identifier.
    Address,
    /// Either absent or exactly one value of the inner shape; one flag byte.
    Optional(Box<TypeDesc>),
    /// An ordered sequence of values of one shape, count-prefixed.
    Vector(Box<TypeDesc>),
    /// A key-to-value mapping, count-prefixed; entries are carried in
    /// strictly ascending key order and decode rejects any other order.
    MapOf(Box<TypeDesc>, Box<TypeDesc>),
    /// A fixed-arity sequence of heterogeneous shapes.
    Tuple(Vec<TypeDesc>),
    /// Named fields in declared order.
    StructOf(Vec<FieldDesc>),
    /// A data-free enum with this many declared variants; a value is a
    /// variant index below the count, carried as one tag byte.
    EnumUnit(u32),
    /// A tagged union: one tag byte selecting a declared variant, followed
    /// by that variant's payload values in order.
    EnumTagged(Vec<VariantDesc>),
}

/// Structural size of a descriptor; a termination measure for the functions
/// that walk a descriptor.
pub open spec fn ty_size(t: TypeDesc) -> nat
    decreases t,
{
    match t {
        TypeDesc::Optional(t1) => 1 + ty_size(*t1),
        TypeDesc::Vector(t1) => 1 + ty_size(*t1),
        TypeDesc::MapOf(tk, tv) => 1 + ty_size(*tk) + ty_size(*tv),
        TypeDesc::Tuple(ts) => 1 + ty_seq_size(ts@),
        TypeDesc::StructOf(fs) => 1 + field_seq_size(fs@),
        TypeDesc::EnumTagged(vs) => 1 + variant_seq_size(vs@),
        _ => 1,
    }
}

pub open spec fn ty_seq_size(ts: Seq<TypeDesc>) -> nat
    decreases ts,
{
    if ts.len() == 0 {
        0
    } else {
        1 + ty_size(ts[0]) + ty_seq_size(ts.skip(1))
    }
}

pub open spec fn field_seq_size(fs: Seq<FieldDesc>) -> nat
    decreases fs,
{
    if fs.len() == 0 {
        0
    } else {
        1 + ty_size(fs[0].shape) + field_seq_size(fs.skip(1))
    }
}

pub open spec fn variant_seq_size(vs: Seq<VariantDesc>) -> nat
    decreases vs,
{
    if vs.len() == 0 {
        0
    } else {
        1 + ty_seq_size(vs[0].payload@) + variant_seq_size(vs.skip(1))
    }
}

/// Nesting depth of a descriptor: how deep decoding it can recurse.
pub open spec fn ty_depth(t: TypeDesc) -> nat
    decreases t,
{
    match t {
        TypeDesc::Optional(t1) => 1 + ty_depth(*t1),
        TypeDesc::Vector(t1) => 1 + ty_depth(*t1),
        TypeDesc::MapOf(tk, tv) => 1 + if ty_depth(*tk) >= ty_depth(*tv) {
            ty_depth(*tk)
        } else {
            ty_depth(*tv)
        },
        TypeDesc::Tuple(ts) => 1 + ty_seq_depth(ts@),
        TypeDesc::StructOf(fs) => 1 + field_seq_depth(fs@),
        TypeDesc::EnumTagged(vs) => 1 + variant_seq_depth(vs@),
        _ => 1,
    }
}

pub open spec fn ty_seq_depth(ts: Seq<TypeDesc>) -> nat
    decreases ts,
{
    if ts.len() == 0 {
        0
    } else if ty_depth(ts[0]) >= ty_seq_depth(ts.skip(1)) {
        ty_depth(ts[0])
    } else {
        ty_seq_depth(ts.skip(1))
    }
}

pub open spec fn field_seq_depth(fs: Seq<FieldDesc>) -> nat
    decreases fs,
{
    if fs.len() == 0 {
        0
    } else if ty_depth(fs[0].shape) >= field_seq_depth(fs.skip(1)) {
        ty_depth(fs[0].shape)
    } else {
        field_seq_depth(fs.skip(1))
    }
}

pub open spec fn variant_seq_depth(vs: Seq<VariantDesc>) -> nat
    decreases vs,
{
    if vs.len() == 0 {
        0
    } else if ty_seq_depth(vs[0].payload@) >= variant_seq_depth(vs.skip(1)) {
        ty_seq_depth(vs[0].payload@)
    } else {
        variant_seq_depth(vs.skip(1))
    }
}

/// Every descriptor has positive structural size.
pub broadcast proof fn ty_size_pos(t: TypeDesc)
    ensures
        #[trigger] ty_size(t) >= 1,
{
}

} // verus!

verus! {

/// Each variant's payload list weighs less than the whole variant list.
pub proof fn lemma_variant_seq_size_bound(vs: Seq<VariantDesc>, k: int)
    requires
        0 <= k < vs.len(),
    ensures
        ty_seq_size(vs[k].payload@) < variant_seq_size(vs),
    decreases vs,
{
    if k > 0 {
        lemma_variant_seq_size_bound(vs.skip(1), k - 1);
    }
}

} // verus!
