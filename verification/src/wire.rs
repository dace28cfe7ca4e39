//! The wire format: the canonical encoding of a value, and conformance of a
//! value to a type descriptor. Every encoded value is self-delimiting when
//! paired with its descriptor; no outer length prefix is added.

use vstd::prelude::*;
use crate::numeric::{be_bytes, lex_lt, rep128, rep32, rep64};
use crate::ty::{TypeDesc, MAX_LEN, TAG_LIMIT};
use crate::value::{valid_symbol, VVal};

verus! {

/// The bytes of a value. Fixed-width integers are big-endian (two's
/// complement for the signed widths); variable-length shapes carry a 4-byte
/// count first; an optional carries a presence flag byte; an enum carries a
/// one-byte variant tag; map entries follow in ascending key order; a struct,
/// tuple or enum payload is the concatenation of its children.
pub open spec fn enc(v: VVal) -> Seq<u8>
    decreases v,
{
    match v {
        VVal::Void => Seq::empty(),
        VVal::Bool(b) => seq![if b { 1u8 } else { 0u8 }],
        VVal::U32(x) => be_bytes(x as nat, 4),
        VVal::I32(x) => be_bytes(rep32(x), 4),
        VVal::U64(x) => be_bytes(x as nat, 8),
        VVal::I64(x) => be_bytes(rep64(x), 8),
        VVal::U128(x) => be_bytes(x as nat, 16),
        VVal::I128(x) => be_bytes(rep128(x), 16),
        VVal::U256(p) => be_bytes(p.hi as nat, 16) + be_bytes(p.lo as nat, 16),
        VVal::I256(p) => be_bytes(rep128(p.hi), 16) + be_bytes(p.lo as nat, 16),
        VVal::Symbol(s) => be_bytes(s.len(), 4) + s,
        VVal::Text(s) => be_bytes(s.len(), 4) + s,
        VVal::Bytes(s) => be_bytes(s.len(), 4) + s,
        VVal::FixedBytes(s) => be_bytes(s.len(), 4) + s,
        VVal::Address(s) => s,
        VVal::Optional(es) => if es.len() == 0 {
            seq![0u8]
        } else {
            seq![1u8] + enc(es[0])
        },
        VVal::Vector(es) => be_bytes(es.len(), 4) + enc_seq(es),
        VVal::MapOf(es) => be_bytes(es.len(), 4) + enc_entries(es),
        VVal::Tuple(es) => enc_seq(es),
        VVal::StructOf(es) => enc_seq(es),
        VVal::EnumUnit(i) => seq![i as u8],
        VVal::EnumTagged(i, es) => seq![i as u8] + enc_seq(es),
    }
}

/// The concatenated encodings of a sequence of values.
pub open spec fn enc_seq(es: Seq<VVal>) -> Seq<u8>
    decreases es,
{
    if es.len() == 0 {
        Seq::empty()
    } else {
        enc(es[0]) + enc_seq(es.skip(1))
    }
}

/// The concatenated encodings of map entries, each key before its value.
pub open spec fn enc_entries(es: Seq<(VVal, VVal)>) -> Seq<u8>
    decreases es,
{
    if es.len() == 0 {
        Seq::empty()
    } else {
        enc(es[0].0) + enc(es[0].1) + enc_entries(es.skip(1))
    }
}

/// Adjacent map keys are in strictly ascending order of their encodings.
/// With transitivity this orders, and so distinguishes, all keys.
pub open spec fn entries_sorted(es: Seq<(VVal, VVal)>) -> bool
    decreases es,
{
    if es.len() <= 1 {
        true
    } else {
        lex_lt(enc(es[0].0), enc(es[1].0)) && entries_sorted(es.skip(1))
    }
}

/// A well-formed value of the given shape: exactly the values the codec
/// round-trips. Construction-time rules (symbol alphabet, fixed lengths,
/// map order and uniqueness, size bounds) are part of conformance.
pub open spec fn conforms(v: VVal, t: TypeDesc) -> bool
    decreases v,
{
    match v {
        VVal::Void => t is Void,
        VVal::Bool(_) => t is Bool,
        VVal::U32(_) => t is U32,
        VVal::I32(_) => t is I32,
        VVal::U64(_) => t is U64,
        VVal::I64(_) => t is I64,
        VVal::U128(_) => t is U128,
        VVal::I128(_) => t is I128,
        VVal::U256(_) => t is U256,
        VVal::I256(_) => t is I256,
        VVal::Symbol(s) => t is Symbol && valid_symbol(s),
        VVal::Text(s) => t is Text && s.len() <= MAX_LEN,
        VVal::Bytes(s) => t is Bytes && s.len() <= MAX_LEN,
        VVal::FixedBytes(s) => t matches TypeDesc::FixedBytes(n) && s.len() == n && n
            <= MAX_LEN,
        VVal::Address(s) => t is Address && s.len() == 32,
        VVal::Optional(es) => t matches TypeDesc::Optional(t1) && es.len() <= 1 && (es.len() == 1
            ==> conforms(es[0], *t1)),
        VVal::Vector(es) => t matches TypeDesc::Vector(t1) && es.len() <= MAX_LEN
            && conforms_all(es, *t1),
        VVal::MapOf(es) => t matches TypeDesc::MapOf(tk, tv) && es.len() <= MAX_LEN
            && conforms_entries(es, *tk, *tv) && entries_sorted(es),
        VVal::Tuple(es) => t matches TypeDesc::Tuple(ts) && conforms_zip(es, ts@),
        VVal::StructOf(es) => t matches TypeDesc::StructOf(fs) && conforms_fields(es, fs@),
        VVal::EnumUnit(i) => t matches TypeDesc::EnumUnit(c) && i < c && c <= TAG_LIMIT,
        VVal::EnumTagged(i, es) => t matches TypeDesc::EnumTagged(vs) && vs.len() <= TAG_LIMIT
            && i < vs.len() && conforms_zip(es, vs[i as int].payload@),
    }
}

/// Every element conforms to the one shape.
pub open spec fn conforms_all(es: Seq<VVal>, t: TypeDesc) -> bool
    decreases es,
{
    if es.len() == 0 {
        true
    } else {
        conforms(es[0], t) && conforms_all(es.skip(1), t)
    }
}

/// The values conform pairwise to the shapes, same arity.
pub open spec fn conforms_zip(es: Seq<VVal>, ts: Seq<TypeDesc>) -> bool
    decreases es,
{
    es.len() == ts.len() && if es.len() == 0 {
        true
    } else {
        conforms(es[0], ts[0]) && conforms_zip(es.skip(1), ts.skip(1))
    }
}

/// The field values conform pairwise to the declared field shapes.
pub open spec fn conforms_fields(es: Seq<VVal>, fs: Seq<crate::ty::FieldDesc>) -> bool
    decreases es,
{
    es.len() == fs.len() && if es.len() == 0 {
        true
    } else {
        conforms(es[0], fs[0].shape) && conforms_fields(es.skip(1), fs.skip(1))
    }
}

/// Every key conforms to the key shape and every value to the value shape.
pub open spec fn conforms_entries(es: Seq<(VVal, VVal)>, tk: TypeDesc, tv: TypeDesc) -> bool
    decreases es,
{
    if es.len() == 0 {
        true
    } else {
        conforms(es[0].0, tk) && conforms(es[0].1, tv) && conforms_entries(es.skip(1), tk, tv)
    }
}

} // verus!

verus! {

/// Encoding a sequence of values extended by one more appends that value's
/// encoding.
pub proof fn lemma_enc_seq_push(p: Seq<VVal>, x: VVal)
    ensures
        enc_seq(p.push(x)) == enc_seq(p) + enc(x),
    decreases p,
{
    if p.len() == 0 {
        reveal_with_fuel(enc_seq, 3);
        assert(seq![x].skip(1) =~= Seq::<VVal>::empty());
        assert(p.push(x) =~= seq![x]);
        assert(enc_seq(p.push(x)) =~= enc_seq(p) + enc(x));
    } else {
        assert(p.push(x).skip(1) =~= p.skip(1).push(x));
        lemma_enc_seq_push(p.skip(1), x);
        assert(enc_seq(p.push(x)) =~= enc_seq(p) + enc(x));
    }
}

/// Encoding a run of map entries extended by one more appends that entry's
/// key and value encodings.
pub proof fn lemma_enc_entries_push(p: Seq<(VVal, VVal)>, x: (VVal, VVal))
    ensures
        enc_entries(p.push(x)) == enc_entries(p) + enc(x.0) + enc(x.1),
    decreases p,
{
    if p.len() == 0 {
        reveal_with_fuel(enc_entries, 3);
        assert(seq![x].skip(1) =~= Seq::<(VVal, VVal)>::empty());
        assert(p.push(x) =~= seq![x]);
        assert(enc_entries(p.push(x)) =~= enc_entries(p) + enc(x.0) + enc(x.1));
    } else {
        assert(p.push(x).skip(1) =~= p.skip(1).push(x));
        lemma_enc_entries_push(p.skip(1), x);
        assert(enc_entries(p.push(x)) =~= enc_entries(p) + enc(x.0) + enc(x.1));
    }
}

} // verus!
