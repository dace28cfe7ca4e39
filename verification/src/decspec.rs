//! The meaning of decoding: a total specification function from a descriptor
//! and a byte string to a value or a `DecodeError`. The executable decoder
//! in `decode` returns exactly what this function says; the laws in `laws`
//! relate it to `enc`.

use vstd::prelude::*;
use crate::numeric::{from_be, lex_lt, unrep128, unrep32, unrep64};
use crate::ty::{
    field_seq_size, ty_depth, ty_seq_size, ty_size, variant_seq_size, FieldDesc, TypeDesc,
    VariantDesc, MAX_DEPTH, MAX_LEN, SYMBOL_MAX, TAG_LIMIT,
};
use crate::value::{valid_symbol, DecodeError, I256Parts, U256Parts, VVal};

verus! {

broadcast use crate::ty::ty_size_pos;

/// The `n` bytes of `s` that start at `i`.
pub open spec fn segment(s: Seq<u8>, i: int, n: int) -> Seq<u8> {
    s.subrange(i, i + n)
}

/// The unsigned number carried big-endian in the `n` bytes at `i`.
pub open spec fn read_word(s: Seq<u8>, i: int, n: int) -> nat {
    from_be(segment(s, i, n))
}

/// Decode one value of shape `t` from `s` starting at `i`. On success the
/// result carries the value and the position just past its bytes.
pub open spec fn dec_val(t: TypeDesc, s: Seq<u8>, i: int) -> Result<(VVal, int), DecodeError>
    decreases ty_size(t), 0nat,
{
    match t {
        TypeDesc::Void => Ok((VVal::Void, i)),
        TypeDesc::Bool => if i + 1 > s.len() {
            Err(DecodeError::UnexpectedEnd)
        } else if s[i] == 0u8 {
            Ok((VVal::Bool(false), i + 1))
        } else if s[i] == 1u8 {
            Ok((VVal::Bool(true), i + 1))
        } else {
            Err(DecodeError::ShapeMismatch)
        },
        TypeDesc::U32 => if i + 4 > s.len() {
            Err(DecodeError::UnexpectedEnd)
        } else {
            Ok((VVal::U32(read_word(s, i, 4) as u32), i + 4))
        },
        TypeDesc::I32 => if i + 4 > s.len() {
            Err(DecodeError::UnexpectedEnd)
        } else {
            Ok((VVal::I32(unrep32(read_word(s, i, 4)) as i32), i + 4))
        },
        TypeDesc::U64 => if i + 8 > s.len() {
            Err(DecodeError::UnexpectedEnd)
        } else {
            Ok((VVal::U64(read_word(s, i, 8) as u64), i + 8))
        },
        TypeDesc::I64 => if i + 8 > s.len() {
            Err(DecodeError::UnexpectedEnd)
        } else {
            Ok((VVal::I64(unrep64(read_word(s, i, 8)) as i64), i + 8))
        },
        TypeDesc::U128 => if i + 16 > s.len() {
            Err(DecodeError::UnexpectedEnd)
        } else {
            Ok((VVal::U128(read_word(s, i, 16) as u128), i + 16))
        },
        TypeDesc::I128 => if i + 16 > s.len() {
            Err(DecodeError::UnexpectedEnd)
        } else {
            Ok((VVal::I128(unrep128(read_word(s, i, 16)) as i128), i + 16))
        },
        TypeDesc::U256 => if i + 32 > s.len() {
            Err(DecodeError::UnexpectedEnd)
        } else {
            Ok(
                (
                    VVal::U256(
                        U256Parts {
                            hi: read_word(s, i, 16) as u128,
                            lo: read_word(s, i + 16, 16) as u128,
                        },
                    ),
                    i + 32,
                ),
            )
        },
        TypeDesc::I256 => if i + 32 > s.len() {
            Err(DecodeError::UnexpectedEnd)
        } else {
            Ok(
                (
                    VVal::I256(
                        I256Parts {
                            hi: unrep128(read_word(s, i, 16)) as i128,
                            lo: read_word(s, i + 16, 16) as u128,
                        },
                    ),
                    i + 32,
                ),
            )
        },
        TypeDesc::Symbol => if i + 4 > s.len() {
            Err(DecodeError::UnexpectedEnd)
        } else {
            let l = read_word(s, i, 4) as int;
            if l > SYMBOL_MAX {
                Err(DecodeError::InvalidSymbol)
            } else if i + 4 + l > s.len() {
                Err(DecodeError::UnexpectedEnd)
            } else if valid_symbol(segment(s, i + 4, l)) {
                Ok((VVal::Symbol(segment(s, i + 4, l)), i + 4 + l))
            } else {
                Err(DecodeError::InvalidSymbol)
            }
        },
        TypeDesc::Text => if i + 4 > s.len() {
            Err(DecodeError::UnexpectedEnd)
        } else {
            let l = read_word(s, i, 4) as int;
            if l > MAX_LEN {
                Err(DecodeError::LengthLimitExceeded)
            } else if i + 4 + l > s.len() {
                Err(DecodeError::UnexpectedEnd)
            } else {
                Ok((VVal::Text(segment(s, i + 4, l)), i + 4 + l))
            }
        },
        TypeDesc::Bytes => if i + 4 > s.len() {
            Err(DecodeError::UnexpectedEnd)
        } else {
            let l = read_word(s, i, 4) as int;
            if l > MAX_LEN {
                Err(DecodeError::LengthLimitExceeded)
            } else if i + 4 + l > s.len() {
                Err(DecodeError::UnexpectedEnd)
            } else {
                Ok((VVal::Bytes(segment(s, i + 4, l)), i + 4 + l))
            }
        },
        TypeDesc::FixedBytes(n) => if i + 4 > s.len() {
            Err(DecodeError::UnexpectedEnd)
        } else {
            let l = read_word(s, i, 4) as int;
            if l > MAX_LEN {
                Err(DecodeError::LengthLimitExceeded)
            } else if l != n {
                Err(DecodeError::ShapeMismatch)
            } else if i + 4 + l > s.len() {
                Err(DecodeError::UnexpectedEnd)
            } else {
                Ok((VVal::FixedBytes(segment(s, i + 4, l)), i + 4 + l))
            }
        },
        TypeDesc::Address => if i + 32 > s.len() {
            Err(DecodeError::UnexpectedEnd)
        } else {
            Ok((VVal::Address(segment(s, i, 32)), i + 32))
        },
        TypeDesc::Optional(t1) => if i + 1 > s.len() {
            Err(DecodeError::UnexpectedEnd)
        } else if s[i] == 0u8 {
            Ok((VVal::Optional(Seq::empty()), i + 1))
        } else if s[i] == 1u8 {
            match dec_val(*t1, s, i + 1) {
                Ok((v, j)) => Ok((VVal::Optional(seq![v]), j)),
                Err(e) => Err(e),
            }
        } else {
            Err(DecodeError::ShapeMismatch)
        },
        TypeDesc::Vector(t1) => if i + 4 > s.len() {
            Err(DecodeError::UnexpectedEnd)
        } else {
            let l = read_word(s, i, 4);
            if l > MAX_LEN {
                Err(DecodeError::LengthLimitExceeded)
            } else {
                match dec_elems(*t1, l, s, i + 4) {
                    Ok((vs, j)) => Ok((VVal::Vector(vs), j)),
                    Err(e) => Err(e),
                }
            }
        },
        TypeDesc::MapOf(tk, tv) => if i + 4 > s.len() {
            Err(DecodeError::UnexpectedEnd)
        } else {
            let l = read_word(s, i, 4);
            if l > MAX_LEN {
                Err(DecodeError::LengthLimitExceeded)
            } else {
                match dec_entries(*tk, *tv, l, s, i + 4, Option::None) {
                    Ok((es, j)) => Ok((VVal::MapOf(es), j)),
                    Err(e) => Err(e),
                }
            }
        },
        TypeDesc::Tuple(ts) => match dec_zip(ts@, s, i) {
            Ok((vs, j)) => Ok((VVal::Tuple(vs), j)),
            Err(e) => Err(e),
        },
        TypeDesc::StructOf(fs) => match dec_fields(fs@, s, i) {
            Ok((vs, j)) => Ok((VVal::StructOf(vs), j)),
            Err(e) => Err(e),
        },
        TypeDesc::EnumUnit(c) => if c > TAG_LIMIT {
            Err(DecodeError::ShapeMismatch)
        } else if i + 1 > s.len() {
            Err(DecodeError::UnexpectedEnd)
        } else if (s[i] as u32) < c {
            Ok((VVal::EnumUnit(s[i] as u32), i + 1))
        } else {
            Err(DecodeError::ShapeMismatch)
        },
        TypeDesc::EnumTagged(vs) => if vs@.len() > TAG_LIMIT {
            Err(DecodeError::ShapeMismatch)
        } else if i + 1 > s.len() {
            Err(DecodeError::UnexpectedEnd)
        } else {
            match dec_variant(vs@, s[i] as nat, s, i + 1) {
                Ok((ps, j)) => Ok((VVal::EnumTagged(s[i] as u32, ps), j)),
                Err(e) => Err(e),
            }
        },
    }
}

/// Decode `n` values of one shape, in sequence.
pub open spec fn dec_elems(t1: TypeDesc, n: nat, s: Seq<u8>, i: int) -> Result<
    (Seq<VVal>, int),
    DecodeError,
>
    decreases ty_size(t1), n,
{
    if n == 0 {
        Ok((Seq::empty(), i))
    } else {
        match dec_val(t1, s, i) {
            Ok((v, j)) => match dec_elems(t1, (n - 1) as nat, s, j) {
                Ok((vs, end)) => Ok((seq![v] + vs, end)),
                Err(e) => Err(e),
            },
            Err(e) => Err(e),
        }
    }
}

/// Decode one value per shape, in order.
pub open spec fn dec_zip(ts: Seq<TypeDesc>, s: Seq<u8>, i: int) -> Result<
    (Seq<VVal>, int),
    DecodeError,
>
    decreases ty_seq_size(ts), 0nat,
{
    if ts.len() == 0 {
        Ok((Seq::empty(), i))
    } else {
        match dec_val(ts[0], s, i) {
            Ok((v, j)) => match dec_zip(ts.skip(1), s, j) {
                Ok((vs, end)) => Ok((seq![v] + vs, end)),
                Err(e) => Err(e),
            },
            Err(e) => Err(e),
        }
    }
}

/// Decode one field value per declared field, in order.
pub open spec fn dec_fields(fs: Seq<FieldDesc>, s: Seq<u8>, i: int) -> Result<
    (Seq<VVal>, int),
    DecodeError,
>
    decreases field_seq_size(fs), 0nat,
{
    if fs.len() == 0 {
        Ok((Seq::empty(), i))
    } else {
        match dec_val(fs[0].shape, s, i) {
            Ok((v, j)) => match dec_fields(fs.skip(1), s, j) {
                Ok((vs, end)) => Ok((seq![v] + vs, end)),
                Err(e) => Err(e),
            },
            Err(e) => Err(e),
        }
    }
}

/// Walk the declared variants down to the tagged one and decode its payload;
/// a tag at or past the declared count finds no variant.
pub open spec fn dec_variant(vs: Seq<VariantDesc>, k: nat, s: Seq<u8>, i: int) -> Result<
    (Seq<VVal>, int),
    DecodeError,
>
    decreases variant_seq_size(vs), 0nat,
{
    if vs.len() == 0 {
        Err(DecodeError::ShapeMismatch)
    } else if k == 0 {
        dec_zip(vs[0].payload@, s, i)
    } else {
        dec_variant(vs.skip(1), (k - 1) as nat, s, i)
    }
}

/// Decode `n` map entries; each key must conform to the key shape, each
/// value to the value shape, and each key's bytes must come strictly after
/// the previous key's bytes in lexicographic order.
pub open spec fn dec_entries(
    tk: TypeDesc,
    tv: TypeDesc,
    n: nat,
    s: Seq<u8>,
    i: int,
    prev: Option<Seq<u8>>,
) -> Result<(Seq<(VVal, VVal)>, int), DecodeError>
    decreases ty_size(tk) + ty_size(tv), n,
{
    if n == 0 {
        Ok((Seq::empty(), i))
    } else {
        match dec_val(tk, s, i) {
            Ok((kv, j)) => {
                let kseg = segment(s, i, j - i);
                if prev is Some && prev->0 == kseg {
                    Err(DecodeError::DuplicateMapKey)
                } else if prev is Some && !lex_lt(prev->0, kseg) {
                    Err(DecodeError::UnorderedMapKeys)
                } else {
                    match dec_val(tv, s, j) {
                        Ok((vv, m)) => match dec_entries(
                            tk,
                            tv,
                            (n - 1) as nat,
                            s,
                            m,
                            Option::Some(kseg),
                        ) {
                            Ok((es, end)) => Ok((seq![(kv, vv)] + es, end)),
                            Err(e) => Err(e),
                        },
                        Err(e) => Err(e),
                    }
                }
            },
            Err(e) => Err(e),
        }
    }
}

/// Decode a whole buffer against a descriptor: the expected shape must
/// consume the buffer exactly, and the descriptor must not nest past the
/// recursion bound.
pub open spec fn dec(t: TypeDesc, s: Seq<u8>) -> Result<VVal, DecodeError> {
    if ty_depth(t) > MAX_DEPTH {
        Err(DecodeError::RecursionLimitExceeded)
    } else {
        match dec_val(t, s, 0) {
            Ok((v, j)) => if j == s.len() {
                Ok(v)
            } else {
                Err(DecodeError::TrailingData)
            },
            Err(e) => Err(e),
        }
    }
}

} // verus!
