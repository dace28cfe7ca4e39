//! The executable decoder: returns exactly what the specification decoder
//! `dec` in `decspec` says, for every buffer and every descriptor.

use vstd::prelude::*;
use crate::decspec::{
    dec, dec_elems, dec_entries, dec_fields, dec_val, dec_zip, read_word, segment,
};
use crate::laws::{lemma_dec_variant_index, lemma_variant_walk_rejects};
use crate::numeric::{
    from_be, lemma_lex_common_prefix, lemma_lex_irrefl, lemma_lex_asym, lemma_p256_le,
    lemma_p256_widths, lex_lt, p256, unrep128, unrep32, unrep64,
};
use crate::ty::{
    field_seq_size, lemma_variant_seq_size_bound, ty_depth, ty_seq_depth, ty_seq_size, ty_size,
    variant_seq_size, FieldDesc, TypeDesc, VariantDesc, MAX_DEPTH, MAX_LEN, SYMBOL_MAX, TAG_LIMIT,
};
use crate::value::{
    lemma_vview_entries_push, lemma_vview_seq_push, symbol_byte_ok, valid_symbol, vview_entries,
    vview_seq, DecodeError, I256Parts, U256Parts, Value, VVal,
};

verus! {

broadcast use crate::ty::ty_size_pos, crate::numeric::from_be_bound,
    crate::value::vview_seq_len, crate::value::vview_entries_len;

/// Read the unsigned big-endian number in the `n` bytes at `i`.
fn read_be(s: &Vec<u8>, i: usize, n: usize) -> (r: u128)
    requires
        i + n <= s@.len(),
        n <= 16,
    ensures
        r as nat == read_word(s@, i as int, n as int),
{
    let slen: usize = s.len();
    let mut acc: u128 = 0;
    let mut k: usize = 0;
    proof {
        assert(segment(s@, i as int, 0) =~= Seq::<u8>::empty());
    }
    while k < n
        invariant
            s@.len() <= usize::MAX,
            i + n <= s@.len(),
            n <= 16,
            k <= n,
            acc as nat == from_be(segment(s@, i as int, k as int)),
            (acc as nat) < p256(k as nat),
        decreases n - k,
    {
        proof {
            lemma_p256_le(k as nat + 1, 16);
            lemma_p256_widths();
        }
        let byte = s[i + k];
        acc = acc * 256 + (byte as u128);
        proof {
            assert(segment(s@, i as int, k + 1).drop_last() =~= segment(s@, i as int, k as int));
            assert(segment(s@, i as int, k + 1).last() == s@[i + k]);
        }
        k = k + 1;
    }
    acc
}

/// The signed 32-bit value of a two's-complement representation.
fn unrep32_exec(u: u128) -> (r: i32)
    requires
        (u as nat) < p256(4),
    ensures
        r as int == unrep32(u as nat),
{
    proof {
        lemma_p256_widths();
    }
    if u < 0x8000_0000 {
        u as i32
    } else {
        ((u as i64) - 0x1_0000_0000) as i32
    }
}

/// The signed 64-bit value of a two's-complement representation.
fn unrep64_exec(u: u128) -> (r: i64)
    requires
        (u as nat) < p256(8),
    ensures
        r as int == unrep64(u as nat),
{
    proof {
        lemma_p256_widths();
    }
    if u < 0x8000_0000_0000_0000 {
        u as i64
    } else {
        ((u as i128) - 0x1_0000_0000_0000_0000) as i64
    }
}

/// The signed 128-bit value of a two's-complement representation.
fn unrep128_exec(u: u128) -> (r: i128)
    ensures
        r as int == unrep128(u as nat),
{
    if u < 0x8000_0000_0000_0000_0000_0000_0000_0000 {
        u as i128
    } else {
        -((u128::MAX - u) as i128) - 1
    }
}

/// A fresh copy of the bytes in `[a, b)`.
fn copy_range(s: &Vec<u8>, a: usize, b: usize) -> (r: Vec<u8>)
    requires
        a <= b <= s@.len(),
    ensures
        r@ == s@.subrange(a as int, b as int),
{
    let mut out: Vec<u8> = Vec::new();
    let mut k: usize = 0;
    while k < b - a
        invariant
            a <= b <= s@.len(),
            k <= b - a,
            out@ == s@.subrange(a as int, a + k),
        decreases b - a - k,
    {
        let byte = s[a + k];
        out.push(byte);
        proof {
            assert(s@.subrange(a as int, a + k + 1) =~= s@.subrange(a as int, a + k).push(
                s@[a + k],
            ));
        }
        k = k + 1;
    }
    out
}

/// Whether a byte belongs to the symbol alphabet.
fn is_symbol_byte(b: u8) -> (r: bool)
    ensures
        r == symbol_byte_ok(b),
{
    (48 <= b && b <= 57) || (65 <= b && b <= 90) || (97 <= b && b <= 122) || b == 95
}

/// Three-way outcome of a byte-string comparison.
enum Cmp {
    Lt,
    Eq,
    Gt,
}

/// Compare two ranges of one buffer in lexicographic order.
fn cmp_ranges(s: &Vec<u8>, a0: usize, a1: usize, b0: usize, b1: usize) -> (r: Cmp)
    requires
        a0 <= a1 <= s@.len(),
        b0 <= b1 <= s@.len(),
    ensures
        ({
            let a = s@.subrange(a0 as int, a1 as int);
            let b = s@.subrange(b0 as int, b1 as int);
            match r {
                Cmp::Lt => lex_lt(a, b),
                Cmp::Eq => a == b,
                Cmp::Gt => lex_lt(b, a),
            }
        }),
{
    let ghost a = s@.subrange(a0 as int, a1 as int);
    let ghost b = s@.subrange(b0 as int, b1 as int);
    let la = a1 - a0;
    let lb = b1 - b0;
    let mut j: usize = 0;
    while j < la && j < lb
        invariant
            a0 <= a1 <= s@.len(),
            b0 <= b1 <= s@.len(),
            la == a1 - a0,
            lb == b1 - b0,
            a == s@.subrange(a0 as int, a1 as int),
            b == s@.subrange(b0 as int, b1 as int),
            j <= la,
            j <= lb,
            forall|t: int| 0 <= t < j ==> a[t] == b[t],
        decreases la - j,
    {
        let x = s[a0 + j];
        let y = s[b0 + j];
        if x < y {
            proof {
                lemma_lex_common_prefix(a, b, j as int);
            }
            return Cmp::Lt;
        }
        if x > y {
            proof {
                lemma_lex_common_prefix(b, a, j as int);
            }
            return Cmp::Gt;
        }
        j = j + 1;
    }
    if la == lb {
        proof {
            assert(a =~= b);
        }
        Cmp::Eq
    } else if la < lb {
        proof {
            lemma_lex_common_prefix(a, b, j as int);
        }
        Cmp::Lt
    } else {
        proof {
            lemma_lex_common_prefix(b, a, j as int);
        }
        Cmp::Gt
    }
}

/// Whether the descriptor's nesting depth stays within the budget.
fn depth_ok(t: &TypeDesc, budget: u32) -> (r: bool)
    ensures
        r == (ty_depth(*t) <= budget),
    decreases ty_size(*t), 0nat,
{
    match t {
        TypeDesc::Optional(t1) => budget >= 1 && depth_ok(t1, budget - 1),
        TypeDesc::Vector(t1) => budget >= 1 && depth_ok(t1, budget - 1),
        TypeDesc::MapOf(tk, tv) => budget >= 1 && depth_ok(tk, budget - 1) && depth_ok(
            tv,
            budget - 1,
        ),
        TypeDesc::Tuple(ts) => {
            proof {
                assert(ts@.skip(0) =~= ts@);
            }
            budget >= 1 && depth_list_ok(ts, 0, budget - 1)
        },
        TypeDesc::StructOf(fs) => {
            proof {
                assert(fs@.skip(0) =~= fs@);
            }
            budget >= 1 && depth_fields_ok(fs, 0, budget - 1)
        },
        TypeDesc::EnumTagged(vs) => {
            proof {
                assert(vs@.skip(0) =~= vs@);
            }
            budget >= 1 && depth_variants_ok(vs, 0, budget - 1)
        },
        _ => budget >= 1,
    }
}

/// Whether every shape from `from` on stays within the budget.
fn depth_list_ok(ts: &Vec<TypeDesc>, from: usize, budget: u32) -> (r: bool)
    requires
        from <= ts@.len(),
    ensures
        r == (ty_seq_depth(ts@.skip(from as int)) <= budget),
    decreases ty_seq_size(ts@.skip(from as int)), 1nat,
{
    if from == ts.len() {
        proof {
            assert(ts@.skip(from as int) =~= Seq::<TypeDesc>::empty());
        }
        true
    } else {
        proof {
            assert(ts@.skip(from as int)[0] == ts@[from as int]);
            assert(ts@.skip(from as int).skip(1) =~= ts@.skip(from + 1));
        }
        depth_ok(&ts[from], budget) && depth_list_ok(ts, from + 1, budget)
    }
}

/// Whether every field shape from `from` on stays within the budget.
fn depth_fields_ok(fs: &Vec<FieldDesc>, from: usize, budget: u32) -> (r: bool)
    requires
        from <= fs@.len(),
    ensures
        r == (crate::ty::field_seq_depth(fs@.skip(from as int)) <= budget),
    decreases field_seq_size(fs@.skip(from as int)), 1nat,
{
    if from == fs.len() {
        proof {
            assert(fs@.skip(from as int) =~= Seq::<FieldDesc>::empty());
        }
        true
    } else {
        proof {
            assert(fs@.skip(from as int)[0] == fs@[from as int]);
            assert(fs@.skip(from as int).skip(1) =~= fs@.skip(from + 1));
        }
        depth_ok(&fs[from].shape, budget) && depth_fields_ok(fs, from + 1, budget)
    }
}

/// Whether every variant's payload from `from` on stays within the budget.
fn depth_variants_ok(vs: &Vec<VariantDesc>, from: usize, budget: u32) -> (r: bool)
    requires
        from <= vs@.len(),
    ensures
        r == (crate::ty::variant_seq_depth(vs@.skip(from as int)) <= budget),
    decreases variant_seq_size(vs@.skip(from as int)), 1nat,
{
    if from == vs.len() {
        proof {
            assert(vs@.skip(from as int) =~= Seq::<VariantDesc>::empty());
        }
        true
    } else {
        proof {
            assert(vs@.skip(from as int)[0] == vs@[from as int]);
            assert(vs@.skip(from as int).skip(1) =~= vs@.skip(from + 1));
            assert(vs@[from as int].payload@.skip(0) =~= vs@[from as int].payload@);
        }
        depth_list_ok(&vs[from].payload, 0, budget) && depth_variants_ok(vs, from + 1, budget)
    }
}

/// Decode one value of shape `t` at `i`, exactly as `dec_val` says.
#[verifier::rlimit(80)]
fn d_val(t: &TypeDesc, s: &Vec<u8>, i: usize) -> (r: Result<(Value, usize), DecodeError>)
    requires
        i <= s@.len(),
    ensures
        match r {
            Ok((v, j)) => i <= j <= s@.len() && dec_val(*t, s@, i as int) == Ok::<
                (VVal, int),
                DecodeError,
            >((v@, j as int)),
            Err(e) => dec_val(*t, s@, i as int) == Err::<(VVal, int), DecodeError>(e),
        },
    decreases ty_size(*t), 0nat,
{
    proof {
        lemma_p256_widths();
    }
    match t {
        TypeDesc::Void => Ok((Value::Void, i)),
        TypeDesc::Bool => {
            if s.len() - i < 1 {
                Err(DecodeError::UnexpectedEnd)
            } else {
                let b = s[i];
                if b == 0 {
                    Ok((Value::Bool(false), i + 1))
                } else if b == 1 {
                    Ok((Value::Bool(true), i + 1))
                } else {
                    Err(DecodeError::ShapeMismatch)
                }
            }
        },
        TypeDesc::U32 => {
            if s.len() - i < 4 {
                Err(DecodeError::UnexpectedEnd)
            } else {
                let u = read_be(s, i, 4);
                Ok((Value::U32(u as u32), i + 4))
            }
        },
        TypeDesc::I32 => {
            if s.len() - i < 4 {
                Err(DecodeError::UnexpectedEnd)
            } else {
                let u = read_be(s, i, 4);
                Ok((Value::I32(unrep32_exec(u)), i + 4))
            }
        },
        TypeDesc::U64 => {
            if s.len() - i < 8 {
                Err(DecodeError::UnexpectedEnd)
            } else {
                let u = read_be(s, i, 8);
                Ok((Value::U64(u as u64), i + 8))
            }
        },
        TypeDesc::I64 => {
            if s.len() - i < 8 {
                Err(DecodeError::UnexpectedEnd)
            } else {
                let u = read_be(s, i, 8);
                Ok((Value::I64(unrep64_exec(u)), i + 8))
            }
        },
        TypeDesc::U128 => {
            if s.len() - i < 16 {
                Err(DecodeError::UnexpectedEnd)
            } else {
                let u = read_be(s, i, 16);
                Ok((Value::U128(u), i + 16))
            }
        },
        TypeDesc::I128 => {
            if s.len() - i < 16 {
                Err(DecodeError::UnexpectedEnd)
            } else {
                let u = read_be(s, i, 16);
                Ok((Value::I128(unrep128_exec(u)), i + 16))
            }
        },
        TypeDesc::U256 => {
            if s.len() - i < 32 {
                Err(DecodeError::UnexpectedEnd)
            } else {
                let hi = read_be(s, i, 16);
                let lo = read_be(s, i + 16, 16);
                Ok((Value::U256(U256Parts { hi, lo }), i + 32))
            }
        },
        TypeDesc::I256 => {
            if s.len() - i < 32 {
                Err(DecodeError::UnexpectedEnd)
            } else {
                let hiu = read_be(s, i, 16);
                let lo = read_be(s, i + 16, 16);
                Ok((Value::I256(I256Parts { hi: unrep128_exec(hiu), lo }), i + 32))
            }
        },
        TypeDesc::Symbol => {
            if s.len() - i < 4 {
                Err(DecodeError::UnexpectedEnd)
            } else {
                let u = read_be(s, i, 4);
                if u > SYMBOL_MAX as u128 {
                    Err(DecodeError::InvalidSymbol)
                } else {
                    let lu = u as usize;
                    if s.len() - (i + 4) < lu {
                        Err(DecodeError::UnexpectedEnd)
                    } else {
                        let ghost seg = segment(s@, i + 4, lu as int);
                        let mut k: usize = 0;
                        let mut ok: bool = true;
                        while k < lu
                            invariant
                                s@.len() <= usize::MAX,
                                i + 4 + lu <= s@.len(),
                                k <= lu,
                                seg == segment(s@, i + 4, lu as int),
                                ok ==> forall|j: int| 0 <= j < k ==> symbol_byte_ok(seg[j]),
                                !ok ==> !valid_symbol(seg),
                            decreases lu - k,
                        {
                            if !is_symbol_byte(s[i + 4 + k]) {
                                proof {
                                    assert(seg[k as int] == s@[i + 4 + k]);
                                }
                                ok = false;
                            }
                            k = k + 1;
                        }
                        if ok {
                            let bytes = copy_range(s, i + 4, i + 4 + lu);
                            proof {
                                assert(valid_symbol(seg));
                            }
                            Ok((Value::Symbol(bytes), i + 4 + lu))
                        } else {
                            Err(DecodeError::InvalidSymbol)
                        }
                    }
                }
            }
        },
        TypeDesc::Text => {
            if s.len() - i < 4 {
                Err(DecodeError::UnexpectedEnd)
            } else {
                let u = read_be(s, i, 4);
                if u > MAX_LEN as u128 {
                    Err(DecodeError::LengthLimitExceeded)
                } else {
                    let lu = u as usize;
                    if s.len() - (i + 4) < lu {
                        Err(DecodeError::UnexpectedEnd)
                    } else {
                        let bytes = copy_range(s, i + 4, i + 4 + lu);
                        Ok((Value::Text(bytes), i + 4 + lu))
                    }
                }
            }
        },
        TypeDesc::Bytes => {
            if s.len() - i < 4 {
                Err(DecodeError::UnexpectedEnd)
            } else {
                let u = read_be(s, i, 4);
                if u > MAX_LEN as u128 {
                    Err(DecodeError::LengthLimitExceeded)
                } else {
                    let lu = u as usize;
                    if s.len() - (i + 4) < lu {
                        Err(DecodeError::UnexpectedEnd)
                    } else {
                        let bytes = copy_range(s, i + 4, i + 4 + lu);
                        Ok((Value::Bytes(bytes), i + 4 + lu))
                    }
                }
            }
        },
        TypeDesc::FixedBytes(n) => {
            if s.len() - i < 4 {
                Err(DecodeError::UnexpectedEnd)
            } else {
                let u = read_be(s, i, 4);
                if u > MAX_LEN as u128 {
                    Err(DecodeError::LengthLimitExceeded)
                } else if u != *n as u128 {
                    Err(DecodeError::ShapeMismatch)
                } else {
                    let lu = u as usize;
                    if s.len() - (i + 4) < lu {
                        Err(DecodeError::UnexpectedEnd)
                    } else {
                        let bytes = copy_range(s, i + 4, i + 4 + lu);
                        Ok((Value::FixedBytes(bytes), i + 4 + lu))
                    }
                }
            }
        },
        TypeDesc::Address => {
            if s.len() - i < 32 {
                Err(DecodeError::UnexpectedEnd)
            } else {
                let bytes = copy_range(s, i, i + 32);
                Ok((Value::Address(bytes), i + 32))
            }
        },
        TypeDesc::Optional(t1) => {
            if s.len() - i < 1 {
                Err(DecodeError::UnexpectedEnd)
            } else {
                let flag = s[i];
                if flag == 0 {
                    let es: Vec<Value> = Vec::new();
                    proof {
                        assert(vview_seq(es@) =~= Seq::<VVal>::empty());
                    }
                    Ok((Value::Optional(es), i + 1))
                } else if flag == 1 {
                    match d_val(t1, s, i + 1) {
                        Ok((v, j)) => {
                            let ghost vv = v@;
                            let mut es: Vec<Value> = Vec::new();
                            es.push(v);
                            proof {
                                lemma_vview_seq_push(Seq::empty(), es@[0]);
                                assert(Seq::<Value>::empty().push(es@[0]) =~= es@);
                                assert(vview_seq(Seq::<Value>::empty()) =~= Seq::<VVal>::empty());
                                assert(vview_seq(es@) =~= seq![vv]);
                            }
                            Ok((Value::Optional(es), j))
                        },
                        Err(e) => Err(e),
                    }
                } else {
                    Err(DecodeError::ShapeMismatch)
                }
            }
        },
        TypeDesc::Vector(t1) => {
            if s.len() - i < 4 {
                Err(DecodeError::UnexpectedEnd)
            } else {
                let u = read_be(s, i, 4);
                if u > MAX_LEN as u128 {
                    Err(DecodeError::LengthLimitExceeded)
                } else {
                    match d_elems(t1, u as u32, s, i + 4) {
                        Ok((vs, j)) => Ok((Value::Vector(vs), j)),
                        Err(e) => Err(e),
                    }
                }
            }
        },
        TypeDesc::MapOf(tk, tv) => {
            if s.len() - i < 4 {
                Err(DecodeError::UnexpectedEnd)
            } else {
                let u = read_be(s, i, 4);
                if u > MAX_LEN as u128 {
                    Err(DecodeError::LengthLimitExceeded)
                } else {
                    match d_entries(tk, tv, u as u32, s, i + 4) {
                        Ok((es, j)) => Ok((Value::MapOf(es), j)),
                        Err(e) => Err(e),
                    }
                }
            }
        },
        TypeDesc::Tuple(ts) => {
            proof {
                assert(ts@.skip(0) =~= ts@);
            }
            match d_list(ts, 0, s, i) {
                Ok((vs, j)) => Ok((Value::Tuple(vs), j)),
                Err(e) => Err(e),
            }
        },
        TypeDesc::StructOf(fs) => {
            proof {
                assert(fs@.skip(0) =~= fs@);
            }
            match d_fields(fs, 0, s, i) {
                Ok((vs, j)) => Ok((Value::StructOf(vs), j)),
                Err(e) => Err(e),
            }
        },
        TypeDesc::EnumUnit(c) => {
            if *c > TAG_LIMIT {
                Err(DecodeError::ShapeMismatch)
            } else if s.len() - i < 1 {
                Err(DecodeError::UnexpectedEnd)
            } else {
                let b = s[i];
                if (b as u32) < *c {
                    Ok((Value::EnumUnit(b as u32), i + 1))
                } else {
                    Err(DecodeError::ShapeMismatch)
                }
            }
        },
        TypeDesc::EnumTagged(vs) => {
            if vs.len() > TAG_LIMIT as usize {
                Err(DecodeError::ShapeMismatch)
            } else if s.len() - i < 1 {
                Err(DecodeError::UnexpectedEnd)
            } else {
                let tag = s[i];
                if (tag as usize) < vs.len() {
                    proof {
                        lemma_dec_variant_index(vs@, tag as nat, s@, i + 1);
                        lemma_variant_seq_size_bound(vs@, tag as int);
                        assert(vs@[tag as int].payload@.skip(0) =~= vs@[tag as int].payload@);
                    }
                    match d_list(&vs[tag as usize].payload, 0, s, i + 1) {
                        Ok((ps, j)) => Ok((Value::EnumTagged(tag as u32, ps), j)),
                        Err(e) => Err(e),
                    }
                } else {
                    proof {
                        lemma_variant_walk_rejects(vs@, tag as nat, s@, i + 1);
                    }
                    Err(DecodeError::ShapeMismatch)
                }
            }
        },
    }
}

/// Decode one value per shape from `from` on, exactly as `dec_zip` says.
fn d_list(ts: &Vec<TypeDesc>, from: usize, s: &Vec<u8>, i: usize) -> (r: Result<
    (Vec<Value>, usize),
    DecodeError,
>)
    requires
        from <= ts@.len(),
        i <= s@.len(),
    ensures
        match r {
            Ok((vs, j)) => i <= j <= s@.len() && dec_zip(ts@.skip(from as int), s@, i as int)
                == Ok::<(Seq<VVal>, int), DecodeError>((vview_seq(vs@), j as int)),
            Err(e) => dec_zip(ts@.skip(from as int), s@, i as int) == Err::<
                (Seq<VVal>, int),
                DecodeError,
            >(e),
        },
    decreases ty_seq_size(ts@.skip(from as int)), 1nat,
{
    if from == ts.len() {
        let vs: Vec<Value> = Vec::new();
        proof {
            assert(ts@.skip(from as int) =~= Seq::<TypeDesc>::empty());
            assert(vview_seq(vs@) =~= Seq::<VVal>::empty());
        }
        Ok((vs, i))
    } else {
        proof {
            assert(ts@.skip(from as int)[0] == ts@[from as int]);
            assert(ts@.skip(from as int).skip(1) =~= ts@.skip(from + 1));
        }
        match d_val(&ts[from], s, i) {
            Ok((v, j)) => {
                match d_list(ts, from + 1, s, j) {
                    Ok((mut vs, end)) => {
                        let ghost vs_old = vs@;
                        vs.insert(0, v);
                        proof {
                            assert(vs@ =~= seq![v] + vs_old);
                            assert((seq![v] + vs_old).skip(1) =~= vs_old);
                            assert(vview_seq(vs@) =~= seq![v@] + vview_seq(vs_old));
                        }
                        Ok((vs, end))
                    },
                    Err(e) => Err(e),
                }
            },
            Err(e) => Err(e),
        }
    }
}

/// Decode one field value per declared field from `from` on, exactly as
/// `dec_fields` says.
fn d_fields(fs: &Vec<FieldDesc>, from: usize, s: &Vec<u8>, i: usize) -> (r: Result<
    (Vec<Value>, usize),
    DecodeError,
>)
    requires
        from <= fs@.len(),
        i <= s@.len(),
    ensures
        match r {
            Ok((vs, j)) => i <= j <= s@.len() && dec_fields(fs@.skip(from as int), s@, i as int)
                == Ok::<(Seq<VVal>, int), DecodeError>((vview_seq(vs@), j as int)),
            Err(e) => dec_fields(fs@.skip(from as int), s@, i as int) == Err::<
                (Seq<VVal>, int),
                DecodeError,
            >(e),
        },
    decreases field_seq_size(fs@.skip(from as int)), 1nat,
{
    if from == fs.len() {
        let vs: Vec<Value> = Vec::new();
        proof {
            assert(fs@.skip(from as int) =~= Seq::<FieldDesc>::empty());
            assert(vview_seq(vs@) =~= Seq::<VVal>::empty());
        }
        Ok((vs, i))
    } else {
        proof {
            assert(fs@.skip(from as int)[0] == fs@[from as int]);
            assert(fs@.skip(from as int).skip(1) =~= fs@.skip(from + 1));
        }
        match d_val(&fs[from].shape, s, i) {
            Ok((v, j)) => {
                match d_fields(fs, from + 1, s, j) {
                    Ok((mut vs, end)) => {
                        let ghost vs_old = vs@;
                        vs.insert(0, v);
                        proof {
                            assert(vs@ =~= seq![v] + vs_old);
                            assert((seq![v] + vs_old).skip(1) =~= vs_old);
                            assert(vview_seq(vs@) =~= seq![v@] + vview_seq(vs_old));
                        }
                        Ok((vs, end))
                    },
                    Err(e) => Err(e),
                }
            },
            Err(e) => Err(e),
        }
    }
}

/// Decode `n` values of one shape, exactly as `dec_elems` says.
fn d_elems(t1: &TypeDesc, n: u32, s: &Vec<u8>, i: usize) -> (r: Result<
    (Vec<Value>, usize),
    DecodeError,
>)
    requires
        i <= s@.len(),
    ensures
        match r {
            Ok((vs, j)) => i <= j <= s@.len() && dec_elems(*t1, n as nat, s@, i as int) == Ok::<
                (Seq<VVal>, int),
                DecodeError,
            >((vview_seq(vs@), j as int)),
            Err(e) => dec_elems(*t1, n as nat, s@, i as int) == Err::<
                (Seq<VVal>, int),
                DecodeError,
            >(e),
        },
    decreases ty_size(*t1), n + 1nat,
{
    let mut acc: Vec<Value> = Vec::new();
    let mut cur: usize = i;
    let mut k: u32 = 0;
    proof {
        assert(vview_seq(acc@) =~= Seq::<VVal>::empty());
    }
    while k < n
        invariant
            i <= cur <= s@.len(),
            k <= n,
            dec_elems(*t1, n as nat, s@, i as int) == (match dec_elems(
                *t1,
                (n - k) as nat,
                s@,
                cur as int,
            ) {
                Ok((rest, end)) => Ok::<(Seq<VVal>, int), DecodeError>(
                    (vview_seq(acc@) + rest, end),
                ),
                Err(e) => Err::<(Seq<VVal>, int), DecodeError>(e),
            }),
        decreases n - k,
    {
        match d_val(t1, s, cur) {
            Ok((v, j)) => {
                proof {
                    let gold = vview_seq(acc@);
                    lemma_vview_seq_push(acc@, v);
                    assert forall|rest: Seq<VVal>| #[trigger] (gold.push(v@) + rest) == gold + (
                    seq![v@] + rest) by {
                        assert(gold.push(v@) + rest =~= gold + (seq![v@] + rest));
                    }
                }
                acc.push(v);
                cur = j;
            },
            Err(e) => {
                return Err(e);
            },
        }
        k = k + 1;
    }
    proof {
        assert(vview_seq(acc@) + Seq::<VVal>::empty() =~= vview_seq(acc@));
    }
    Ok((acc, cur))
}

/// Decode `n` map entries with the order and uniqueness checks, exactly as
/// `dec_entries` says.
fn d_entries(tk: &TypeDesc, tv: &TypeDesc, n: u32, s: &Vec<u8>, i: usize) -> (r: Result<
    (Vec<(Value, Value)>, usize),
    DecodeError,
>)
    requires
        i <= s@.len(),
    ensures
        match r {
            Ok((es, j)) => i <= j <= s@.len() && dec_entries(
                *tk,
                *tv,
                n as nat,
                s@,
                i as int,
                Option::None,
            ) == Ok::<(Seq<(VVal, VVal)>, int), DecodeError>((vview_entries(es@), j as int)),
            Err(e) => dec_entries(*tk, *tv, n as nat, s@, i as int, Option::None) == Err::<
                (Seq<(VVal, VVal)>, int),
                DecodeError,
            >(e),
        },
    decreases ty_size(*tk) + ty_size(*tv), n + 1nat,
{
    let mut acc: Vec<(Value, Value)> = Vec::new();
    let mut cur: usize = i;
    let mut k: u32 = 0;
    let mut first: bool = true;
    let mut p0: usize = 0;
    let mut p1: usize = 0;
    let ghost mut prevg: Option<Seq<u8>> = Option::None;
    proof {
        assert(vview_entries(acc@) =~= Seq::<(VVal, VVal)>::empty());
    }
    while k < n
        invariant
            i <= cur <= s@.len(),
            k <= n,
            first ==> prevg is None,
            !first ==> p0 <= p1 <= s@.len() && prevg == Option::Some(
                segment(s@, p0 as int, (p1 - p0) as int),
            ),
            dec_entries(*tk, *tv, n as nat, s@, i as int, Option::None) == (match dec_entries(
                *tk,
                *tv,
                (n - k) as nat,
                s@,
                cur as int,
                prevg,
            ) {
                Ok((rest, end)) => Ok::<(Seq<(VVal, VVal)>, int), DecodeError>(
                    (vview_entries(acc@) + rest, end),
                ),
                Err(e) => Err::<(Seq<(VVal, VVal)>, int), DecodeError>(e),
            }),
        decreases n - k,
    {
        let kres = d_val(tk, s, cur);
        match kres {
            Ok((kv, j)) => {
                let ghost kseg = segment(s@, cur as int, j - cur);
                if !first {
                    let c = cmp_ranges(s, p0, p1, cur, j);
                    proof {
                        assert(prevg->0 == s@.subrange(p0 as int, p1 as int));
                        assert(kseg == s@.subrange(cur as int, j as int));
                        lemma_lex_irrefl(kseg);
                    }
                    match c {
                        Cmp::Eq => {
                            return Err(DecodeError::DuplicateMapKey);
                        },
                        Cmp::Gt => {
                            proof {
                                lemma_lex_asym(kseg, prevg->0);
                            }
                            return Err(DecodeError::UnorderedMapKeys);
                        },
                        Cmp::Lt => {},
                    }
                }
                match d_val(tv, s, j) {
                    Ok((vv, m)) => {
                        proof {
                            let gold = vview_entries(acc@);
                            lemma_vview_entries_push(acc@, (kv, vv));
                            assert forall|rest: Seq<(VVal, VVal)>| #[trigger] (gold.push(
                                (kv@, vv@),
                            ) + rest) == gold + (seq![(kv@, vv@)] + rest) by {
                                assert(gold.push((kv@, vv@)) + rest =~= gold + (seq![(kv@, vv@)]
                                    + rest));
                            }
                        }
                        acc.push((kv, vv));
                        p0 = cur;
                        p1 = j;
                        first = false;
                        proof {
                            prevg = Option::Some(kseg);
                        }
                        cur = m;
                    },
                    Err(e) => {
                        return Err(e);
                    },
                }
            },
            Err(e) => {
                return Err(e);
            },
        }
        k = k + 1;
    }
    proof {
        assert(vview_entries(acc@) + Seq::<(VVal, VVal)>::empty() =~= vview_entries(acc@));
    }
    Ok((acc, cur))
}

/// Decode a whole buffer against a descriptor. Returns the decoded value,
/// or the error that `dec` in `decspec` assigns to this input: the buffer
/// must carry exactly one value of the expected shape in canonical form,
/// and the descriptor must stay within the recursion bound.
pub fn decode(bytes: &Vec<u8>, t: &TypeDesc) -> (r: Result<Value, DecodeError>)
    ensures
        match r {
            Ok(v) => dec(*t, bytes@) == Ok::<VVal, DecodeError>(v@),
            Err(e) => dec(*t, bytes@) == Err::<VVal, DecodeError>(e),
        },
{
    if !depth_ok(t, MAX_DEPTH) {
        return Err(DecodeError::RecursionLimitExceeded);
    }
    match d_val(t, bytes, 0) {
        Ok((v, j)) => {
            if j == bytes.len() {
                Ok(v)
            } else {
                Err(DecodeError::TrailingData)
            }
        },
        Err(e) => Err(e),
    }
}

} // verus!
