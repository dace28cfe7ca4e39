//! The executable encoder: turns a value into exactly the bytes that `enc`
//! in `wire` describes. Encoding never fails and never mutates its input.

use vstd::prelude::*;
use crate::numeric::{be_bytes, rep128, rep32, rep64};
use crate::value::{
    lemma_vview_entries_push, lemma_vview_seq_push, vview, vview_entries, vview_seq, Value,
};
use crate::wire::{enc, enc_entries, enc_seq, lemma_enc_entries_push, lemma_enc_seq_push};

verus! {

broadcast use crate::numeric::be_bytes_len, crate::value::vview_seq_len,
    crate::value::vview_seq_index, crate::value::vview_entries_len,
    crate::value::vview_entries_index;

/// Append the `n`-byte big-endian form of `x`; only the low `n` bytes of
/// `x` are represented.
fn push_be(out: &mut Vec<u8>, x: u128, n: usize)
    ensures
        final(out)@ == old(out)@ + be_bytes(x as nat, n as nat),
    decreases n,
{
    if n == 0 {
        assert(out@ =~= old(out)@ + be_bytes(x as nat, 0));
    } else {
        push_be(out, x / 256, n - 1);
        out.push((x % 256) as u8);
        assert(out@ =~= old(out)@ + be_bytes(x as nat, n as nat));
    }
}

/// Append a byte string as it stands.
fn push_bytes(out: &mut Vec<u8>, b: &Vec<u8>)
    ensures
        final(out)@ == old(out)@ + b@,
{
    let mut k: usize = 0;
    proof {
        assert(out@ =~= old(out)@ + b@.take(0));
    }
    while k < b.len()
        invariant
            k <= b@.len(),
            out@ == old(out)@ + b@.take(k as int),
        decreases b@.len() - k,
    {
        let byte = b[k];
        out.push(byte);
        proof {
            assert(b@.take(k + 1) =~= b@.take(k as int).push(b@[k as int]));
            assert(out@ =~= old(out)@ + b@.take(k + 1));
        }
        k = k + 1;
    }
    proof {
        assert(b@.take(b@.len() as int) =~= b@);
    }
}

/// The two's-complement bits of a 32-bit signed integer.
fn rep32_exec(x: i32) -> (r: u32)
    ensures
        r as nat == rep32(x),
{
    if x >= 0 {
        x as u32
    } else {
        ((x as i64) + 0x1_0000_0000) as u32
    }
}

/// The two's-complement bits of a 64-bit signed integer.
fn rep64_exec(x: i64) -> (r: u64)
    ensures
        r as nat == rep64(x),
{
    if x >= 0 {
        x as u64
    } else {
        ((x as i128) + 0x1_0000_0000_0000_0000) as u64
    }
}

/// The two's-complement bits of a 128-bit signed integer.
fn rep128_exec(x: i128) -> (r: u128)
    ensures
        r as nat == rep128(x),
{
    if x >= 0 {
        x as u128
    } else {
        u128::MAX - ((-(x + 1)) as u128)
    }
}

/// Append the canonical encoding of one value.
fn enc_val(v: &Value, out: &mut Vec<u8>)
    ensures
        final(out)@ == old(out)@ + enc(v@),
    decreases v,
{
    match v {
        Value::Void => {
            assert(out@ =~= old(out)@ + enc(v@));
        },
        Value::Bool(b) => {
            out.push(if *b { 1 } else { 0 });
            assert(out@ =~= old(out)@ + enc(v@));
        },
        Value::U32(x) => {
            push_be(out, *x as u128, 4);
            assert(out@ =~= old(out)@ + enc(v@));
        },
        Value::I32(x) => {
            let r = rep32_exec(*x);
            push_be(out, r as u128, 4);
            assert(out@ =~= old(out)@ + enc(v@));
        },
        Value::U64(x) => {
            push_be(out, *x as u128, 8);
            assert(out@ =~= old(out)@ + enc(v@));
        },
        Value::I64(x) => {
            let r = rep64_exec(*x);
            push_be(out, r as u128, 8);
            assert(out@ =~= old(out)@ + enc(v@));
        },
        Value::U128(x) => {
            push_be(out, *x, 16);
            assert(out@ =~= old(out)@ + enc(v@));
        },
        Value::I128(x) => {
            let r = rep128_exec(*x);
            push_be(out, r, 16);
            assert(out@ =~= old(out)@ + enc(v@));
        },
        Value::U256(p) => {
            push_be(out, p.hi, 16);
            push_be(out, p.lo, 16);
            assert(out@ =~= old(out)@ + enc(v@));
        },
        Value::I256(p) => {
            let r = rep128_exec(p.hi);
            push_be(out, r, 16);
            push_be(out, p.lo, 16);
            assert(out@ =~= old(out)@ + enc(v@));
        },
        Value::Symbol(b) => {
            push_be(out, b.len() as u128, 4);
            push_bytes(out, b);
            assert(out@ =~= old(out)@ + enc(v@));
        },
        Value::Text(b) => {
            push_be(out, b.len() as u128, 4);
            push_bytes(out, b);
            assert(out@ =~= old(out)@ + enc(v@));
        },
        Value::Bytes(b) => {
            push_be(out, b.len() as u128, 4);
            push_bytes(out, b);
            assert(out@ =~= old(out)@ + enc(v@));
        },
        Value::FixedBytes(b) => {
            push_be(out, b.len() as u128, 4);
            push_bytes(out, b);
            assert(out@ =~= old(out)@ + enc(v@));
        },
        Value::Address(b) => {
            push_bytes(out, b);
            assert(out@ =~= old(out)@ + enc(v@));
        },
        Value::Optional(es) => {
            if es.len() == 0 {
                out.push(0);
                assert(out@ =~= old(out)@ + enc(v@));
            } else {
                out.push(1);
                enc_val(&es[0], out);
                proof {
                    crate::value::vview_seq_index(es@, 0);
                    assert(out@ =~= old(out)@ + enc(v@));
                }
            }
        },
        Value::Vector(es) => {
            push_be(out, es.len() as u128, 4);
            enc_list(es, out);
            assert(out@ =~= old(out)@ + enc(v@));
        },
        Value::MapOf(es) => {
            push_be(out, es.len() as u128, 4);
            enc_entry_list(es, out);
            assert(out@ =~= old(out)@ + enc(v@));
        },
        Value::Tuple(es) => {
            enc_list(es, out);
            assert(out@ =~= old(out)@ + enc(v@));
        },
        Value::StructOf(es) => {
            enc_list(es, out);
            assert(out@ =~= old(out)@ + enc(v@));
        },
        Value::EnumUnit(i) => {
            out.push(#[verifier::truncate] (*i as u8));
            assert(out@ =~= old(out)@ + enc(v@));
        },
        Value::EnumTagged(i, es) => {
            out.push(#[verifier::truncate] (*i as u8));
            enc_list(es, out);
            assert(out@ =~= old(out)@ + enc(v@));
        },
    }
}

/// Append the encodings of a run of child values, in order.
fn enc_list(es: &Vec<Value>, out: &mut Vec<u8>)
    ensures
        final(out)@ == old(out)@ + enc_seq(vview_seq(es@)),
    decreases es,
{
    let mut k: usize = 0;
    proof {
        assert(es@.take(0) =~= Seq::<Value>::empty());
        assert(out@ =~= old(out)@ + enc_seq(vview_seq(es@.take(0))));
    }
    while k < es.len()
        invariant
            k <= es@.len(),
            out@ == old(out)@ + enc_seq(vview_seq(es@.take(k as int))),
        decreases es@.len() - k,
    {
        enc_val(&es[k], out);
        proof {
            assert(es@.take(k + 1) =~= es@.take(k as int).push(es@[k as int]));
            lemma_vview_seq_push(es@.take(k as int), es@[k as int]);
            lemma_enc_seq_push(vview_seq(es@.take(k as int)), vview(es@[k as int]));
            assert(out@ =~= old(out)@ + enc_seq(vview_seq(es@.take(k + 1))));
        }
        k = k + 1;
    }
    proof {
        assert(es@.take(es@.len() as int) =~= es@);
    }
}

/// Append the encodings of map entries, each key before its value, in the
/// stored entry order.
fn enc_entry_list(es: &Vec<(Value, Value)>, out: &mut Vec<u8>)
    ensures
        final(out)@ == old(out)@ + enc_entries(vview_entries(es@)),
    decreases es,
{
    let mut k: usize = 0;
    proof {
        assert(es@.take(0) =~= Seq::<(Value, Value)>::empty());
        assert(out@ =~= old(out)@ + enc_entries(vview_entries(es@.take(0))));
    }
    while k < es.len()
        invariant
            k <= es@.len(),
            out@ == old(out)@ + enc_entries(vview_entries(es@.take(k as int))),
        decreases es@.len() - k,
    {
        let pair = &es[k];
        enc_val(&pair.0, out);
        enc_val(&pair.1, out);
        proof {
            assert(es@.take(k + 1) =~= es@.take(k as int).push(es@[k as int]));
            lemma_vview_entries_push(es@.take(k as int), es@[k as int]);
            lemma_enc_entries_push(
                vview_entries(es@.take(k as int)),
                (vview(es@[k as int].0), vview(es@[k as int].1)),
            );
            assert(out@ =~= old(out)@ + enc_entries(vview_entries(es@.take(k + 1))));
        }
        k = k + 1;
    }
    proof {
        assert(es@.take(es@.len() as int) =~= es@);
    }
}

/// Encode a value into a fresh buffer: the bytes are exactly `enc` of the
/// value's model. Deterministic, total, and free of any effect on `v`.
pub fn encode(v: &Value) -> (r: Vec<u8>)
    ensures
        r@ == enc(v@),
{
    let mut out: Vec<u8> = Vec::new();
    enc_val(v, &mut out);
    proof {
        assert(Seq::<u8>::empty() + enc(v@) =~= enc(v@));
    }
    out
}

} // verus!
