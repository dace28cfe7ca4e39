//! Canonical decoding: whatever the decoder accepts is a conforming value,
//! and the consumed bytes are exactly that value's encoding. Together with
//! the round-trip law this pins decoding down completely: a buffer decodes
//! to `v` if and only if it is `enc(v)` for a conforming `v`.

use vstd::prelude::*;
use crate::decspec::{
    dec, dec_elems, dec_entries, dec_fields, dec_val, dec_variant, dec_zip, read_word, segment,
};
use crate::numeric::{
    be_bytes, lemma_be_from_be, lemma_p256_widths, lemma_unrep128, lemma_unrep32, lemma_unrep64,
    lex_lt,
};
use crate::ty::{ty_size, FieldDesc, TypeDesc, VariantDesc, MAX_DEPTH, MAX_LEN, TAG_LIMIT};
use crate::value::{DecodeError, VVal};
use crate::wire::{
    conforms, conforms_all, conforms_entries, conforms_fields, conforms_zip, enc, enc_entries,
    enc_seq, entries_sorted,
};

verus! {

broadcast use crate::numeric::be_bytes_len, crate::numeric::from_be_bound;

/// A word read from the wire is the number whose big-endian form the read
/// bytes are.
proof fn lemma_word_canonical(s: Seq<u8>, i: int, n: int)
    requires
        0 <= i,
        0 <= n,
        i + n <= s.len(),
    ensures
        be_bytes(read_word(s, i, n), n as nat) == segment(s, i, n),
{
    lemma_be_from_be(segment(s, i, n));
}

/// Whatever `dec_val` accepts conforms to the descriptor, and the bytes it
/// consumed are exactly the value's encoding.
pub proof fn lemma_dec_sound(t: TypeDesc, s: Seq<u8>, i: int)
    requires
        0 <= i <= s.len(),
    ensures
        match dec_val(t, s, i) {
            Ok((v, j)) => i <= j <= s.len() && conforms(v, t) && segment(s, i, j - i) == enc(v),
            Err(_) => true,
        },
    decreases ty_size(t), 0nat,
{
    lemma_p256_widths();
    match t {
        TypeDesc::Void => {
            assert(segment(s, i, 0) =~= enc(VVal::Void));
        },
        TypeDesc::Bool => {
            if i + 1 <= s.len() && (s[i] == 0u8 || s[i] == 1u8) {
                assert(segment(s, i, 1) =~= seq![s[i]]);
            }
        },
        TypeDesc::U32 => {
            if i + 4 <= s.len() {
                lemma_word_canonical(s, i, 4);
            }
        },
        TypeDesc::I32 => {
            if i + 4 <= s.len() {
                lemma_word_canonical(s, i, 4);
                lemma_unrep32(read_word(s, i, 4));
            }
        },
        TypeDesc::U64 => {
            if i + 8 <= s.len() {
                lemma_word_canonical(s, i, 8);
            }
        },
        TypeDesc::I64 => {
            if i + 8 <= s.len() {
                lemma_word_canonical(s, i, 8);
                lemma_unrep64(read_word(s, i, 8));
            }
        },
        TypeDesc::U128 => {
            if i + 16 <= s.len() {
                lemma_word_canonical(s, i, 16);
            }
        },
        TypeDesc::I128 => {
            if i + 16 <= s.len() {
                lemma_word_canonical(s, i, 16);
                lemma_unrep128(read_word(s, i, 16));
            }
        },
        TypeDesc::U256 => {
            if i + 32 <= s.len() {
                lemma_word_canonical(s, i, 16);
                lemma_word_canonical(s, i + 16, 16);
                assert(segment(s, i, 32) =~= segment(s, i, 16) + segment(s, i + 16, 16));
            }
        },
        TypeDesc::I256 => {
            if i + 32 <= s.len() {
                lemma_word_canonical(s, i, 16);
                lemma_word_canonical(s, i + 16, 16);
                lemma_unrep128(read_word(s, i, 16));
                assert(segment(s, i, 32) =~= segment(s, i, 16) + segment(s, i + 16, 16));
            }
        },
        TypeDesc::Symbol => {
            if i + 4 <= s.len() {
                let l = read_word(s, i, 4) as int;
                lemma_word_canonical(s, i, 4);
                if 0 <= l && i + 4 + l <= s.len() {
                    assert(segment(s, i, 4 + l) =~= segment(s, i, 4) + segment(s, i + 4, l));
                }
            }
        },
        TypeDesc::Text => {
            if i + 4 <= s.len() {
                let l = read_word(s, i, 4) as int;
                lemma_word_canonical(s, i, 4);
                if 0 <= l && i + 4 + l <= s.len() {
                    assert(segment(s, i, 4 + l) =~= segment(s, i, 4) + segment(s, i + 4, l));
                }
            }
        },
        TypeDesc::Bytes => {
            if i + 4 <= s.len() {
                let l = read_word(s, i, 4) as int;
                lemma_word_canonical(s, i, 4);
                if 0 <= l && i + 4 + l <= s.len() {
                    assert(segment(s, i, 4 + l) =~= segment(s, i, 4) + segment(s, i + 4, l));
                }
            }
        },
        TypeDesc::FixedBytes(n) => {
            if i + 4 <= s.len() {
                let l = read_word(s, i, 4) as int;
                lemma_word_canonical(s, i, 4);
                if 0 <= l && i + 4 + l <= s.len() {
                    assert(segment(s, i, 4 + l) =~= segment(s, i, 4) + segment(s, i + 4, l));
                }
            }
        },
        TypeDesc::Address => {
            if i + 32 <= s.len() {
                assert(segment(s, i, 32) == enc(VVal::Address(segment(s, i, 32))));
            }
        },
        TypeDesc::Optional(t1) => {
            if i + 1 <= s.len() {
                if s[i] == 0u8 {
                    assert(segment(s, i, 1) =~= seq![s[i]]);
                } else if s[i] == 1u8 {
                    lemma_dec_sound(*t1, s, i + 1);
                    if dec_val(*t1, s, i + 1) is Ok {
                        let (v1, j) = dec_val(*t1, s, i + 1)->Ok_0;
                        assert(segment(s, i, j - i) =~= seq![1u8] + segment(s, i + 1, j - (i
                            + 1)));
                    }
                }
            }
        },
        TypeDesc::Vector(t1) => {
            if i + 4 <= s.len() {
                let l = read_word(s, i, 4);
                lemma_word_canonical(s, i, 4);
                if l <= MAX_LEN {
                    lemma_dec_sound_elems(*t1, l, s, i + 4);
                    if dec_elems(*t1, l, s, i + 4) is Ok {
                        let (vs, j) = dec_elems(*t1, l, s, i + 4)->Ok_0;
                        assert(segment(s, i, j - i) =~= segment(s, i, 4) + segment(
                            s,
                            i + 4,
                            j - (i + 4),
                        ));
                    }
                }
            }
        },
        TypeDesc::MapOf(tk, tv) => {
            if i + 4 <= s.len() {
                let l = read_word(s, i, 4);
                lemma_word_canonical(s, i, 4);
                if l <= MAX_LEN {
                    lemma_dec_sound_entries(*tk, *tv, l, s, i + 4, Option::None);
                    if dec_entries(*tk, *tv, l, s, i + 4, Option::None) is Ok {
                        let (es, j) = dec_entries(*tk, *tv, l, s, i + 4, Option::None)->Ok_0;
                        assert(segment(s, i, j - i) =~= segment(s, i, 4) + segment(
                            s,
                            i + 4,
                            j - (i + 4),
                        ));
                    }
                }
            }
        },
        TypeDesc::Tuple(ts) => {
            lemma_dec_sound_zip(ts@, s, i);
        },
        TypeDesc::StructOf(fs) => {
            lemma_dec_sound_fields(fs@, s, i);
        },
        TypeDesc::EnumUnit(c) => {
            if c <= TAG_LIMIT && i + 1 <= s.len() && (s[i] as u32) < c {
                assert(segment(s, i, 1) =~= seq![s[i]]);
            }
        },
        TypeDesc::EnumTagged(vs) => {
            if vs@.len() <= TAG_LIMIT && i + 1 <= s.len() {
                lemma_dec_sound_variant(vs@, s[i] as nat, s, i + 1);
                if dec_variant(vs@, s[i] as nat, s, i + 1) is Ok {
                    let (ps, j) = dec_variant(vs@, s[i] as nat, s, i + 1)->Ok_0;
                    assert(segment(s, i, j - i) =~= seq![s[i]] + segment(s, i + 1, j - (i + 1)));
                }
            }
        },
    }
}

/// As `lemma_dec_sound`, for a run of equally-shaped elements.
pub proof fn lemma_dec_sound_elems(t1: TypeDesc, n: nat, s: Seq<u8>, i: int)
    requires
        0 <= i <= s.len(),
    ensures
        match dec_elems(t1, n, s, i) {
            Ok((vs, j)) => i <= j <= s.len() && vs.len() == n && conforms_all(vs, t1) && segment(
                s,
                i,
                j - i,
            ) == enc_seq(vs),
            Err(_) => true,
        },
    decreases ty_size(t1), n,
{
    if n == 0 {
        assert(segment(s, i, 0) =~= enc_seq(Seq::<VVal>::empty()));
    } else {
        lemma_dec_sound(t1, s, i);
        if dec_val(t1, s, i) is Ok {
            let (v, j) = dec_val(t1, s, i)->Ok_0;
            lemma_dec_sound_elems(t1, (n - 1) as nat, s, j);
            if dec_elems(t1, (n - 1) as nat, s, j) is Ok {
                let (vs, end) = dec_elems(t1, (n - 1) as nat, s, j)->Ok_0;
                assert((seq![v] + vs).skip(1) =~= vs);
                assert(segment(s, i, end - i) =~= segment(s, i, j - i) + segment(s, j, end - j));
            }
        }
    }
}

/// As `lemma_dec_sound`, for one value per shape in a shape list.
pub proof fn lemma_dec_sound_zip(ts: Seq<TypeDesc>, s: Seq<u8>, i: int)
    requires
        0 <= i <= s.len(),
    ensures
        match dec_zip(ts, s, i) {
            Ok((vs, j)) => i <= j <= s.len() && conforms_zip(vs, ts) && segment(s, i, j - i)
                == enc_seq(vs),
            Err(_) => true,
        },
    decreases crate::ty::ty_seq_size(ts), 0nat,
{
    if ts.len() == 0 {
        assert(segment(s, i, 0) =~= enc_seq(Seq::<VVal>::empty()));
    } else {
        lemma_dec_sound(ts[0], s, i);
        if dec_val(ts[0], s, i) is Ok {
            let (v, j) = dec_val(ts[0], s, i)->Ok_0;
            lemma_dec_sound_zip(ts.skip(1), s, j);
            if dec_zip(ts.skip(1), s, j) is Ok {
                let (vs, end) = dec_zip(ts.skip(1), s, j)->Ok_0;
                assert((seq![v] + vs).skip(1) =~= vs);
                assert(segment(s, i, end - i) =~= segment(s, i, j - i) + segment(s, j, end - j));
            }
        }
    }
}

/// As `lemma_dec_sound`, for struct fields.
pub proof fn lemma_dec_sound_fields(fs: Seq<FieldDesc>, s: Seq<u8>, i: int)
    requires
        0 <= i <= s.len(),
    ensures
        match dec_fields(fs, s, i) {
            Ok((vs, j)) => i <= j <= s.len() && conforms_fields(vs, fs) && segment(s, i, j - i)
                == enc_seq(vs),
            Err(_) => true,
        },
    decreases crate::ty::field_seq_size(fs), 0nat,
{
    if fs.len() == 0 {
        assert(segment(s, i, 0) =~= enc_seq(Seq::<VVal>::empty()));
    } else {
        lemma_dec_sound(fs[0].shape, s, i);
        if dec_val(fs[0].shape, s, i) is Ok {
            let (v, j) = dec_val(fs[0].shape, s, i)->Ok_0;
            lemma_dec_sound_fields(fs.skip(1), s, j);
            if dec_fields(fs.skip(1), s, j) is Ok {
                let (vs, end) = dec_fields(fs.skip(1), s, j)->Ok_0;
                assert((seq![v] + vs).skip(1) =~= vs);
                assert(segment(s, i, end - i) =~= segment(s, i, j - i) + segment(s, j, end - j));
            }
        }
    }
}

/// As `lemma_dec_sound`, for the payload of the variant a tag selects: when
/// the walk accepts, the tag named a declared variant and the payload
/// conforms to it.
pub proof fn lemma_dec_sound_variant(vs: Seq<VariantDesc>, k: nat, s: Seq<u8>, i: int)
    requires
        0 <= i <= s.len(),
    ensures
        match dec_variant(vs, k, s, i) {
            Ok((ps, j)) => i <= j <= s.len() && k < vs.len() && conforms_zip(
                ps,
                vs[k as int].payload@,
            ) && segment(s, i, j - i) == enc_seq(ps),
            Err(_) => true,
        },
    decreases crate::ty::variant_seq_size(vs), 0nat,
{
    if vs.len() > 0 {
        if k == 0 {
            lemma_dec_sound_zip(vs[0].payload@, s, i);
        } else {
            lemma_dec_sound_variant(vs.skip(1), (k - 1) as nat, s, i);
            if dec_variant(vs.skip(1), (k - 1) as nat, s, i) is Ok {
                assert(vs.skip(1)[k - 1] == vs[k as int]);
            }
        }
    }
}

/// As `lemma_dec_sound`, for map entries: an accepted run also comes out in
/// strictly ascending key order, its first key above whatever came before.
pub proof fn lemma_dec_sound_entries(
    tk: TypeDesc,
    tv: TypeDesc,
    n: nat,
    s: Seq<u8>,
    i: int,
    prev: Option<Seq<u8>>,
)
    requires
        0 <= i <= s.len(),
    ensures
        match dec_entries(tk, tv, n, s, i, prev) {
            Ok((es, j)) => i <= j <= s.len() && es.len() == n && conforms_entries(es, tk, tv)
                && entries_sorted(es) && segment(s, i, j - i) == enc_entries(es) && (es.len() > 0
                && prev is Some ==> lex_lt(prev->0, enc(es[0].0))),
            Err(_) => true,
        },
    decreases ty_size(tk) + ty_size(tv), n,
{
    broadcast use crate::ty::ty_size_pos;

    if n == 0 {
        assert(segment(s, i, 0) =~= enc_entries(Seq::<(VVal, VVal)>::empty()));
    } else {
        lemma_dec_sound(tk, s, i);
        if dec_val(tk, s, i) is Ok {
            let (kv, j) = dec_val(tk, s, i)->Ok_0;
            let kseg = segment(s, i, j - i);
            lemma_dec_sound(tv, s, j);
            if dec_val(tv, s, j) is Ok {
                let (vv, m) = dec_val(tv, s, j)->Ok_0;
                lemma_dec_sound_entries(tk, tv, (n - 1) as nat, s, m, Option::Some(kseg));
                if dec_entries(tk, tv, (n - 1) as nat, s, m, Option::Some(kseg)) is Ok {
                    let (es, end) = dec_entries(
                        tk,
                        tv,
                        (n - 1) as nat,
                        s,
                        m,
                        Option::Some(kseg),
                    )->Ok_0;
                    assert((seq![(kv, vv)] + es).skip(1) =~= es);
                    assert(segment(s, i, end - i) =~= segment(s, i, j - i) + segment(
                        s,
                        j,
                        m - j,
                    ) + segment(s, m, end - m));
                }
            }
        }
    }
}

/// Decoding is exact: `dec` answers `Ok(v)` on a buffer if and only if the
/// buffer is the canonical encoding of the conforming value `v` and the
/// descriptor stays within the recursion bound.
pub proof fn lemma_dec_exact(t: TypeDesc, s: Seq<u8>, v: VVal)
    ensures
        dec(t, s) == Ok::<VVal, DecodeError>(v) <==> (conforms(v, t) && s == enc(v)
            && crate::ty::ty_depth(t) <= MAX_DEPTH),
{
    if conforms(v, t) && s == enc(v) && crate::ty::ty_depth(t) <= MAX_DEPTH {
        crate::laws::lemma_round_trip(v, t);
    }
    if dec(t, s) == Ok::<VVal, DecodeError>(v) {
        lemma_dec_sound(t, s, 0);
        assert(segment(s, 0, s.len() as int) =~= s);
    }
}

} // verus!
