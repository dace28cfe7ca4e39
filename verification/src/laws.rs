//! The laws of the codec: decoding inverts encoding, encodings are
//! injective and deterministic, framing is strict, maps are canonical, and
//! out-of-range enum tags are rejected.

use vstd::prelude::*;
use crate::decspec::{
    dec, dec_elems, dec_entries, dec_fields, dec_val, dec_variant, dec_zip, segment,
};
use crate::numeric::{
    be_bytes, lemma_from_be_be, lemma_lex_irrefl, lemma_p256_widths, lemma_rep128, lemma_rep32,
    lemma_rep64, lex_lt,
};
use crate::ty::{FieldDesc, TypeDesc, VariantDesc, MAX_DEPTH, MAX_LEN, TAG_LIMIT};
use crate::value::{DecodeError, VVal};
use crate::wire::{
    conforms, conforms_all, conforms_entries, conforms_fields, conforms_zip, enc, enc_entries,
    enc_seq, entries_sorted,
};

verus! {

broadcast use crate::numeric::be_bytes_len;

/// If the bytes at `i` are the concatenation `a + b`, then the bytes at `i`
/// are `a` and the bytes just past them are `b`.
pub proof fn lemma_segment_split(s: Seq<u8>, i: int, a: Seq<u8>, b: Seq<u8>)
    requires
        0 <= i,
        i + a.len() + b.len() <= s.len(),
        segment(s, i, a.len() + b.len() as int) == a + b,
    ensures
        segment(s, i, a.len() as int) == a,
        segment(s, i + a.len(), b.len() as int) == b,
{
    let whole = segment(s, i, a.len() + b.len() as int);
    assert forall|j: int| 0 <= j < a.len() implies segment(s, i, a.len() as int)[j] == a[j] by {
        assert(whole[j] == s[i + j]);
        assert((a + b)[j] == a[j]);
    }
    assert(segment(s, i, a.len() as int) =~= a);
    assert forall|j: int| 0 <= j < b.len() implies segment(s, i + a.len(), b.len() as int)[j]
        == b[j] by {
        assert(whole[a.len() + j] == s[i + a.len() + j]);
        assert((a + b)[a.len() + j] == b[j]);
    }
    assert(segment(s, i + a.len(), b.len() as int) =~= b);
}

/// Decoding at the start of a conforming value's bytes succeeds, yields that
/// value, and consumes exactly its bytes, whatever follows them.
pub proof fn lemma_dec_enc(t: TypeDesc, v: VVal, s: Seq<u8>, i: int)
    requires
        conforms(v, t),
        0 <= i,
        i + enc(v).len() <= s.len(),
        segment(s, i, enc(v).len() as int) == enc(v),
    ensures
        dec_val(t, s, i) == Ok::<(VVal, int), DecodeError>((v, i + enc(v).len())),
    decreases crate::ty::ty_size(t), 0nat,
{
    lemma_p256_widths();
    match v {
        VVal::Void => {},
        VVal::Bool(b) => {
            assert(s[i] == enc(v)[0]);
        },
        VVal::U32(x) => {
            assert(segment(s, i, 4) == be_bytes(x as nat, 4));
            lemma_from_be_be(x as nat, 4);
        },
        VVal::I32(x) => {
            lemma_rep32(x);
            assert(segment(s, i, 4) == be_bytes(crate::numeric::rep32(x), 4));
            lemma_from_be_be(crate::numeric::rep32(x), 4);
        },
        VVal::U64(x) => {
            assert(segment(s, i, 8) == be_bytes(x as nat, 8));
            lemma_from_be_be(x as nat, 8);
        },
        VVal::I64(x) => {
            lemma_rep64(x);
            assert(segment(s, i, 8) == be_bytes(crate::numeric::rep64(x), 8));
            lemma_from_be_be(crate::numeric::rep64(x), 8);
        },
        VVal::U128(x) => {
            assert(segment(s, i, 16) == be_bytes(x as nat, 16));
            lemma_from_be_be(x as nat, 16);
        },
        VVal::I128(x) => {
            lemma_rep128(x);
            assert(segment(s, i, 16) == be_bytes(crate::numeric::rep128(x), 16));
            lemma_from_be_be(crate::numeric::rep128(x), 16);
        },
        VVal::U256(p) => {
            lemma_segment_split(s, i, be_bytes(p.hi as nat, 16), be_bytes(p.lo as nat, 16));
            lemma_from_be_be(p.hi as nat, 16);
            lemma_from_be_be(p.lo as nat, 16);
        },
        VVal::I256(p) => {
            lemma_rep128(p.hi);
            lemma_segment_split(s, i, be_bytes(crate::numeric::rep128(p.hi), 16), be_bytes(p.lo as nat, 16));
            lemma_from_be_be(crate::numeric::rep128(p.hi), 16);
            lemma_from_be_be(p.lo as nat, 16);
        },
        VVal::Symbol(b) => {
            lemma_segment_split(s, i, be_bytes(b.len(), 4), b);
            lemma_from_be_be(b.len(), 4);
        },
        VVal::Text(b) => {
            lemma_segment_split(s, i, be_bytes(b.len(), 4), b);
            lemma_from_be_be(b.len(), 4);
        },
        VVal::Bytes(b) => {
            lemma_segment_split(s, i, be_bytes(b.len(), 4), b);
            lemma_from_be_be(b.len(), 4);
        },
        VVal::FixedBytes(b) => {
            lemma_segment_split(s, i, be_bytes(b.len(), 4), b);
            lemma_from_be_be(b.len(), 4);
        },
        VVal::Address(b) => {},
        VVal::Optional(es) => {
            if es.len() == 0 {
                assert(s[i] == enc(v)[0]);
                assert(es =~= Seq::<VVal>::empty());
            } else {
                lemma_segment_split(s, i, seq![1u8], enc(es[0]));
                assert(s[i] == segment(s, i, 1)[0]);
                let t1 = t->Optional_0;
                lemma_dec_enc(*t1, es[0], s, i + 1);
                assert(seq![es[0]] =~= es);
            }
        },
        VVal::Vector(es) => {
            let t1 = t->Vector_0;
            lemma_segment_split(s, i, be_bytes(es.len(), 4), enc_seq(es));
            lemma_from_be_be(es.len(), 4);
            lemma_dec_enc_elems(*t1, es, s, i + 4);
        },
        VVal::MapOf(es) => {
            let tk = t->MapOf_0;
            let tv = t->MapOf_1;
            lemma_segment_split(s, i, be_bytes(es.len(), 4), enc_entries(es));
            lemma_from_be_be(es.len(), 4);
            lemma_dec_enc_entries(*tk, *tv, es, s, i + 4, Option::None);
        },
        VVal::Tuple(es) => {
            let ts = t->Tuple_0;
            lemma_dec_enc_zip(ts@, es, s, i);
        },
        VVal::StructOf(es) => {
            let fs = t->StructOf_0;
            lemma_dec_enc_fields(fs@, es, s, i);
        },
        VVal::EnumUnit(k) => {
            assert(s[i] == enc(v)[0]);
        },
        VVal::EnumTagged(k, es) => {
            let vs = t->EnumTagged_0;
            lemma_segment_split(s, i, seq![k as u8], enc_seq(es));
            assert(s[i] == segment(s, i, 1)[0]);
            assert(s[i] as nat == k as nat);
            lemma_dec_enc_variant(vs@, k as nat, es, s, i + 1);
        },
    }
}

/// As `lemma_dec_enc`, for a run of equally-shaped elements.
pub proof fn lemma_dec_enc_elems(t1: TypeDesc, es: Seq<VVal>, s: Seq<u8>, i: int)
    requires
        conforms_all(es, t1),
        0 <= i,
        i + enc_seq(es).len() <= s.len(),
        segment(s, i, enc_seq(es).len() as int) == enc_seq(es),
    ensures
        dec_elems(t1, es.len(), s, i) == Ok::<(Seq<VVal>, int), DecodeError>(
            (es, i + enc_seq(es).len()),
        ),
    decreases crate::ty::ty_size(t1), es.len(),
{
    if es.len() > 0 {
        lemma_segment_split(s, i, enc(es[0]), enc_seq(es.skip(1)));
        lemma_dec_enc(t1, es[0], s, i);
        lemma_dec_enc_elems(t1, es.skip(1), s, i + enc(es[0]).len());
        assert(seq![es[0]] + es.skip(1) =~= es);
    } else {
        assert(es =~= Seq::<VVal>::empty());
    }
}

/// As `lemma_dec_enc`, for one value per shape in a shape list.
pub proof fn lemma_dec_enc_zip(ts: Seq<TypeDesc>, es: Seq<VVal>, s: Seq<u8>, i: int)
    requires
        conforms_zip(es, ts),
        0 <= i,
        i + enc_seq(es).len() <= s.len(),
        segment(s, i, enc_seq(es).len() as int) == enc_seq(es),
    ensures
        dec_zip(ts, s, i) == Ok::<(Seq<VVal>, int), DecodeError>((es, i + enc_seq(es).len())),
    decreases crate::ty::ty_seq_size(ts), 0nat,
{
    if es.len() > 0 {
        lemma_segment_split(s, i, enc(es[0]), enc_seq(es.skip(1)));
        lemma_dec_enc(ts[0], es[0], s, i);
        lemma_dec_enc_zip(ts.skip(1), es.skip(1), s, i + enc(es[0]).len());
        assert(seq![es[0]] + es.skip(1) =~= es);
    } else {
        assert(es =~= Seq::<VVal>::empty());
    }
}

/// As `lemma_dec_enc`, for struct fields.
pub proof fn lemma_dec_enc_fields(fs: Seq<FieldDesc>, es: Seq<VVal>, s: Seq<u8>, i: int)
    requires
        conforms_fields(es, fs),
        0 <= i,
        i + enc_seq(es).len() <= s.len(),
        segment(s, i, enc_seq(es).len() as int) == enc_seq(es),
    ensures
        dec_fields(fs, s, i) == Ok::<(Seq<VVal>, int), DecodeError>((es, i + enc_seq(es).len())),
    decreases crate::ty::field_seq_size(fs), 0nat,
{
    if es.len() > 0 {
        lemma_segment_split(s, i, enc(es[0]), enc_seq(es.skip(1)));
        lemma_dec_enc(fs[0].shape, es[0], s, i);
        lemma_dec_enc_fields(fs.skip(1), es.skip(1), s, i + enc(es[0]).len());
        assert(seq![es[0]] + es.skip(1) =~= es);
    } else {
        assert(es =~= Seq::<VVal>::empty());
    }
}

/// As `lemma_dec_enc`, for the payload of the variant the tag selects.
pub proof fn lemma_dec_enc_variant(vs: Seq<VariantDesc>, k: nat, es: Seq<VVal>, s: Seq<u8>, i: int)
    requires
        k < vs.len(),
        conforms_zip(es, vs[k as int].payload@),
        0 <= i,
        i + enc_seq(es).len() <= s.len(),
        segment(s, i, enc_seq(es).len() as int) == enc_seq(es),
    ensures
        dec_variant(vs, k, s, i) == Ok::<(Seq<VVal>, int), DecodeError>(
            (es, i + enc_seq(es).len()),
        ),
    decreases crate::ty::variant_seq_size(vs), 0nat,
{
    if k == 0 {
        lemma_dec_enc_zip(vs[0].payload@, es, s, i);
    } else {
        lemma_dec_enc_variant(vs.skip(1), (k - 1) as nat, es, s, i);
    }
}

/// As `lemma_dec_enc`, for sorted map entries: each key is decoded from
/// exactly its encoding, so the order checks see the keys' encodings and
/// pass on a sorted run.
pub proof fn lemma_dec_enc_entries(
    tk: TypeDesc,
    tv: TypeDesc,
    es: Seq<(VVal, VVal)>,
    s: Seq<u8>,
    i: int,
    prev: Option<Seq<u8>>,
)
    requires
        conforms_entries(es, tk, tv),
        entries_sorted(es),
        prev is Some && es.len() > 0 ==> lex_lt(prev->0, enc(es[0].0)),
        0 <= i,
        i + enc_entries(es).len() <= s.len(),
        segment(s, i, enc_entries(es).len() as int) == enc_entries(es),
    ensures
        dec_entries(tk, tv, es.len(), s, i, prev) == Ok::<(Seq<(VVal, VVal)>, int), DecodeError>(
            (es, i + enc_entries(es).len()),
        ),
    decreases crate::ty::ty_size(tk) + crate::ty::ty_size(tv), es.len(),
{
    if es.len() > 0 {
        let k0 = es[0].0;
        let v0 = es[0].1;
        assert(enc_entries(es) == enc(k0) + enc(v0) + enc_entries(es.skip(1)));
        assert(enc(k0) + enc(v0) + enc_entries(es.skip(1)) =~= enc(k0) + (enc(v0) + enc_entries(
            es.skip(1),
        )));
        lemma_segment_split(s, i, enc(k0), enc(v0) + enc_entries(es.skip(1)));
        lemma_dec_enc(tk, k0, s, i);
        let j = i + enc(k0).len();
        assert(segment(s, i, j - i) == enc(k0));
        if prev is Some {
            lemma_lex_irrefl(enc(k0));
        }
        lemma_segment_split(s, j, enc(v0), enc_entries(es.skip(1)));
        lemma_dec_enc(tv, v0, s, j);
        let m = j + enc(v0).len();
        if es.len() > 1 {
            assert(es.skip(1)[0] == es[1]);
        }
        lemma_dec_enc_entries(tk, tv, es.skip(1), s, m, Option::Some(enc(k0)));
        assert(seq![(k0, v0)] + es.skip(1) =~= es);
    } else {
        assert(es =~= Seq::<(VVal, VVal)>::empty());
    }
}

/// Round-trip: decoding the encoding of a conforming value against its own
/// descriptor yields exactly that value.
pub proof fn lemma_round_trip(v: VVal, t: TypeDesc)
    requires
        conforms(v, t),
        crate::ty::ty_depth(t) <= MAX_DEPTH,
    ensures
        dec(t, enc(v)) == Ok::<VVal, DecodeError>(v),
{
    assert(segment(enc(v), 0, enc(v).len() as int) =~= enc(v));
    lemma_dec_enc(t, v, enc(v), 0);
}

/// Strict framing: any bytes after a complete value make the decode fail
/// with `TrailingData`.
pub proof fn lemma_strict_framing(v: VVal, t: TypeDesc, extra: Seq<u8>)
    requires
        conforms(v, t),
        crate::ty::ty_depth(t) <= MAX_DEPTH,
        extra.len() > 0,
    ensures
        dec(t, enc(v) + extra) == Err::<VVal, DecodeError>(DecodeError::TrailingData),
{
    let s = enc(v) + extra;
    assert(segment(s, 0, enc(v).len() as int) =~= enc(v));
    lemma_dec_enc(t, v, s, 0);
}

/// Encoding is injective on the values that conform to one descriptor; with
/// determinism of `enc` as a function, the encoding of a value is a unique,
/// reproducible byte string.
pub proof fn lemma_enc_injective(v1: VVal, v2: VVal, t: TypeDesc)
    requires
        conforms(v1, t),
        conforms(v2, t),
        enc(v1) == enc(v2),
    ensures
        v1 == v2,
{
    assert(segment(enc(v1), 0, enc(v1).len() as int) =~= enc(v1));
    lemma_dec_enc(t, v1, enc(v1), 0);
    lemma_dec_enc(t, v2, enc(v1), 0);
}

/// A tag at or past the declared variant count selects no variant.
pub proof fn lemma_variant_walk_rejects(vs: Seq<VariantDesc>, k: nat, s: Seq<u8>, i: int)
    requires
        k >= vs.len(),
    ensures
        dec_variant(vs, k, s, i) == Err::<(Seq<VVal>, int), DecodeError>(
            DecodeError::ShapeMismatch,
        ),
    decreases vs.len(),
{
    if vs.len() > 0 {
        lemma_variant_walk_rejects(vs.skip(1), (k - 1) as nat, s, i);
    }
}

/// A tag below the declared count selects exactly the tagged variant's
/// payload shapes.
pub proof fn lemma_dec_variant_index(vs: Seq<VariantDesc>, k: nat, s: Seq<u8>, i: int)
    requires
        k < vs.len(),
    ensures
        dec_variant(vs, k, s, i) == dec_zip(vs[k as int].payload@, s, i),
    decreases vs.len(),
{
    if k > 0 {
        lemma_dec_variant_index(vs.skip(1), (k - 1) as nat, s, i);
    }
}

/// Enum tag bounds: a buffer whose leading tag byte names a variant index
/// at or past the declared count is rejected with `ShapeMismatch`.
pub proof fn lemma_enum_tag_bound(vs: Seq<VariantDesc>, s: Seq<u8>, i: int)
    requires
        0 <= i < s.len(),
        vs.len() <= TAG_LIMIT,
        s[i] as nat >= vs.len(),
    ensures
        forall|vsv: Vec<VariantDesc>|
            vsv@ == vs ==> dec_val(TypeDesc::EnumTagged(vsv), s, i) == Err::<
                (VVal, int),
                DecodeError,
            >(DecodeError::ShapeMismatch),
{
    lemma_variant_walk_rejects(vs, s[i] as nat, s, i + 1);
}

} // verus!

verus! {

/// In a sorted entry run, every later key encoding is strictly above the
/// head's.
pub proof fn lemma_sorted_head_min(es: Seq<(VVal, VVal)>, j: int)
    requires
        entries_sorted(es),
        0 < j < es.len(),
    ensures
        lex_lt(enc(es[0].0), enc(es[j].0)),
    decreases j,
{
    if j > 1 {
        assert(es.skip(1)[0] == es[1]);
        assert(es.skip(1)[j - 1] == es[j]);
        lemma_sorted_head_min(es.skip(1), j - 1);
        crate::numeric::lemma_lex_trans(enc(es[0].0), enc(es[1].0), enc(es[j].0));
    }
}

/// Dropping the head of a sorted entry run leaves it sorted.
pub proof fn lemma_sorted_skip(es: Seq<(VVal, VVal)>)
    requires
        entries_sorted(es),
        es.len() >= 1,
    ensures
        entries_sorted(es.skip(1)),
{
    if es.len() == 1 {
        assert(es.skip(1).len() == 0);
    }
}

/// Map determinism: sorted entry runs are determined by their entry sets.
/// However a map was built, once its entries stand in canonical order the
/// run — and with it the encoding — is unique.
pub proof fn lemma_sorted_entries_unique(e1: Seq<(VVal, VVal)>, e2: Seq<(VVal, VVal)>)
    requires
        entries_sorted(e1),
        entries_sorted(e2),
        forall|x: (VVal, VVal)| e1.contains(x) <==> e2.contains(x),
    ensures
        e1 == e2,
    decreases e1.len(),
{
    if e1.len() == 0 {
        if e2.len() > 0 {
            assert(e2.contains(e2[0]));
            assert(e1.contains(e2[0]));
            assert(false);
        }
        assert(e1 =~= e2);
    } else {
        assert(e1.contains(e1[0]));
        assert(e2.contains(e1[0]));
        let j = choose|j: int| 0 <= j < e2.len() && e2[j] == e1[0];
        if j > 0 {
            lemma_sorted_head_min(e2, j);
            assert(e2.contains(e2[0]));
            assert(e1.contains(e2[0]));
            let m = choose|m: int| 0 <= m < e1.len() && e1[m] == e2[0];
            if m > 0 {
                lemma_sorted_head_min(e1, m);
                crate::numeric::lemma_lex_asym(enc(e1[0].0), enc(e2[0].0));
                assert(false);
            } else {
                lemma_lex_irrefl(enc(e1[0].0));
                assert(false);
            }
        }
        assert(e2[0] == e1[0]);
        lemma_sorted_skip(e1);
        lemma_sorted_skip(e2);
        assert forall|x: (VVal, VVal)| e1.skip(1).contains(x) <==> e2.skip(1).contains(x) by {
            if e1.skip(1).contains(x) {
                let i1 = choose|i1: int| 0 <= i1 < e1.skip(1).len() && e1.skip(1)[i1] == x;
                assert(e1[i1 + 1] == x);
                assert(e1.contains(x));
                assert(e2.contains(x));
                let j2 = choose|j2: int| 0 <= j2 < e2.len() && e2[j2] == x;
                if j2 == 0 {
                    lemma_sorted_head_min(e1, i1 + 1);
                    lemma_lex_irrefl(enc(e1[0].0));
                    assert(false);
                }
                assert(e2.skip(1)[j2 - 1] == x);
                assert(e2.skip(1).contains(x));
            }
            if e2.skip(1).contains(x) {
                let i2 = choose|i2: int| 0 <= i2 < e2.skip(1).len() && e2.skip(1)[i2] == x;
                assert(e2[i2 + 1] == x);
                assert(e2.contains(x));
                assert(e1.contains(x));
                let j1 = choose|j1: int| 0 <= j1 < e1.len() && e1[j1] == x;
                if j1 == 0 {
                    lemma_sorted_head_min(e2, i2 + 1);
                    lemma_lex_irrefl(enc(e2[0].0));
                    assert(false);
                }
                assert(e1.skip(1)[j1 - 1] == x);
                assert(e1.skip(1).contains(x));
            }
        }
        lemma_sorted_entries_unique(e1.skip(1), e2.skip(1));
        assert forall|i: int| 0 <= i < e1.len() implies e1[i] == e2[i] by {
            if i >= 1 {
                assert(e1.skip(1)[i - 1] == e1[i]);
                assert(e2.skip(1)[i - 1] == e2[i]);
            }
        }
        assert(e1 =~= e2);
    }
}

/// Two conforming map values over the same entry set are the same value and
/// encode to the same bytes, whatever order their entries were gathered in.
pub proof fn lemma_map_encoding_determined(e1: Seq<(VVal, VVal)>, e2: Seq<(VVal, VVal)>)
    requires
        entries_sorted(e1),
        entries_sorted(e2),
        forall|x: (VVal, VVal)| e1.contains(x) <==> e2.contains(x),
    ensures
        e1 == e2,
        enc(VVal::MapOf(e1)) == enc(VVal::MapOf(e2)),
{
    lemma_sorted_entries_unique(e1, e2);
}

} // verus!

verus! {

/// Decoding a run of conforming entries whose first key-order violation
/// sits between entries `m` and `m + 1` fails: with `DuplicateMapKey` when
/// the two keys are equal, with `UnorderedMapKeys` otherwise.
pub proof fn lemma_entries_reject_noncanonical(
    tk: TypeDesc,
    tv: TypeDesc,
    es: Seq<(VVal, VVal)>,
    s: Seq<u8>,
    i: int,
    prev: Option<Seq<u8>>,
    m: int,
)
    requires
        conforms_entries(es, tk, tv),
        0 <= m < es.len() - 1,
        forall|j: int| 0 <= j < m ==> #[trigger] lex_lt(enc(es[j].0), enc(es[j + 1].0)),
        !lex_lt(enc(es[m].0), enc(es[m + 1].0)),
        prev is Some ==> lex_lt(prev->0, enc(es[0].0)),
        0 <= i,
        i + enc_entries(es).len() <= s.len(),
        segment(s, i, enc_entries(es).len() as int) == enc_entries(es),
    ensures
        enc(es[m].0) == enc(es[m + 1].0) ==> dec_entries(tk, tv, es.len(), s, i, prev) == Err::<
            (Seq<(VVal, VVal)>, int),
            DecodeError,
        >(DecodeError::DuplicateMapKey),
        enc(es[m].0) != enc(es[m + 1].0) ==> dec_entries(tk, tv, es.len(), s, i, prev) == Err::<
            (Seq<(VVal, VVal)>, int),
            DecodeError,
        >(DecodeError::UnorderedMapKeys),
    decreases m,
{
    let k0 = es[0].0;
    let v0 = es[0].1;
    assert(enc_entries(es) == enc(k0) + enc(v0) + enc_entries(es.skip(1)));
    assert(enc(k0) + enc(v0) + enc_entries(es.skip(1)) =~= enc(k0) + (enc(v0) + enc_entries(
        es.skip(1),
    )));
    lemma_segment_split(s, i, enc(k0), enc(v0) + enc_entries(es.skip(1)));
    lemma_dec_enc(tk, k0, s, i);
    let j = i + enc(k0).len();
    assert(segment(s, i, j - i) == enc(k0));
    if prev is Some {
        lemma_lex_irrefl(enc(k0));
    }
    lemma_segment_split(s, j, enc(v0), enc_entries(es.skip(1)));
    lemma_dec_enc(tv, v0, s, j);
    let p = j + enc(v0).len();
    let tail = es.skip(1);
    assert(tail[0] == es[1]);
    if m == 0 {
        let k1 = es[1].0;
        assert(conforms_entries(tail, tk, tv));
        assert(conforms(tail[0].0, tk));
        assert(enc_entries(tail) == enc(tail[0].0) + enc(tail[0].1) + enc_entries(tail.skip(1)));
        assert(enc(tail[0].0) + enc(tail[0].1) + enc_entries(tail.skip(1)) =~= enc(k1) + (enc(
            tail[0].1,
        ) + enc_entries(tail.skip(1))));
        lemma_segment_split(s, p, enc(k1), enc(tail[0].1) + enc_entries(tail.skip(1)));
        lemma_dec_enc(tk, k1, s, p);
        let q = p + enc(k1).len();
        assert(segment(s, p, q - p) == enc(k1));
    } else {
        assert(lex_lt(enc(es[0].0), enc(es[1].0)));
        assert forall|j2: int| 0 <= j2 < m - 1 implies #[trigger] lex_lt(
            enc(tail[j2].0),
            enc(tail[j2 + 1].0),
        ) by {
            assert(tail[j2] == es[j2 + 1]);
            assert(tail[j2 + 1] == es[j2 + 2]);
            assert(lex_lt(enc(es[j2 + 1].0), enc(es[j2 + 1 + 1].0)));
        }
        assert(tail[m - 1] == es[m]);
        assert(tail[m] == es[m + 1]);
        lemma_entries_reject_noncanonical(tk, tv, tail, s, p, Option::Some(enc(k0)), m - 1);
    }
}

/// Map canonicalization at the buffer level: a count-prefixed run of
/// conforming entries whose keys repeat is rejected with `DuplicateMapKey`,
/// and one whose keys leave ascending order is rejected with
/// `UnorderedMapKeys`, whichever violation comes first.
pub proof fn lemma_map_canonicalization(
    tk: TypeDesc,
    tv: TypeDesc,
    es: Seq<(VVal, VVal)>,
    s: Seq<u8>,
    i: int,
    m: int,
)
    requires
        conforms_entries(es, tk, tv),
        es.len() <= MAX_LEN,
        0 <= m < es.len() - 1,
        forall|j: int| 0 <= j < m ==> #[trigger] lex_lt(enc(es[j].0), enc(es[j + 1].0)),
        !lex_lt(enc(es[m].0), enc(es[m + 1].0)),
        0 <= i,
        i + 4 + enc_entries(es).len() <= s.len(),
        segment(s, i, 4) == be_bytes(es.len(), 4),
        segment(s, i + 4, enc_entries(es).len() as int) == enc_entries(es),
    ensures
        forall|bk: Box<TypeDesc>, bv: Box<TypeDesc>|
            *bk == tk && *bv == tv ==> dec_val(TypeDesc::MapOf(bk, bv), s, i) == Err::<
                (VVal, int),
                DecodeError,
            >(
                if enc(es[m].0) == enc(es[m + 1].0) {
                    DecodeError::DuplicateMapKey
                } else {
                    DecodeError::UnorderedMapKeys
                },
            ),
{
    lemma_p256_widths();
    lemma_from_be_be(es.len(), 4);
    lemma_entries_reject_noncanonical(tk, tv, es, s, i + 4, Option::None, m);
}

} // verus!

verus! {

/// Map keys are totally ordered: two conforming values of one key shape are
/// equal or strictly ordered by their encodings, one way or the other.
pub proof fn lemma_keys_totally_ordered(k1: VVal, k2: VVal, t: TypeDesc)
    requires
        conforms(k1, t),
        conforms(k2, t),
    ensures
        k1 == k2 || lex_lt(enc(k1), enc(k2)) || lex_lt(enc(k2), enc(k1)),
{
    crate::numeric::lemma_lex_total(enc(k1), enc(k2));
    if enc(k1) == enc(k2) {
        lemma_enc_injective(k1, k2, t);
    }
}

} // verus!
