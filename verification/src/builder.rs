//! Map construction: insert an entry into a run kept in canonical
//! (ascending-key) order. A repeated key is a construction-time error, so a
//! well-formed map can only be built with unique keys, in whatever order its
//! entries arrive.

use vstd::prelude::*;
use crate::encode::encode;
use crate::laws::{lemma_sorted_head_min, lemma_sorted_skip};
use crate::numeric::{lemma_lex_common_prefix, lemma_lex_irrefl, lemma_lex_trans, lex_lt};
use crate::value::{vview, vview_entries, Value, VVal};
use crate::wire::{enc, entries_sorted};

verus! {

broadcast use crate::value::vview_entries_len, crate::value::vview_entries_index;

/// Sortedness of an entry run, stated pairwise over its indices.
pub proof fn lemma_sorted_iff_pairs(es: Seq<(VVal, VVal)>)
    ensures
        entries_sorted(es) <==> (forall|i: int|
            0 <= i < es.len() - 1 ==> #[trigger] lex_lt(enc(es[i].0), enc(es[i + 1].0))),
    decreases es.len(),
{
    if es.len() > 1 {
        lemma_sorted_iff_pairs(es.skip(1));
        assert(forall|i: int| 0 <= i < es.skip(1).len() ==> #[trigger] es.skip(1)[i] == es[i + 1]);
        if entries_sorted(es) {
            assert forall|i: int| 0 <= i < es.len() - 1 implies #[trigger] lex_lt(
                enc(es[i].0),
                enc(es[i + 1].0),
            ) by {
                if i > 0 {
                    assert(lex_lt(enc(es.skip(1)[i - 1].0), enc(es.skip(1)[i - 1 + 1].0)));
                }
            }
        }
        if forall|i: int| 0 <= i < es.len() - 1 ==> #[trigger] lex_lt(enc(es[i].0), enc(es[i + 1].0)) {
            assert forall|i: int| 0 <= i < es.skip(1).len() - 1 implies #[trigger] lex_lt(
                enc(es.skip(1)[i].0),
                enc(es.skip(1)[i + 1].0),
            ) by {
                assert(lex_lt(enc(es[i + 1].0), enc(es[i + 1 + 1].0)));
            }
            assert(lex_lt(enc(es[0int].0), enc(es[1int].0)));
        }
    }
}

/// In a sorted entry run, key encodings grow strictly with the index.
pub proof fn lemma_sorted_index_lt(es: Seq<(VVal, VVal)>, i: int, j: int)
    requires
        entries_sorted(es),
        0 <= i < j < es.len(),
    ensures
        lex_lt(enc(es[i].0), enc(es[j].0)),
    decreases i,
{
    if i == 0 {
        lemma_sorted_head_min(es, j);
    } else {
        lemma_sorted_skip(es);
        assert(es.skip(1)[i - 1] == es[i]);
        assert(es.skip(1)[j - 1] == es[j]);
        lemma_sorted_index_lt(es.skip(1), i - 1, j - 1);
    }
}

/// Three-way outcome of a byte-string comparison.
enum KeyCmp {
    Lt,
    Eq,
    Gt,
}

/// Compare two byte strings in lexicographic order.
fn cmp_bytes(a: &Vec<u8>, b: &Vec<u8>) -> (r: KeyCmp)
    ensures
        match r {
            KeyCmp::Lt => lex_lt(a@, b@),
            KeyCmp::Eq => a@ == b@,
            KeyCmp::Gt => lex_lt(b@, a@),
        },
{
    let la = a.len();
    let lb = b.len();
    let mut j: usize = 0;
    while j < la && j < lb
        invariant
            la == a@.len(),
            lb == b@.len(),
            j <= la,
            j <= lb,
            forall|t: int| 0 <= t < j ==> a@[t] == b@[t],
        decreases la - j,
    {
        let x = a[j];
        let y = b[j];
        if x < y {
            proof {
                lemma_lex_common_prefix(a@, b@, j as int);
            }
            return KeyCmp::Lt;
        }
        if x > y {
            proof {
                lemma_lex_common_prefix(b@, a@, j as int);
            }
            return KeyCmp::Gt;
        }
        j = j + 1;
    }
    if la == lb {
        proof {
            assert(a@ =~= b@);
        }
        KeyCmp::Eq
    } else if la < lb {
        proof {
            lemma_lex_common_prefix(a@, b@, j as int);
        }
        KeyCmp::Lt
    } else {
        proof {
            lemma_lex_common_prefix(b@, a@, j as int);
        }
        KeyCmp::Gt
    }
}

/// Where a key with encoding `ek` belongs in a sorted entry run: the first
/// position whose key encoding is not below `ek`. `Err` names a position
/// whose key has exactly the encoding `ek`.
fn find_pos(entries: &Vec<(Value, Value)>, ek: &Vec<u8>) -> (r: Result<usize, usize>)
    ensures
        match r {
            Ok(p) => p <= entries@.len() && (forall|j: int|
                0 <= j < p ==> lex_lt(enc(vview(#[trigger] entries@[j].0)), ek@)) && (p
                < entries@.len() ==> lex_lt(ek@, enc(vview(entries@[p as int].0)))),
            Err(d) => d < entries@.len() && enc(vview(entries@[d as int].0)) == ek@,
        },
{
    let mut p: usize = 0;
    while p < entries.len()
        invariant
            p <= entries@.len(),
            forall|j: int| 0 <= j < p ==> lex_lt(enc(vview(#[trigger] entries@[j].0)), ek@),
        decreases entries@.len() - p,
    {
        let ep = encode(&entries[p].0);
        match cmp_bytes(&ep, ek) {
            KeyCmp::Lt => {
                p = p + 1;
            },
            KeyCmp::Eq => {
                return Err(p);
            },
            KeyCmp::Gt => {
                return Ok(p);
            },
        }
    }
    Ok(p)
}

/// Insert an entry into a map's sorted entry run, keeping canonical order.
/// A key already present — same key encoding, hence by injectivity the same
/// key — is a construction-time error: the run is left unbuilt and `None`
/// comes back. The result is independent of the order in which the entries
/// of a map were inserted, because the run stays sorted and keys are unique.
pub fn map_insert(entries: Vec<(Value, Value)>, key: Value, val: Value) -> (r: Option<
    Vec<(Value, Value)>,
>)
    requires
        entries_sorted(vview_entries(entries@)),
    ensures
        match r {
            Some(out) => {
                &&& entries_sorted(vview_entries(out@))
                &&& out@.len() == entries@.len() + 1
                &&& forall|x: (VVal, VVal)|
                    vview_entries(out@).contains(x) <==> (vview_entries(entries@).contains(x) || x
                        == (key@, val@))
                &&& forall|j: int|
                    0 <= j < entries@.len() ==> enc(vview(#[trigger] entries@[j].0)) != enc(key@)
            },
            None => exists|d: int|
                0 <= d < entries@.len() && enc(vview(#[trigger] entries@[d].0)) == enc(key@),
        },
{
    let ek = encode(&key);
    let ghost esv = vview_entries(entries@);
    proof {
        lemma_sorted_iff_pairs(esv);
    }
    proof {
        lemma_lex_irrefl(enc(key@));
    }
    match find_pos(&entries, &ek) {
        Err(d) => {
            proof {
                assert(enc(vview(entries@[d as int].0)) == enc(key@));
            }
            None
        },
        Ok(p) => {
            proof {
                assert forall|j: int|
                    0 <= j < entries@.len() implies enc(vview(#[trigger] entries@[j].0)) != enc(
                    key@,
                ) by {
                    let kj = enc(vview(entries@[j].0));
                    assert(kj == enc(esv[j].0));
                    if j < p {
                        if kj == enc(key@) {
                            assert(lex_lt(enc(key@), enc(key@)));
                        }
                    } else {
                        if j > p {
                            lemma_sorted_index_lt(esv, p as int, j);
                            lemma_lex_trans(enc(key@), enc(esv[p as int].0), kj);
                        }
                        if kj == enc(key@) {
                            assert(lex_lt(enc(key@), enc(key@)));
                        }
                    }
                }
            }
            let ghost pair = (key@, val@);
            let mut out = entries;
            let ghost old_entries = out@;
            out.insert(p, (key, val));
            proof {
                old_entries.insert_ensures(p as int, (key, val));
                let osv = vview_entries(out@);
                assert(out@.len() == old_entries.len() + 1);
                assert forall|i: int| 0 <= i < p implies osv[i] == esv[i] by {
                    assert(out@[i] == old_entries[i]);
                }
                assert(osv[p as int] == pair);
                assert forall|i: int| p < i < osv.len() implies osv[i] == esv[i - 1] by {
                    assert(out@[(i - 1) + 1] == old_entries[i - 1]);
                }
                assert forall|i: int| 0 <= i < osv.len() - 1 implies #[trigger] lex_lt(
                    enc(osv[i].0),
                    enc(osv[i + 1].0),
                ) by {
                    if i + 1 < p {
                        assert(lex_lt(enc(esv[i].0), enc(esv[i + 1].0)));
                    } else if i + 1 == p {
                        assert(lex_lt(enc(vview(entries@[i].0)), enc(key@)));
                    } else if i == p {
                        assert(lex_lt(enc(key@), enc(vview(entries@[i].0))));
                    } else {
                        assert(lex_lt(enc(esv[i - 1].0), enc(esv[i - 1 + 1].0)));
                    }
                }
                lemma_sorted_iff_pairs(osv);
                assert forall|x: (VVal, VVal)|
                    osv.contains(x) <==> (esv.contains(x) || x == pair) by {
                    if osv.contains(x) {
                        let i = choose|i: int| 0 <= i < osv.len() && osv[i] == x;
                        if i < p {
                            assert(esv[i] == x);
                            assert(esv.contains(x));
                        } else if i > p {
                            assert(esv[i - 1] == x);
                            assert(esv.contains(x));
                        }
                    }
                    if esv.contains(x) {
                        let i = choose|i: int| 0 <= i < esv.len() && esv[i] == x;
                        if i < p {
                            assert(osv[i] == x);
                        } else {
                            assert(osv[i + 1] == x);
                        }
                        assert(osv.contains(x));
                    }
                    if x == pair {
                        assert(osv[p as int] == x);
                        assert(osv.contains(x));
                    }
                }
            }
            Some(out)
        },
    }
}

} // verus!
