//! Big-endian byte strings for fixed-width integers, two's-complement
//! representations for the signed widths, and lexicographic order on byte
//! strings (the key order of maps).

use vstd::prelude::*;
use vstd::arithmetic::div_mod::{
    lemma_div_multiples_vanish_fancy, lemma_fundamental_div_mod, lemma_mod_multiples_vanish,
    lemma_small_mod,
};

verus! {

/// 256 raised to the n-th power: the number of distinct n-byte strings.
pub open spec fn p256(n: nat) -> nat
    decreases n,
{
    if n == 0 {
        1
    } else {
        256 * p256((n - 1) as nat)
    }
}

/// The big-endian bytes of `x`, exactly `n` of them, most significant first.
/// Only the low `n` bytes of `x` are represented.
pub open spec fn be_bytes(x: nat, n: nat) -> Seq<u8>
    decreases n,
{
    if n == 0 {
        Seq::empty()
    } else {
        be_bytes(x / 256, (n - 1) as nat).push((x % 256) as u8)
    }
}

/// The number a big-endian byte string stands for.
pub open spec fn from_be(s: Seq<u8>) -> nat
    decreases s,
{
    if s.len() == 0 {
        0
    } else {
        from_be(s.drop_last()) * 256 + (s.last() as nat)
    }
}

pub broadcast proof fn be_bytes_len(x: nat, n: nat)
    ensures
        #[trigger] be_bytes(x, n).len() == n,
    decreases n,
{
    if n > 0 {
        be_bytes_len(x / 256, (n - 1) as nat);
    }
}

pub broadcast proof fn from_be_bound(s: Seq<u8>)
    ensures
        #[trigger] from_be(s) < p256(s.len()),
    decreases s,
{
    if s.len() > 0 {
        from_be_bound(s.drop_last());
    }
}

/// Reading back the big-endian bytes of `x` yields `x` when `x` fits.
pub proof fn lemma_from_be_be(x: nat, n: nat)
    requires
        x < p256(n),
    ensures
        from_be(be_bytes(x, n)) == x,
    decreases n,
{
    if n > 0 {
        assert(x / 256 < p256((n - 1) as nat)) by {
            lemma_fundamental_div_mod(x as int, 256);
        }
        lemma_from_be_be(x / 256, (n - 1) as nat);
        be_bytes_len(x / 256, (n - 1) as nat);
        let b = be_bytes(x, n);
        assert(b.drop_last() =~= be_bytes(x / 256, (n - 1) as nat));
        lemma_fundamental_div_mod(x as int, 256);
    }
}

/// Every n-byte string is the big-endian form of the number it stands for:
/// the representation is canonical.
pub proof fn lemma_be_from_be(s: Seq<u8>)
    ensures
        be_bytes(from_be(s), s.len()) == s,
    decreases s,
{
    if s.len() > 0 {
        let fd = from_be(s.drop_last());
        let l = s.last() as nat;
        let f = from_be(s);
        assert(f == 256 * fd + l);
        assert(f % 256 == l) by {
            lemma_mod_multiples_vanish(fd as int, l as int, 256);
            lemma_small_mod(l, 256);
        }
        assert(f / 256 == fd) by {
            lemma_div_multiples_vanish_fancy(fd as int, l as int, 256);
        }
        lemma_be_from_be(s.drop_last());
        assert(be_bytes(f, s.len()) =~= s);
    }
}

/// Values of `p256` at the byte widths the wire format uses.
pub proof fn lemma_p256_widths()
    ensures
        p256(4) == 0x1_0000_0000,
        p256(8) == 0x1_0000_0000_0000_0000,
        p256(16) == 0x1_0000_0000_0000_0000_0000_0000_0000_0000,
{
    reveal_with_fuel(p256, 17);
}

/// Two's-complement representation of a 32-bit signed integer.
pub open spec fn rep32(x: i32) -> nat {
    if x >= 0 {
        x as nat
    } else {
        (x + 0x1_0000_0000) as nat
    }
}

/// The 32-bit signed integer a representation below 2^32 stands for.
pub open spec fn unrep32(u: nat) -> int {
    if u < 0x8000_0000 {
        u as int
    } else {
        u - 0x1_0000_0000
    }
}

pub proof fn lemma_rep32(x: i32)
    ensures
        rep32(x) < p256(4),
        unrep32(rep32(x)) == x,
{
    lemma_p256_widths();
}

pub proof fn lemma_unrep32(u: nat)
    requires
        u < p256(4),
    ensures
        -0x8000_0000 <= unrep32(u) < 0x8000_0000,
        rep32(unrep32(u) as i32) == u,
{
    lemma_p256_widths();
}

/// Two's-complement representation of a 64-bit signed integer.
pub open spec fn rep64(x: i64) -> nat {
    if x >= 0 {
        x as nat
    } else {
        (x + 0x1_0000_0000_0000_0000) as nat
    }
}

pub open spec fn unrep64(u: nat) -> int {
    if u < 0x8000_0000_0000_0000 {
        u as int
    } else {
        u - 0x1_0000_0000_0000_0000
    }
}

pub proof fn lemma_rep64(x: i64)
    ensures
        rep64(x) < p256(8),
        unrep64(rep64(x)) == x,
{
    lemma_p256_widths();
}

pub proof fn lemma_unrep64(u: nat)
    requires
        u < p256(8),
    ensures
        -0x8000_0000_0000_0000 <= unrep64(u) < 0x8000_0000_0000_0000,
        rep64(unrep64(u) as i64) == u,
{
    lemma_p256_widths();
}

/// Two's-complement representation of a 128-bit signed integer.
pub open spec fn rep128(x: i128) -> nat {
    if x >= 0 {
        x as nat
    } else {
        (x + 0x1_0000_0000_0000_0000_0000_0000_0000_0000) as nat
    }
}

pub open spec fn unrep128(u: nat) -> int {
    if u < 0x8000_0000_0000_0000_0000_0000_0000_0000 {
        u as int
    } else {
        u - 0x1_0000_0000_0000_0000_0000_0000_0000_0000
    }
}

pub proof fn lemma_rep128(x: i128)
    ensures
        rep128(x) < p256(16),
        unrep128(rep128(x)) == x,
{
    lemma_p256_widths();
}

pub proof fn lemma_unrep128(u: nat)
    requires
        u < p256(16),
    ensures
        -0x8000_0000_0000_0000_0000_0000_0000_0000 <= unrep128(u)
            < 0x8000_0000_0000_0000_0000_0000_0000_0000,
        rep128(unrep128(u) as i128) == u,
{
    lemma_p256_widths();
}

/// Strict lexicographic order on byte strings: a proper prefix comes first,
/// otherwise the first differing byte decides.
pub open spec fn lex_lt(a: Seq<u8>, b: Seq<u8>) -> bool
    decreases a,
{
    if b.len() == 0 {
        false
    } else if a.len() == 0 {
        true
    } else if a[0] < b[0] {
        true
    } else if a[0] > b[0] {
        false
    } else {
        lex_lt(a.skip(1), b.skip(1))
    }
}

/// Two byte strings with equal heads and equal tails are equal.
pub proof fn lemma_head_tail_eq(a: Seq<u8>, b: Seq<u8>)
    requires
        a.len() > 0,
        b.len() > 0,
        a[0] == b[0],
        a.skip(1) == b.skip(1),
    ensures
        a == b,
{
    assert(a.skip(1).len() == a.len() - 1);
    assert(b.skip(1).len() == b.len() - 1);
    assert forall|i: int| 0 <= i < a.len() implies a[i] == b[i] by {
        if i >= 1 {
            assert(a.skip(1)[i - 1] == a[i]);
            assert(b.skip(1)[i - 1] == b[i]);
        }
    }
    assert(a =~= b);
}

pub proof fn lemma_lex_irrefl(a: Seq<u8>)
    ensures
        !lex_lt(a, a),
    decreases a,
{
    if a.len() > 0 {
        lemma_lex_irrefl(a.skip(1));
    }
}

pub proof fn lemma_lex_asym(a: Seq<u8>, b: Seq<u8>)
    requires
        lex_lt(a, b),
    ensures
        !lex_lt(b, a),
    decreases a,
{
    if a.len() > 0 && b.len() > 0 && a[0] == b[0] {
        lemma_lex_asym(a.skip(1), b.skip(1));
    }
}

pub proof fn lemma_lex_trans(a: Seq<u8>, b: Seq<u8>, c: Seq<u8>)
    requires
        lex_lt(a, b),
        lex_lt(b, c),
    ensures
        lex_lt(a, c),
    decreases a,
{
    if a.len() > 0 && b.len() > 0 && c.len() > 0 && a[0] == b[0] && b[0] == c[0] {
        lemma_lex_trans(a.skip(1), b.skip(1), c.skip(1));
    }
}

/// Lexicographic order is total: distinct byte strings are ordered.
pub proof fn lemma_lex_total(a: Seq<u8>, b: Seq<u8>)
    ensures
        a == b || lex_lt(a, b) || lex_lt(b, a),
    decreases a,
{
    if a.len() > 0 && b.len() > 0 && a[0] == b[0] {
        lemma_lex_total(a.skip(1), b.skip(1));
        if a.skip(1) == b.skip(1) {
            lemma_head_tail_eq(a, b);
        }
    }
}

} // verus!

verus! {

/// `p256` grows with the width.
pub proof fn lemma_p256_le(a: nat, b: nat)
    requires
        a <= b,
    ensures
        p256(a) <= p256(b),
    decreases b,
{
    if a < b {
        lemma_p256_le(a, (b - 1) as nat);
    }
}

/// With the first `k` bytes equal, lexicographic order is decided past them.
pub proof fn lemma_lex_common_prefix(a: Seq<u8>, b: Seq<u8>, k: int)
    requires
        0 <= k <= a.len(),
        k <= b.len(),
        forall|j: int| 0 <= j < k ==> a[j] == b[j],
    ensures
        lex_lt(a, b) == lex_lt(a.skip(k), b.skip(k)),
    decreases k,
{
    if k > 0 {
        assert(forall|j: int|
            0 <= j < k - 1 ==> a.skip(1)[j] == a[j + 1] && b.skip(1)[j] == b[j + 1]);
        lemma_lex_common_prefix(a.skip(1), b.skip(1), k - 1);
        assert(a.skip(1).skip(k - 1) =~= a.skip(k));
        assert(b.skip(1).skip(k - 1) =~= b.skip(k));
    } else {
        assert(a.skip(0) =~= a);
        assert(b.skip(0) =~= b);
    }
}

} // verus!
