//! Byte strings and their dictionary order.
//!
//! Keys of the store are compared byte by byte, the shorter of two strings
//! that agree sorting first. This module states that order and proves the
//! facts about it on which the key schema rests.

use vstd::prelude::*;
use vstd::utf8::{encode_utf8, encode_utf8_decode_utf8};

verus! {

/// `a` and `b` hold the same bytes at every index below `k`.
pub open spec fn agree(a: Seq<u8>, b: Seq<u8>, k: int) -> bool {
    &&& 0 <= k <= a.len()
    &&& k <= b.len()
    &&& forall|j: int| 0 <= j < k ==> a[j] == b[j]
}

/// `a` sorts before `b`, and index `k` decides it: the two agree below `k`,
/// and there `a` has ended or holds the smaller byte.
pub open spec fn decides_at(a: Seq<u8>, b: Seq<u8>, k: int) -> bool {
    &&& agree(a, b, k)
    &&& k < b.len()
    &&& (k == a.len() || a[k] < b[k])
}

/// Strict dictionary order on byte strings.
pub open spec fn lex_lt(a: Seq<u8>, b: Seq<u8>) -> bool {
    exists|k: int| decides_at(a, b, k)
}

/// Dictionary order on byte strings.
pub open spec fn lex_le(a: Seq<u8>, b: Seq<u8>) -> bool {
    a == b || lex_lt(a, b)
}

/// No byte of `s` is `byte`.
pub open spec fn lacks(s: Seq<u8>, byte: u8) -> bool {
    forall|i: int| 0 <= i < s.len() ==> s[i] != byte
}

/// No string sorts before itself.
pub proof fn lemma_lex_irreflexive(a: Seq<u8>)
    ensures
        !lex_lt(a, a),
{
    if lex_lt(a, a) {
        let k = choose|k: int| decides_at(a, a, k);
        assert(false);
    }
}

/// Of two strings at most one sorts before the other.
pub proof fn lemma_lex_asymmetric(a: Seq<u8>, b: Seq<u8>)
    ensures
        !(lex_lt(a, b) && lex_lt(b, a)),
{
    if lex_lt(a, b) && lex_lt(b, a) {
        let k1 = choose|k: int| decides_at(a, b, k);
        let k2 = choose|k: int| decides_at(b, a, k);
        if k1 < k2 {
            assert(b[k1] == a[k1]);
        } else if k2 < k1 {
            assert(a[k2] == b[k2]);
        }
        assert(false);
    }
}

/// The order is transitive.
pub proof fn lemma_lex_transitive(a: Seq<u8>, b: Seq<u8>, c: Seq<u8>)
    requires
        lex_lt(a, b),
        lex_lt(b, c),
    ensures
        lex_lt(a, c),
{
    let k1 = choose|k: int| decides_at(a, b, k);
    let k2 = choose|k: int| decides_at(b, c, k);
    let k = if k1 <= k2 { k1 } else { k2 };
    assert forall|j: int| 0 <= j < k implies a[j] == c[j] by {
        assert(a[j] == b[j]);
        assert(b[j] == c[j]);
    }
    if k1 < k2 {
        assert(b[k1] == c[k1]);
    } else if k2 < k1 {
        assert(a[k2] == b[k2]);
    }
    assert(decides_at(a, c, k));
}

/// Two strings that agree below `i` are equal or one sorts before the other.
proof fn lemma_lex_total_from(a: Seq<u8>, b: Seq<u8>, i: int)
    requires
        agree(a, b, i),
    ensures
        lex_lt(a, b) || a == b || lex_lt(b, a),
    decreases a.len() - i,
{
    if i == a.len() {
        if i == b.len() {
            assert(a =~= b);
        } else {
            assert(decides_at(a, b, i));
        }
    } else if i == b.len() {
        assert(decides_at(b, a, i));
    } else if a[i] < b[i] {
        assert(decides_at(a, b, i));
    } else if b[i] < a[i] {
        assert(decides_at(b, a, i));
    } else {
        lemma_lex_total_from(a, b, i + 1);
    }
}

/// The order is total.
pub proof fn lemma_lex_total(a: Seq<u8>, b: Seq<u8>)
    ensures
        lex_lt(a, b) || a == b || lex_lt(b, a),
{
    lemma_lex_total_from(a, b, 0);
}

/// A common prefix does not change how two strings compare.
pub proof fn lemma_lex_prefix_cancel(p: Seq<u8>, a: Seq<u8>, b: Seq<u8>)
    ensures
        lex_lt(p + a, p + b) <==> lex_lt(a, b),
{
    let n = p.len() as int;
    if lex_lt(a, b) {
        let k = choose|k: int| decides_at(a, b, k);
        assert forall|j: int| 0 <= j < n + k implies (p + a)[j] == (p + b)[j] by {
            if j >= n {
                assert(a[j - n] == b[j - n]);
            }
        }
        assert(decides_at(p + a, p + b, n + k));
    }
    if lex_lt(p + a, p + b) {
        let k = choose|k: int| decides_at(p + a, p + b, k);
        if k < n {
            assert((p + a)[k] == p[k]);
            assert((p + b)[k] == p[k]);
            assert(false);
        }
        assert forall|j: int| 0 <= j < k - n implies a[j] == b[j] by {
            assert((p + a)[j + n] == (p + b)[j + n]);
        }
        if k - n < a.len() {
            assert((p + a)[k] == a[k - n]);
        }
        assert((p + b)[k] == b[k - n]);
        assert(decides_at(a, b, k - n));
    }
}

/// Where two strings of one length compare, what follows them does not
/// matter.
pub proof fn lemma_lex_extend(a: Seq<u8>, b: Seq<u8>, s: Seq<u8>, t: Seq<u8>)
    requires
        a.len() == b.len(),
        lex_lt(a, b),
    ensures
        lex_lt(a + s, b + t),
{
    let k = choose|k: int| decides_at(a, b, k);
    assert forall|j: int| 0 <= j < k implies (a + s)[j] == (b + t)[j] by {
        assert(a[j] == b[j]);
    }
    assert((a + s)[k] == a[k]);
    assert((b + t)[k] == b[k]);
    assert(decides_at(a + s, b + t, k));
}

/// A string that sorts at or after `p` and before some extension of `p`
/// begins with `p`.
pub proof fn lemma_between_has_prefix(p: Seq<u8>, t: Seq<u8>, k: Seq<u8>)
    requires
        lex_le(p, k),
        lex_lt(k, p + t),
    ensures
        p.is_prefix_of(k),
{
    if p == k {
        assert(k.subrange(0, p.len() as int) =~= p);
    } else {
        let j = choose|j: int| decides_at(p, k, j);
        let m = choose|m: int| decides_at(k, p + t, m);
        if j < p.len() {
            if m < j {
                assert(p[m] == k[m]);
                assert((p + t)[m] == p[m]);
            } else if m == j {
                assert((p + t)[j] == p[j]);
            } else {
                assert(k[j] == (p + t)[j]);
                assert((p + t)[j] == p[j]);
            }
            assert(false);
        }
        assert(k.subrange(0, p.len() as int) =~= p);
    }
}

/// A string that begins with `p` sorts at or after `p`.
pub proof fn lemma_prefix_sorts_first(p: Seq<u8>, t: Seq<u8>)
    ensures
        lex_le(p, p + t),
{
    if t.len() == 0 {
        assert(p + t =~= p);
    } else {
        assert(decides_at(p, p + t, p.len() as int));
    }
}

/// Tests whether two byte strings are equal.
pub fn bytes_eq(a: &[u8], b: &[u8]) -> (same: bool)
    ensures
        same == (a@ == b@),
{
    if a.len() != b.len() {
        return false;
    }
    let mut i: usize = 0;
    while i < a.len()
        invariant
            a.len() == b.len(),
            i <= a.len(),
            forall|j: int| 0 <= j < i ==> a@[j] == b@[j],
        decreases a.len() - i,
    {
        if a[i] != b[i] {
            return false;
        }
        i += 1;
    }
    assert(a@ =~= b@);
    true
}

/// Two strings with the same UTF-8 bytes are the same string.
pub proof fn lemma_encode_injective(a: Seq<char>, b: Seq<char>)
    requires
        encode_utf8(a) == encode_utf8(b),
    ensures
        a == b,
{
    encode_utf8_decode_utf8(a);
    encode_utf8_decode_utf8(b);
}

/// Tests whether two strings are equal.
pub fn str_eq(a: &str, b: &str) -> (same: bool)
    ensures
        same == (a@ == b@),
{
    let same = bytes_eq(a.as_bytes(), b.as_bytes());
    proof {
        if same {
            lemma_encode_injective(a@, b@);
        }
    }
    same
}

/// Tests whether `a` sorts before `b`.
pub fn bytes_lt(a: &[u8], b: &[u8]) -> (before: bool)
    ensures
        before == lex_lt(a@, b@),
{
    let mut i: usize = 0;
    while i < a.len() && i < b.len()
        invariant
            agree(a@, b@, i as int),
        decreases a.len() - i,
    {
        if a[i] < b[i] {
            assert(decides_at(a@, b@, i as int));
            return true;
        }
        if a[i] > b[i] {
            proof {
                assert(decides_at(b@, a@, i as int));
                lemma_lex_asymmetric(a@, b@);
            }
            return false;
        }
        i += 1;
    }
    if i < b.len() {
        assert(decides_at(a@, b@, i as int));
        true
    } else {
        proof {
            if i < a.len() {
                assert(decides_at(b@, a@, i as int));
                lemma_lex_asymmetric(a@, b@);
            } else {
                assert(a@ =~= b@);
                lemma_lex_irreflexive(a@);
            }
        }
        false
    }
}

/// Index of the first `byte` in `s`, if it holds one.
pub fn find_first(s: &[u8], byte: u8) -> (at: Option<usize>)
    ensures
        match at {
            Some(i) => i < s.len() && s@[i as int] == byte && lacks(s@.subrange(0, i as int), byte),
            None => lacks(s@, byte),
        },
{
    let mut i: usize = 0;
    while i < s.len()
        invariant
            i <= s.len(),
            forall|j: int| 0 <= j < i ==> s@[j] != byte,
        decreases s.len() - i,
    {
        if s[i] == byte {
            return Some(i);
        }
        i += 1;
    }
    None
}

/// Index of the last `byte` in `s`, if it holds one.
pub fn find_last(s: &[u8], byte: u8) -> (at: Option<usize>)
    ensures
        match at {
            Some(i) => i < s.len() && s@[i as int] == byte && lacks(
                s@.subrange(i as int + 1, s.len() as int),
                byte,
            ),
            None => lacks(s@, byte),
        },
{
    let mut i: usize = s.len();
    while i > 0
        invariant
            i <= s.len(),
            forall|j: int| i <= j < s.len() ==> s@[j] != byte,
        decreases i,
    {
        i -= 1;
        if s[i] == byte {
            return Some(i);
        }
    }
    None
}

} // verus!
