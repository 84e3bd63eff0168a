//! Substring containment over character sequences, the order behind atom
//! absorption.

use vstd::prelude::*;

verus! {

/// Whether `needle` occurs contiguously inside `hay`.
pub open spec fn is_substr(needle: Seq<char>, hay: Seq<char>) -> bool {
    exists|k: int|
        0 <= k && k + needle.len() <= hay.len() && #[trigger] hay.subrange(k, k + needle.len())
            == needle
}

/// Containment is reflexive: every sequence occurs in itself.
pub proof fn lemma_substr_refl(a: Seq<char>)
    ensures
        is_substr(a, a),
{
    assert(a.subrange(0, 0 + a.len() as int) =~= a);
}

/// Two sequences of equal length containing one another are equal.
pub proof fn lemma_substr_same_len(a: Seq<char>, b: Seq<char>)
    requires
        is_substr(a, b),
        a.len() == b.len(),
    ensures
        a == b,
{
    let k = choose|k: int|
        0 <= k && k + a.len() <= b.len() && #[trigger] b.subrange(k, k + a.len()) == a;
    assert(b.subrange(0, b.len() as int) =~= b);
}

/// Whether `needle` occurs in `hay` starting at position `k`.
fn match_at(hay: &str, k: usize, needle: &str) -> (r: bool)
    requires
        k + needle@.len() <= hay@.len(),
    ensures
        r == (hay@.subrange(k as int, k + needle@.len()) == needle@),
{
    let nn = needle.unicode_len();
    let hn = hay.unicode_len();
    let mut j: usize = 0;
    while j < nn
        invariant
            j <= nn,
            nn == needle@.len(),
            hn == hay@.len(),
            k + nn <= hay@.len(),
            forall|m: int| 0 <= m < j ==> hay@[k + m] == needle@[m],
        decreases nn - j,
    {
        if hay.get_char(k + j) != needle.get_char(j) {
            proof {
                assert(hay@.subrange(k as int, k + needle@.len())[j as int] == hay@[k + j]);
            }
            return false;
        }
        j += 1;
    }
    proof {
        assert(hay@.subrange(k as int, k + needle@.len()) =~= needle@);
    }
    true
}

/// Whether `needle` occurs anywhere inside `hay`, by character content.
pub fn str_contains(hay: &str, needle: &str) -> (r: bool)
    ensures
        r == is_substr(needle@, hay@),
{
    let hn = hay.unicode_len();
    let nn = needle.unicode_len();
    if nn > hn {
        return false;
    }
    if nn == 0 {
        proof {
            assert(hay@.subrange(0, 0 + needle@.len() as int) =~= needle@);
        }
        return true;
    }
    let mut k: usize = 0;
    while k <= hn - nn
        invariant
            0 < nn <= hn,
            hn == hay@.len(),
            nn == needle@.len(),
            forall|p: int|
                0 <= p < k ==> #[trigger] hay@.subrange(p, p + needle@.len()) != needle@,
        decreases hn + 1 - k,
    {
        if match_at(hay, k, needle) {
            return true;
        }
        k += 1;
    }
    false
}

} // verus!
