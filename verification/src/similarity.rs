//! Pairwise signature similarity: canonical ordering of handle pairs and
//! the count of agreeing signature positions.

use vstd::prelude::*;
use crate::data_model::{Sig, SigEntry};

verus! {

/// Strict lexicographic order on character sequences by code point, the
/// order in which the standard library compares strings.
pub open spec fn lex_lt(a: Seq<char>, b: Seq<char>) -> bool
    decreases a.len(),
{
    if b.len() == 0 {
        false
    } else if a.len() == 0 {
        true
    } else if (a[0] as u32) < (b[0] as u32) {
        true
    } else if a[0] != b[0] {
        false
    } else {
        lex_lt(a.drop_first(), b.drop_first())
    }
}

/// Distinct characters have distinct code points.
proof fn lemma_char_distinct(x: char, y: char)
    requires
        x != y,
    ensures
        x as u32 != y as u32,
{
}

/// The order is total: two sequences are ordered one way, the other, or equal.
pub proof fn lemma_lex_total(a: Seq<char>, b: Seq<char>)
    ensures
        lex_lt(a, b) || lex_lt(b, a) || a == b,
    decreases a.len(),
{
    if a.len() == 0 && b.len() == 0 {
        assert(a =~= b);
    } else if a.len() > 0 && b.len() > 0 {
        let x = a[0];
        let y = b[0];
        if x == y {
            lemma_lex_total(a.drop_first(), b.drop_first());
            if a.drop_first() == b.drop_first() {
                assert(a =~= seq![x] + a.drop_first());
                assert(b =~= seq![y] + b.drop_first());
            }
        } else {
            lemma_char_distinct(x, y);
            if (x as u32) < (y as u32) {
                assert(lex_lt(a, b));
            } else {
                assert((y as u32) < (x as u32));
                assert(lex_lt(b, a));
            }
        }
    }
}

/// The order is asymmetric.
pub proof fn lemma_lex_asym(a: Seq<char>, b: Seq<char>)
    requires
        lex_lt(a, b),
    ensures
        !lex_lt(b, a),
    decreases a.len(),
{
    if a.len() > 0 && b.len() > 0 && a[0] == b[0] {
        lemma_lex_asym(a.drop_first(), b.drop_first());
    }
}

/// The order is transitive.
pub proof fn lemma_lex_trans(a: Seq<char>, b: Seq<char>, c: Seq<char>)
    requires
        lex_lt(a, b),
        lex_lt(b, c),
    ensures
        lex_lt(a, c),
    decreases a.len(),
{
    if a.len() > 0 && b.len() > 0 && c.len() > 0 {
        let x = a[0];
        let y = b[0];
        let z = c[0];
        if x == y && y == z {
            lemma_lex_trans(a.drop_first(), b.drop_first(), c.drop_first());
        } else {
            if x != y {
                lemma_char_distinct(x, y);
            }
            if y != z {
                lemma_char_distinct(y, z);
            }
            if x != z {
                lemma_char_distinct(x, z);
            }
        }
    }
}

/// Compares two strings in lexicographic code-point order.
pub fn str_lt(a: &str, b: &str) -> (r: bool)
    ensures
        r == lex_lt(a@, b@),
{
    let alen = a.unicode_len();
    let blen = b.unicode_len();
    let mut i: usize = 0;
    proof {
        assert(a@.skip(0) =~= a@);
        assert(b@.skip(0) =~= b@);
    }
    loop
        invariant
            i <= alen,
            i <= blen,
            alen == a@.len(),
            blen == b@.len(),
            lex_lt(a@, b@) == lex_lt(a@.skip(i as int), b@.skip(i as int)),
        decreases alen - i,
    {
        if i >= blen {
            proof {
                assert(b@.skip(i as int).len() == 0);
            }
            return false;
        }
        if i >= alen {
            proof {
                assert(a@.skip(i as int).len() == 0);
                assert(b@.skip(i as int).len() > 0);
            }
            return true;
        }
        let ca = a.get_char(i);
        let cb = b.get_char(i);
        proof {
            assert(a@.skip(i as int)[0] == a@[i as int]);
            assert(b@.skip(i as int)[0] == b@[i as int]);
            assert(a@.skip(i as int).drop_first() =~= a@.skip(i as int + 1));
            assert(b@.skip(i as int).drop_first() =~= b@.skip(i as int + 1));
        }
        if (ca as u32) < (cb as u32) {
            return true;
        }
        if ca != cb {
            return false;
        }
        i = i + 1;
    }
}

/// Whether two strings hold the same characters.
pub fn str_eq(a: &str, b: &str) -> (r: bool)
    ensures
        r == (a@ == b@),
{
    let alen = a.unicode_len();
    let blen = b.unicode_len();
    if alen != blen {
        return false;
    }
    let mut i: usize = 0;
    while i < alen
        invariant
            i <= alen,
            alen == a@.len(),
            alen == b@.len(),
            forall|j: int| 0 <= j < i ==> a@[j] == b@[j],
        decreases alen - i,
    {
        if a.get_char(i) != b.get_char(i) {
            return false;
        }
        i = i + 1;
    }
    proof {
        assert(a@ =~= b@);
    }
    true
}

/// The canonically ordered form of an unordered pair: the lexicographically
/// smaller sequence first.
pub open spec fn canonical_pair(a: Seq<char>, b: Seq<char>) -> (Seq<char>, Seq<char>) {
    if lex_lt(b, a) {
        (b, a)
    } else {
        (a, b)
    }
}

/// Canonicalization does not depend on argument order, and for distinct
/// handles the first component is strictly below the second.
pub proof fn lemma_canonical_pair_order(a: Seq<char>, b: Seq<char>)
    ensures
        canonical_pair(a, b) == canonical_pair(b, a),
        a != b ==> lex_lt(canonical_pair(a, b).0, canonical_pair(a, b).1),
        canonical_pair(a, b) == (a, b) || canonical_pair(a, b) == (b, a),
{
    lemma_lex_total(a, b);
    if lex_lt(a, b) {
        lemma_lex_asym(a, b);
    }
    if lex_lt(b, a) {
        lemma_lex_asym(b, a);
    }
}

/// Orders two handles canonically: the lexicographically smaller first.
pub fn compute_similarity_handles(user_handle1: &str, user_handle2: &str) -> (r: (String, String))
    ensures
        r.0@ == canonical_pair(user_handle1@, user_handle2@).0,
        r.1@ == canonical_pair(user_handle1@, user_handle2@).1,
{
    if str_lt(user_handle2, user_handle1) {
        (user_handle2.to_owned(), user_handle1.to_owned())
    } else {
        (user_handle1.to_owned(), user_handle2.to_owned())
    }
}

/// How many of the first `i` positions of the two signatures agree on their
/// minimum hash.
pub open spec fn matching_upto(s1: Seq<SigEntry>, s2: Seq<SigEntry>, i: int) -> int
    decreases i,
{
    if i <= 0 {
        0
    } else {
        matching_upto(s1, s2, i - 1) + if s1[i - 1].min_hash == s2[i - 1].min_hash {
            1int
        } else {
            0int
        }
    }
}

/// The number of signature positions at which the two signatures agree.
pub open spec fn spec_matching(s1: Seq<SigEntry>, s2: Seq<SigEntry>) -> int {
    matching_upto(s1, s2, s1.len() as int)
}

/// The agreement count never exceeds the number of positions considered.
pub proof fn lemma_matching_bounded(s1: Seq<SigEntry>, s2: Seq<SigEntry>, i: int)
    ensures
        0 <= matching_upto(s1, s2, i),
        matching_upto(s1, s2, i) <= if i >= 0 {
            i
        } else {
            0int
        },
    decreases i,
{
    if i > 0 {
        lemma_matching_bounded(s1, s2, i - 1);
    }
}

/// A signature agrees with itself at every position: the similarity of a
/// signature to itself is exactly its length.
pub proof fn lemma_self_similarity(s: Seq<SigEntry>, i: int)
    requires
        i <= s.len(),
    ensures
        matching_upto(s, s, i) == if i >= 0 {
            i
        } else {
            0int
        },
    decreases i,
{
    if i > 0 {
        lemma_self_similarity(s, i - 1);
    }
}

/// Counts the positions at which two equally long signatures agree on the
/// minimum hash. The ratio of the count to the signature length is the
/// similarity strength.
pub fn compute_similarity_matches(sig1: &Sig, sig2: &Sig) -> (count: usize)
    requires
        sig1@.len() == sig2@.len(),
    ensures
        count == spec_matching(sig1@, sig2@),
        count <= sig1@.len(),
{
    let signature_length = sig1.len();
    let mut count: usize = 0;
    let mut k: usize = 0;
    while k < signature_length
        invariant
            k <= signature_length,
            signature_length == sig1@.len(),
            signature_length == sig2@.len(),
            count == matching_upto(sig1@, sig2@, k as int),
            count <= k,
        decreases signature_length - k,
    {
        if sig1[k].min_hash == sig2[k].min_hash {
            count = count + 1;
        }
        k = k + 1;
    }
    count
}

} // verus!
