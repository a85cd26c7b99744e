//! The MinHash signature engine: a deterministic family of hash functions
//! drawn from a seeded pseudo-random stream, and signatures that take, per
//! hash function, the minimum hash over a shingle set.

use vstd::prelude::*;
use vstd::slice::slice_subrange;
use crate::helpers::{le_value, slice_to_u64_le, lemma_le_value_fits_u64};
use crate::data_model::{Sig, SigEntry};

verus! {

/// The fixed seed of the hash-function family.
pub const SEED: u64 = 42;

/// Wrapping `u64` multiplication, as a spec value.
pub open spec fn mul_wrap(x: u64, y: u64) -> u64 {
    vstd::wrapping::u64_specs::wrapping_mul(x, y)
}

/// The hash of `bytes` starting from accumulator `acc`: consecutive
/// non-overlapping 8-byte windows are read as little-endian `u64` values and
/// folded with wrapping multiplication; a shorter tail is zero-extended.
/// Empty input leaves the accumulator unchanged.
pub open spec fn hash_of_bytes(bytes: Seq<u8>, acc: u64) -> u64
    decreases bytes.len(),
{
    if bytes.len() == 0 {
        acc
    } else if bytes.len() <= 8 {
        mul_wrap(acc, le_value(bytes) as u64)
    } else {
        hash_of_bytes(bytes.skip(8), mul_wrap(acc, le_value(bytes.take(8)) as u64))
    }
}

/// The hash of a string under multiplier `a`, over its UTF-8 bytes.
pub open spec fn hash_of(s: Seq<char>, a: u64) -> u64 {
    hash_of_bytes(vstd::utf8::encode_utf8(s), a)
}

/// Hashes a string under the multiplier `a`. The empty string hashes to `a`.
pub fn hash(s: &str, a: u64) -> (r: u64)
    ensures
        r == hash_of(s@, a),
{
    let bytes: &[u8] = s.as_bytes();
    let length: usize = bytes.len();
    let mut result: u64 = a;
    let mut k: usize = 0;
    proof {
        assert(bytes@.skip(0) =~= bytes@);
    }
    while k < length
        invariant
            k <= length,
            length == bytes@.len(),
            hash_of_bytes(bytes@, a) == hash_of_bytes(bytes@.skip(k as int), result),
        decreases length - k,
    {
        let num: u64;
        if length - k > 8 {
            let chunk = slice_subrange(bytes, k, k + 8);
            num = slice_to_u64_le(chunk);
            proof {
                lemma_le_value_fits_u64(chunk@);
                assert(bytes@.skip(k as int).take(8) =~= chunk@);
                assert(bytes@.skip(k as int).skip(8) =~= bytes@.skip(k as int + 8));
            }
            result = result.wrapping_mul(num);
            k = k + 8;
        } else {
            let chunk = slice_subrange(bytes, k, length);
            num = slice_to_u64_le(chunk);
            proof {
                lemma_le_value_fits_u64(chunk@);
                assert(bytes@.skip(k as int) =~= chunk@);
                assert(bytes@.skip(length as int) =~= Seq::<u8>::empty());
            }
            result = result.wrapping_mul(num);
            k = length;
        }
    }
    proof {
        assert(bytes@.skip(length as int) =~= Seq::<u8>::empty());
    }
    result
}

/// The empty string hashes to the multiplier itself.
pub proof fn lemma_hash_empty(s: Seq<char>, a: u64)
    requires
        s.len() == 0,
    ensures
        hash_of(s, a) == a,
{
    assert(s =~= Seq::<char>::empty());
    assert(vstd::utf8::encode_utf8(s).len() == 0);
}

/// The hash is a function of the string and the multiplier alone: any two
/// results obtained for the same pair are equal.
pub proof fn lemma_hash_deterministic(s: Seq<char>, a: u64, r1: u64, r2: u64)
    requires
        r1 == hash_of(s, a),
        r2 == hash_of(s, a),
    ensures
        r1 == r2,
{
}

/// The `k`-th word of the pseudo-random stream that a `u64` seed determines.
pub uninterp spec fn std_rng_word(seed: u64, k: int) -> u64;

/// Relies on rand::rngs::StdRng with rand_core::SeedableRng::seed_from_u64 and
/// rand_core::RngCore::next_u64: the rng is a ChaCha-based block cipher whose
/// word stream is a deterministic function of the seed alone, the same in
/// every process and on every machine for the pinned crate version.
#[verifier::external_body]
fn rng_words(seed: u64, n: usize) -> (words: Vec<u64>)
    ensures
        words@.len() == n,
        forall|k: int| 0 <= k < n ==> words@[k] == std_rng_word(seed, k),
{
    let mut rng = <rand::rngs::StdRng as rand::SeedableRng>::seed_from_u64(seed);
    (0..n).map(|_| rand::RngCore::next_u64(&mut rng)).collect()
}

/// How many words of the stream are scanned for odd multipliers: far more
/// than `size` rejections ever occur in practice, saturating at `usize::MAX`.
pub open spec fn draw_budget(size: int) -> int {
    if 64 * size + 64 <= usize::MAX {
        64 * size + 64
    } else {
        usize::MAX as int
    }
}

/// The odd words among the first `n` words of the seeded stream, in order.
pub open spec fn odd_prefix(seed: u64, n: int) -> Seq<u64>
    decreases n,
{
    if n <= 0 {
        Seq::empty()
    } else if std_rng_word(seed, n - 1) % 2 == 1 {
        odd_prefix(seed, n - 1).push(std_rng_word(seed, n - 1))
    } else {
        odd_prefix(seed, n - 1)
    }
}

/// The multipliers that a `size`-entry engine holds: the first `size` odd
/// words of the seeded stream, or every odd word within the draw budget if
/// those are fewer.
pub open spec fn multipliers(size: int) -> Seq<u64> {
    let scanned = odd_prefix(SEED, draw_budget(size));
    if scanned.len() <= size {
        scanned
    } else {
        scanned.take(size)
    }
}

/// `odd_prefix` grows monotonically: an earlier cut is a prefix of a later one.
proof fn lemma_odd_prefix_monotone(seed: u64, m: int, n: int)
    requires
        0 <= m <= n,
    ensures
        odd_prefix(seed, m).len() <= odd_prefix(seed, n).len(),
        odd_prefix(seed, m) == odd_prefix(seed, n).take(odd_prefix(seed, m).len() as int),
    decreases n - m,
{
    if m < n {
        lemma_odd_prefix_monotone(seed, m, n - 1);
        let shorter = odd_prefix(seed, m);
        let longer = odd_prefix(seed, n - 1);
        if std_rng_word(seed, n - 1) % 2 == 1 {
            assert(longer.push(std_rng_word(seed, n - 1)).take(shorter.len() as int)
                =~= longer.take(shorter.len() as int));
        }
    } else {
        assert(odd_prefix(seed, m) =~= odd_prefix(seed, n).take(odd_prefix(seed, m).len() as int));
    }
}

/// The MinHash engine: `size` odd multipliers taken deterministically from
/// the seeded stream, by drawing words and keeping the odd ones.
pub struct Mhs {
    randoms: Vec<u64>,
}

impl Mhs {
    /// The multipliers, as a spec value.
    pub closed spec fn randoms(&self) -> Seq<u64> {
        self.randoms@
    }

    /// The multipliers are the first `randoms().len()` odd words of the
    /// stream seeded with `SEED`.
    pub closed spec fn wf(&self) -> bool {
        exists|n: int| 0 <= n && self.randoms@ == odd_prefix(SEED, n)
    }

    /// Draws words from the seeded stream, keeping odd ones, until `size`
    /// multipliers are collected or the draw budget runs out. The budget is
    /// never exhausted in practice: that would take a stream of almost
    /// nothing but even words.
    pub fn new(size: usize) -> (s: Self)
        ensures
            s.wf(),
            s.randoms() == multipliers(size as int),
            s.randoms().len() <= size,
            odd_prefix(SEED, draw_budget(size as int)).len() >= size ==> s.randoms().len() == size,
    {
        let budget: usize = match size.checked_mul(64) {
            Some(b) => match b.checked_add(64) {
                Some(b2) => b2,
                None => usize::MAX,
            },
            None => usize::MAX,
        };
        proof {
            assert(budget == draw_budget(size as int));
        }
        let words = rng_words(SEED, budget);
        let mut randoms: Vec<u64> = Vec::new();
        let mut i: usize = 0;
        while i < budget && randoms.len() < size
            invariant
                i <= budget,
                budget == draw_budget(size as int),
                words@.len() == budget,
                forall|k: int| 0 <= k < budget ==> words@[k] == std_rng_word(SEED, k),
                randoms@.len() <= size,
                randoms@ == odd_prefix(SEED, i as int),
            decreases budget - i,
        {
            let w = words[i];
            if w % 2 == 1 {
                randoms.push(w);
            }
            i = i + 1;
        }
        proof {
            let scanned = odd_prefix(SEED, budget as int);
            if randoms@.len() == size {
                lemma_odd_prefix_monotone(SEED, i as int, budget as int);
                if scanned.len() == size {
                    assert(scanned.take(size as int) =~= scanned);
                }
            }
        }
        Self { randoms }
    }

    /// The minimum hash among the first `i` shingles under multiplier `a`;
    /// `u64::MAX` when no shingle has been considered.
    pub open spec fn min_hash_upto(shingles: Seq<Seq<char>>, a: u64, i: int) -> u64
        decreases i,
    {
        if i <= 0 {
            u64::MAX
        } else {
            let prev = Self::min_hash_upto(shingles, a, i - 1);
            if hash_of(shingles[i - 1], a) < prev {
                hash_of(shingles[i - 1], a)
            } else {
                prev
            }
        }
    }

    /// The shingle realising `min_hash_upto`, ties broken by first-seen;
    /// the first shingle while none hashes below `u64::MAX`, and the empty
    /// string when the input set is empty.
    pub open spec fn min_text_upto(shingles: Seq<Seq<char>>, a: u64, i: int) -> Seq<char>
        decreases i,
    {
        if i <= 0 {
            if shingles.len() > 0 {
                shingles[0]
            } else {
                Seq::empty()
            }
        } else {
            if hash_of(shingles[i - 1], a) < Self::min_hash_upto(shingles, a, i - 1) {
                shingles[i - 1]
            } else {
                Self::min_text_upto(shingles, a, i - 1)
            }
        }
    }

    /// The signature entry hash for a full shingle set under multiplier `a`.
    pub open spec fn entry_hash(shingles: Seq<Seq<char>>, a: u64) -> u64 {
        Self::min_hash_upto(shingles, a, shingles.len() as int)
    }

    /// The signature entry text for a full shingle set under multiplier `a`.
    pub open spec fn entry_text(shingles: Seq<Seq<char>>, a: u64) -> Seq<char> {
        Self::min_text_upto(shingles, a, shingles.len() as int)
    }

    /// Builds the signature of a shingle set: one entry per multiplier, each
    /// holding the minimum hash over the set and the shingle realising it.
    /// An empty set yields entries of the empty string and `u64::MAX`.
    pub fn get_signature(&self, shingles: &Vec<&str>) -> (sig: Sig)
        ensures
            sig@.len() == self.randoms().len(),
            forall|k: int| 0 <= k < sig@.len() ==> {
                &&& sig@[k].min_hash == Self::entry_hash(shingles.deep_view(), self.randoms()[k])
                &&& sig@[k].shingle@ == Self::entry_text(shingles.deep_view(), self.randoms()[k])
            },
    {
        let length = self.randoms.len();
        let mut sig: Sig = Vec::new();
        let ghost model: Seq<Seq<char>> = shingles.deep_view();
        proof {
            assert(model.len() == shingles@.len());
        }
        let mut k: usize = 0;
        while k < length
            invariant
                k <= length,
                length == self.randoms@.len(),
                model == shingles.deep_view(),
                model.len() == shingles@.len(),
                forall|j: int| 0 <= j < model.len() ==> model[j] == shingles@[j]@,
                sig@.len() == k,
                forall|j: int| 0 <= j < k ==> {
                    &&& sig@[j].min_hash == Self::entry_hash(model, self.randoms@[j])
                    &&& sig@[j].shingle@ == Self::entry_text(model, self.randoms@[j])
                },
            decreases length - k,
        {
            let a = self.randoms[k];
            let mut min_hash: u64 = u64::MAX;
            let mut min_shingle: &str = if shingles.len() > 0 {
                shingles[0]
            } else {
                ""
            };
            proof {
                if shingles@.len() == 0 {
                    reveal_strlit("");
                    assert(min_shingle@ =~= Seq::<char>::empty());
                }
            }
            let mut i: usize = 0;
            while i < shingles.len()
                invariant
                    i <= shingles@.len(),
                    model == shingles.deep_view(),
                    model.len() == shingles@.len(),
                    forall|j: int| 0 <= j < model.len() ==> model[j] == shingles@[j]@,
                    min_hash == Self::min_hash_upto(model, a, i as int),
                    min_shingle@ == Self::min_text_upto(model, a, i as int),
                decreases shingles@.len() - i,
            {
                let h = hash(shingles[i], a);
                if h < min_hash {
                    min_hash = h;
                    min_shingle = shingles[i];
                }
                i = i + 1;
            }
            sig.push(SigEntry { shingle: min_shingle.to_owned(), min_hash });
            k = k + 1;
        }
        sig
    }
}

/// Two engines built over the same stream with equally many multipliers hold
/// the same multipliers: the construction is reproducible.
pub proof fn lemma_mhs_reproducible(m1: Mhs, m2: Mhs)
    requires
        m1.wf(),
        m2.wf(),
        m1.randoms().len() == m2.randoms().len(),
    ensures
        m1.randoms() == m2.randoms(),
{
    let n1 = choose|n: int| 0 <= n && m1.randoms() == odd_prefix(SEED, n);
    let n2 = choose|n: int| 0 <= n && m2.randoms() == odd_prefix(SEED, n);
    if n1 <= n2 {
        lemma_odd_prefix_monotone(SEED, n1, n2);
        assert(odd_prefix(SEED, n2).take(odd_prefix(SEED, n1).len() as int)
            =~= odd_prefix(SEED, n2));
    } else {
        lemma_odd_prefix_monotone(SEED, n2, n1);
        assert(odd_prefix(SEED, n1).take(odd_prefix(SEED, n2).len() as int)
            =~= odd_prefix(SEED, n1));
    }
}

} // verus!
