//! Small shared helpers: little-endian byte decoding and the error type
//! that store and pipeline operations report.

use vstd::prelude::*;
use vstd::arithmetic::power2::{pow2, lemma_pow2_adds, lemma_pow2_pos, lemma2_to64};
use vstd::bits::lemma_u64_shl_is_mul;

verus! {

/// The unsigned integer denoted by `bytes` read little-endian:
/// `bytes[0]` is the least significant byte.
pub open spec fn le_value(bytes: Seq<u8>) -> nat
    decreases bytes.len(),
{
    if bytes.len() == 0 {
        0
    } else {
        bytes[0] as nat + 256 * le_value(bytes.drop_first())
    }
}

/// Appending a byte adds its value at the next power of 256.
proof fn lemma_le_value_push(bytes: Seq<u8>, b: u8)
    ensures
        le_value(bytes.push(b)) == le_value(bytes) + b * pow2(8 * bytes.len()),
    decreases bytes.len(),
{
    if bytes.len() == 0 {
        assert(bytes.push(b) =~= seq![b]);
        assert(le_value(seq![b]) == b as nat + 256 * le_value(seq![b].drop_first()));
        assert(seq![b].drop_first() =~= Seq::<u8>::empty());
        lemma2_to64();
    } else {
        let tail = bytes.drop_first();
        assert(bytes.push(b).drop_first() =~= tail.push(b));
        lemma_le_value_push(tail, b);
        lemma_pow2_adds(8, 8 * tail.len());
        lemma2_to64();
        assert(le_value(bytes.push(b)) == bytes[0] as nat + 256 * le_value(tail.push(b)));
        assert(256 * (le_value(tail) + b * pow2(8 * tail.len()))
            == 256 * le_value(tail) + b * (256 * pow2(8 * tail.len()))) by (nonlinear_arith);
        assert(256 * pow2(8 * tail.len()) == pow2(8 * bytes.len())) by {
            assert(pow2(8) == 256);
            assert(8 + 8 * tail.len() == 8 * bytes.len());
        }
    }
}

/// The little-endian value of `n` bytes is below `2^(8n)`.
proof fn lemma_le_value_bound(bytes: Seq<u8>)
    ensures
        le_value(bytes) < pow2(8 * bytes.len()),
    decreases bytes.len(),
{
    lemma2_to64();
    if bytes.len() == 0 {
    } else {
        let tail = bytes.drop_first();
        lemma_le_value_bound(tail);
        lemma_pow2_adds(8, 8 * tail.len());
        assert(256 * le_value(tail) <= 256 * (pow2(8 * tail.len()) - 1)) by (nonlinear_arith)
            requires le_value(tail) <= pow2(8 * tail.len()) - 1;
    }
}

/// The value of at most eight little-endian bytes fits in a `u64`.
pub proof fn lemma_le_value_fits_u64(bytes: Seq<u8>)
    requires
        bytes.len() <= 8,
    ensures
        le_value(bytes) < 0x10000000000000000,
{
    lemma_le_value_bound(bytes);
    vstd::arithmetic::power2::lemma2_to64_rest();
    if bytes.len() < 8 {
        vstd::arithmetic::power2::lemma_pow2_strictly_increases(8 * bytes.len(), 64);
    }
}

/// Reads at most eight bytes as a zero-extended little-endian `u64`.
pub fn slice_to_u64_le(data: &[u8]) -> (result: u64)
    requires
        data@.len() <= 8,
    ensures
        result == le_value(data@),
{
    let mut result: u64 = 0;
    let mut k: usize = 0;
    proof {
        assert(data@.take(0) =~= Seq::<u8>::empty());
    }
    while k < data.len()
        invariant
            k <= data@.len() <= 8,
            result == le_value(data@.take(k as int)),
        decreases data@.len() - k,
    {
        let d = data[k];
        let shift: u64 = 8 * (k as u64);
        proof {
            lemma_le_value_bound(data@.take(k as int));
            lemma_le_value_push(data@.take(k as int), d);
            assert(data@.take(k as int).push(d) =~= data@.take(k as int + 1));
            lemma_pow2_adds(8 * k as nat, 8);
            lemma_pow2_pos(8 * k as nat);
            lemma2_to64();
            assert(d * pow2(8 * k as nat) <= 255 * pow2(8 * k as nat)) by (nonlinear_arith)
                requires d <= 255, pow2(8 * k as nat) > 0;
            assert(pow2(8 * k as nat) * 256 == pow2(8 * k as nat + 8));
            assert(pow2(8 * k as nat) + 255 * pow2(8 * k as nat) == 256 * pow2(8 * k as nat));
            assert(256 * pow2(8 * k as nat) == pow2(8 * k as nat) * 256) by (nonlinear_arith);
            assert(pow2(8 * 8) == 0x10000000000000000) by {
                vstd::arithmetic::power2::lemma2_to64_rest();
            }
            if 8 * (k as nat) + 8 < 64 {
                assert(pow2(8 * k as nat + 8) <= pow2(64)) by {
                    vstd::arithmetic::power2::lemma_pow2_strictly_increases(8 * k as nat + 8, 64);
                }
            }
            lemma_u64_shl_is_mul(d as u64, shift);
        }
        result = result + ((d as u64) << shift);
        k = k + 1;
    }
    proof {
        assert(data@.take(data@.len() as int) =~= data@);
    }
    result
}

/// The pipeline-wide configuration: connection settings for the outside
/// services and the analysis constants.
pub struct Config {
    pub server_port: u16,
    pub static_location: String,
    pub with_analyzer: bool,
    pub twitter_consumer_key: String,
    pub twitter_consumer_secret: String,
    pub twitter_access_token: String,
    pub twitter_access_secret: String,
    pub mongo_endpoint: String,
    pub signature_length: usize,
    pub min_shingle_size: usize,
    pub max_shingle_size: usize,
    pub num_shingles_evaluated: usize,
    pub twitter_handles: Vec<String>,
}

/// A plain error carrying a message.
#[derive(Debug)]
pub struct GenericError {
    pub message: String,
}

impl GenericError {
    /// The message carried by this error.
    pub fn message(&self) -> (r: &str)
        ensures
            r@ == self.message@,
    {
        self.message.as_str()
    }
}

impl From<String> for GenericError {
    fn from(message: String) -> (r: Self) {
        GenericError { message }
    }
}

impl vstd::std_specs::convert::FromSpecImpl<String> for GenericError {
    open spec fn obeys_from_spec() -> bool {
        true
    }

    open spec fn from_spec(message: String) -> Self {
        GenericError { message }
    }
}

} // verus!
