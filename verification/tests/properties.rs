//! Property tests for polishing, shingling, hashing and the MinHash engine.

use tweetsim::mhs::{hash, Mhs};
use tweetsim::shingles::get_shingles_up_to_size;
use tweetsim::similarity::{compute_similarity_handles, compute_similarity_matches};
use tweetsim::text::polish_text;

fn strength(matching: usize, out_of: usize) -> f64 {
    matching as f64 / out_of as f64
}

#[test]
fn polish_basic() {
    assert_eq!(polish_text("  Hello, WORLD!  "), "hello world");
    assert_eq!(polish_text("don't (really) stop?"), "dont really stop");
    assert_eq!(polish_text(""), "");
}

#[test]
fn polish_idempotent_on_ordinary_text() {
    let samples = [
        "  Hello, WORLD!  ",
        "don't (really) stop?",
        "Mixed CASE with   spaces",
        "",
        "no-punct here",
        "a.b.c!d",
    ];
    for s in samples.iter() {
        let once = polish_text(s);
        let twice = polish_text(&once);
        assert_eq!(twice, once);
    }
}

#[test]
fn polish_exposed_edge_whitespace_needs_second_trim() {
    // Removing edge punctuation can expose whitespace, so a second polish
    // still trims: the idempotence law holds under a trimmed fixed point.
    let once = polish_text(". a .");
    assert_eq!(once, " a ");
    assert_eq!(polish_text(&once), "a");
}

#[test]
fn shingles_of_four_tokens() {
    let sh = get_shingles_up_to_size("a b c d", 2);
    assert_eq!(sh, vec!["a", "a b", "b", "b c", "c"]);
    // sum over w = 1..=2 of max(0, 4 - w) = 3 + 2
    assert_eq!(sh.len(), 5);
}

#[test]
fn shingles_boundary_excludes_last_token() {
    assert_eq!(get_shingles_up_to_size("hello world", 2), vec!["hello"]);
    let sh = get_shingles_up_to_size("a b c", 2);
    assert_eq!(sh, vec!["a", "a b", "b"]);
    assert!(get_shingles_up_to_size("solo", 3).is_empty());
    assert!(get_shingles_up_to_size("", 3).is_empty());
}

#[test]
fn hash_empty_string_is_multiplier() {
    for a in [0u64, 1, 42, 7919, u64::MAX] {
        assert_eq!(hash("", a), a);
    }
}

#[test]
fn hash_deterministic() {
    for (s, a) in [("hello world", 12345u64), ("x", 1), ("eight by8", 99)] {
        assert_eq!(hash(s, a), hash(s, a));
    }
}

#[test]
fn hash_full_block_tail_matches_exact_multiple() {
    // An exactly 8-byte string is consumed as one tail chunk; the hash is
    // the multiplier times the little-endian word, wrapping.
    let s = "abcdefgh";
    let bytes = s.as_bytes();
    let mut word: u64 = 0;
    for (i, b) in bytes.iter().enumerate() {
        word += (*b as u64) << (8 * i);
    }
    let a = 0x1234_5678_9abc_def1u64;
    assert_eq!(hash(s, a), a.wrapping_mul(word));
}

#[test]
fn mhs_reproducible() {
    let shingles_a: Vec<String> = (0..40).map(|i| format!("tok{}", i)).collect();
    let refs_a: Vec<&str> = shingles_a.iter().map(|s| s.as_str()).collect();
    let m1 = Mhs::new(16);
    let m2 = Mhs::new(16);
    let s1 = m1.get_signature(&refs_a);
    let s2 = m2.get_signature(&refs_a);
    assert_eq!(s1.len(), 16);
    assert_eq!(s2.len(), 16);
    for k in 0..16 {
        assert_eq!(s1[k].min_hash, s2[k].min_hash);
        assert_eq!(s1[k].shingle, s2[k].shingle);
    }
}

#[test]
fn mhs_multipliers_vary() {
    // Distinct hash functions give a varied signature: with many inputs the
    // entries are not all the same hash.
    let shingles: Vec<String> = (0..50).map(|i| format!("word{}", i)).collect();
    let refs: Vec<&str> = shingles.iter().map(|s| s.as_str()).collect();
    let sig = Mhs::new(8).get_signature(&refs);
    assert_eq!(sig.len(), 8);
    assert!(sig.iter().any(|e| e.min_hash != sig[0].min_hash));
    assert!(sig.iter().all(|e| e.min_hash != u64::MAX));
}

#[test]
fn mhs_empty_input_gives_max_entries() {
    let sig = Mhs::new(5).get_signature(&Vec::new());
    assert_eq!(sig.len(), 5);
    for e in sig.iter() {
        assert_eq!(e.min_hash, u64::MAX);
        assert_eq!(e.shingle, "");
    }
}

#[test]
fn signature_self_similarity_is_one() {
    let shingles: Vec<String> = (0..30).map(|i| format!("s{}", i)).collect();
    let refs: Vec<&str> = shingles.iter().map(|s| s.as_str()).collect();
    let sig = Mhs::new(32).get_signature(&refs);
    let matching = compute_similarity_matches(&sig, &sig);
    assert_eq!(matching, 32);
    assert_eq!(strength(matching, sig.len()), 1.0);
}

#[test]
fn disjoint_sets_have_near_zero_similarity() {
    let a: Vec<String> = (0..120).map(|i| format!("alpha{}", i)).collect();
    let b: Vec<String> = (0..120).map(|i| format!("beta{}", i)).collect();
    let ra: Vec<&str> = a.iter().map(|s| s.as_str()).collect();
    let rb: Vec<&str> = b.iter().map(|s| s.as_str()).collect();
    let m = Mhs::new(64);
    let sa = m.get_signature(&ra);
    let sb = m.get_signature(&rb);
    let matching = compute_similarity_matches(&sa, &sb);
    assert!(strength(matching, 64) <= 0.05);
}

#[test]
fn jaccard_estimate_close_to_true_value() {
    // Sets of 150 with 50 shared shingles: true Jaccard 50 / 250 = 0.2.
    // The mean estimate over several pairs stays within the two-sigma
    // bound 2 * sqrt(j * (1 - j) / l).
    let l = 128usize;
    let j = 0.2f64;
    let m = Mhs::new(l);
    let trials = 8;
    let mut total = 0.0f64;
    for t in 0..trials {
        let shared: Vec<String> = (0..50).map(|i| format!("t{}shared{}", t, i)).collect();
        let mut a: Vec<String> = (0..100).map(|i| format!("t{}a{}", t, i)).collect();
        let mut b: Vec<String> = (0..100).map(|i| format!("t{}b{}", t, i)).collect();
        a.extend(shared.iter().cloned());
        b.extend(shared.iter().cloned());
        let ra: Vec<&str> = a.iter().map(|s| s.as_str()).collect();
        let rb: Vec<&str> = b.iter().map(|s| s.as_str()).collect();
        let sa = m.get_signature(&ra);
        let sb = m.get_signature(&rb);
        total += strength(compute_similarity_matches(&sa, &sb), l);
    }
    let mean = total / trials as f64;
    let bound = 2.0 * (j * (1.0 - j) / l as f64).sqrt();
    assert!((mean - j).abs() <= bound, "mean {} vs {} +- {}", mean, j, bound);
}

#[test]
fn canonical_pair_order() {
    let (s1, t1) = compute_similarity_handles("alice", "bob");
    let (s2, t2) = compute_similarity_handles("bob", "alice");
    assert_eq!((s1.as_str(), t1.as_str()), ("alice", "bob"));
    assert_eq!((s2.as_str(), t2.as_str()), ("alice", "bob"));
    let (s3, t3) = compute_similarity_handles("same", "same");
    assert_eq!((s3.as_str(), t3.as_str()), ("same", "same"));
    assert!(s1 < t1);
}

#[test]
fn slice_to_u64_le_reads_little_endian() {
    assert_eq!(tweetsim::slice_to_u64_le(&[]), 0);
    assert_eq!(tweetsim::slice_to_u64_le(&[0x12]), 0x12);
    assert_eq!(tweetsim::slice_to_u64_le(&[0x34, 0x12]), 0x1234);
    assert_eq!(
        tweetsim::slice_to_u64_le(&[1, 2, 3, 4, 5, 6, 7, 8]),
        0x0807060504030201
    );
}
