//! Timeline writing-style similarity: word-shingle extraction, a deterministic
//! MinHash signature engine, and pairwise signature similarity, together with
//! an in-memory document store with replace semantics.

pub mod data_model;
pub mod helpers;
pub mod mhs;
pub mod shingles;
pub mod similarity;
pub mod similarity_computer;
pub mod store;
pub mod tweet_analyzer;
pub mod text;
pub mod tweet_grabber;

pub use helpers::slice_to_u64_le;
