//! The core value types: items, shingles, signatures and similarities.
//!
//! Handles are case-folded user identifiers; every handle stored in these
//! types is expected to be in folded form (see `text::fold_handle`).

use vstd::prelude::*;

verus! {

/// A word n-gram drawn from an item's polished text, with its word count
/// and how often it occurs in the handle's items.
pub struct Shingle {
    pub text: String,
    pub length: u32,
    pub count: u32,
}

/// A persisted short-text record authored by a handle.
pub struct Tweet {
    pub id: u64,
    pub user_name: String,
    pub user_handle: String,
    pub user_id: u64,
    pub created_at: i64,
    pub created_at_string: String,
    pub text: String,
    pub polished_text: String,
}

/// One slot of a MinHash signature: the minimising shingle and its hash.
pub struct SigEntry {
    pub shingle: String,
    pub min_hash: u64,
}

pub type Sig = Vec<SigEntry>;

/// A handle's full signature: one entry per hash function, in positional order.
pub struct Signature {
    pub user_handle: String,
    pub signature: Sig,
}

/// A similarity row for a canonically ordered pair of handles. The strength
/// of the pair is the ratio `matching / out_of`; the two counts are kept
/// separately so that the row stays in exact integers.
pub struct Similarity {
    pub source_handle: String,
    pub target_handle: String,
    pub matching: usize,
    pub out_of: usize,
}

impl Clone for Shingle {
    fn clone(&self) -> (res: Self)
        ensures
            res == *self,
    {
        Shingle { text: self.text.clone(), length: self.length, count: self.count }
    }
}

impl Clone for Tweet {
    fn clone(&self) -> (res: Self)
        ensures
            res == *self,
    {
        Tweet {
            id: self.id,
            user_name: self.user_name.clone(),
            user_handle: self.user_handle.clone(),
            user_id: self.user_id,
            created_at: self.created_at,
            created_at_string: self.created_at_string.clone(),
            text: self.text.clone(),
            polished_text: self.polished_text.clone(),
        }
    }
}

impl Clone for SigEntry {
    fn clone(&self) -> (res: Self)
        ensures
            res == *self,
    {
        SigEntry { shingle: self.shingle.clone(), min_hash: self.min_hash }
    }
}

impl Clone for Signature {
    fn clone(&self) -> (res: Self)
        ensures
            res.user_handle == self.user_handle,
            res.signature@ == self.signature@,
    {
        let mut sig: Sig = Vec::new();
        let mut i: usize = 0;
        while i < self.signature.len()
            invariant
                i <= self.signature@.len(),
                sig@ =~= self.signature@.take(i as int),
            decreases self.signature@.len() - i,
        {
            sig.push(self.signature[i].clone());
            proof {
                assert(self.signature@.take(i as int).push(self.signature@[i as int])
                    =~= self.signature@.take(i as int + 1));
            }
            i = i + 1;
        }
        proof {
            assert(self.signature@.take(self.signature@.len() as int) =~= self.signature@);
        }
        Signature { user_handle: self.user_handle.clone(), signature: sig }
    }
}

impl Clone for Similarity {
    fn clone(&self) -> (res: Self)
        ensures
            res == *self,
    {
        Similarity {
            source_handle: self.source_handle.clone(),
            target_handle: self.target_handle.clone(),
            matching: self.matching,
            out_of: self.out_of,
        }
    }
}

} // verus!
