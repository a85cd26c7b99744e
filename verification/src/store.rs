//! An in-memory document store honouring the storage contract of the
//! pipeline: bulk insert with unique item ids, replace semantics for
//! shingles and signatures, append-only similarities, and filtered reads
//! with the top-K shingle ordering (count descending, text ascending).

use vstd::prelude::*;
use vstd::multiset::Multiset;
use vstd::seq_lib::group_to_multiset_ensures;
use crate::data_model::{Shingle, Sig, Signature, Similarity, Tweet};
use crate::helpers::GenericError;
use crate::similarity::{lex_lt, lemma_lex_total, lemma_lex_trans, str_eq, str_lt};
use crate::text::{fold_handle, lower_of};

verus! {

/// A stored shingle row: the owning handle and the shingle itself.
pub struct ShingleRow {
    pub user_handle: String,
    pub shingle: Shingle,
}

impl Clone for ShingleRow {
    fn clone(&self) -> (res: Self)
        ensures
            res == *self,
    {
        ShingleRow { user_handle: self.user_handle.clone(), shingle: self.shingle.clone() }
    }
}

/// The stored tweets whose handle field equals `h`, in storage order.
pub open spec fn tweets_for(rows: Seq<Tweet>, h: Seq<char>) -> Seq<Tweet>
    decreases rows.len(),
{
    if rows.len() == 0 {
        Seq::empty()
    } else {
        let rest = tweets_for(rows.drop_last(), h);
        if rows.last().user_handle@ == h {
            rest.push(rows.last())
        } else {
            rest
        }
    }
}

/// The shingle rows that survive deleting a handle's rows.
pub open spec fn rows_excluding(rows: Seq<ShingleRow>, h: Seq<char>) -> Seq<ShingleRow>
    decreases rows.len(),
{
    if rows.len() == 0 {
        Seq::empty()
    } else {
        let rest = rows_excluding(rows.drop_last(), h);
        if rows.last().user_handle@ == h {
            rest
        } else {
            rest.push(rows.last())
        }
    }
}

/// The signatures that survive deleting a handle's signature.
pub open spec fn sigs_excluding(sigs: Seq<Signature>, h: Seq<char>) -> Seq<Signature>
    decreases sigs.len(),
{
    if sigs.len() == 0 {
        Seq::empty()
    } else {
        let rest = sigs_excluding(sigs.drop_last(), h);
        if sigs.last().user_handle@ == h {
            rest
        } else {
            rest.push(sigs.last())
        }
    }
}

/// The shingles of handle `h` whose word count lies in `[min_len, max_len]`.
pub open spec fn shingle_candidates(
    rows: Seq<ShingleRow>,
    h: Seq<char>,
    min_len: int,
    max_len: int,
) -> Seq<Shingle>
    decreases rows.len(),
{
    if rows.len() == 0 {
        Seq::empty()
    } else {
        let rest = shingle_candidates(rows.drop_last(), h, min_len, max_len);
        let row = rows.last();
        if row.user_handle@ == h && min_len <= row.shingle.length <= max_len {
            rest.push(row.shingle)
        } else {
            rest
        }
    }
}

/// The top-K order on shingle rows: larger counts first, ties broken by
/// text ascending.
pub open spec fn shingle_le(a: Shingle, b: Shingle) -> bool {
    ||| b.count < a.count
    ||| (a.count == b.count && (lex_lt(a.text@, b.text@) || a.text@ == b.text@))
}

/// The top-K order is total.
pub proof fn lemma_shingle_le_total(a: Shingle, b: Shingle)
    ensures
        shingle_le(a, b) || shingle_le(b, a),
{
    lemma_lex_total(a.text@, b.text@);
}

/// The top-K order is transitive.
pub proof fn lemma_shingle_le_trans(a: Shingle, b: Shingle, c: Shingle)
    requires
        shingle_le(a, b),
        shingle_le(b, c),
    ensures
        shingle_le(a, c),
{
    if a.count == b.count && b.count == c.count {
        if lex_lt(a.text@, b.text@) && lex_lt(b.text@, c.text@) {
            lemma_lex_trans(a.text@, b.text@, c.text@);
        }
    }
}

/// Top-K order test matching `shingle_le`.
fn shingle_before(a: &Shingle, b: &Shingle) -> (r: bool)
    ensures
        r == shingle_le(*a, *b),
{
    if b.count < a.count {
        true
    } else if a.count == b.count {
        str_lt(a.text.as_str(), b.text.as_str()) || str_eq(a.text.as_str(), b.text.as_str())
    } else {
        false
    }
}

/// Sorts shingles by the top-K order with selection of successive minima.
fn sort_shingles(v: Vec<Shingle>) -> (out: Vec<Shingle>)
    ensures
        out@.to_multiset() == v@.to_multiset(),
        out@.len() == v@.len(),
        forall|i: int, j: int| 0 <= i <= j < out@.len() ==> shingle_le(out@[i], out@[j]),
{
    broadcast use group_to_multiset_ensures;

    let ghost orig = v@;
    let mut rest = v;
    let mut out: Vec<Shingle> = Vec::new();
    proof {
        assert(out@.to_multiset().add(rest@.to_multiset()) =~= orig.to_multiset());
    }
    while rest.len() > 0
        invariant
            out@.to_multiset().add(rest@.to_multiset()) == orig.to_multiset(),
            out@.len() + rest@.len() == orig.len(),
            forall|i: int, j: int| 0 <= i <= j < out@.len() ==> shingle_le(out@[i], out@[j]),
            forall|i: int, j: int|
                0 <= i < out@.len() && 0 <= j < rest@.len() ==> shingle_le(out@[i], rest@[j]),
        decreases rest@.len(),
    {
        let mut m: usize = 0;
        let mut i: usize = 1;
        while i < rest.len()
            invariant
                m < i <= rest@.len(),
                rest@.len() > 0,
                forall|j: int| 0 <= j < i ==> shingle_le(rest@[m as int], #[trigger] rest@[j]),
            decreases rest@.len() - i,
        {
            if !shingle_before(&rest[m], &rest[i]) {
                proof {
                    lemma_shingle_le_total(rest@[m as int], rest@[i as int]);
                    assert forall|j: int| 0 <= j < i + 1 implies
                        shingle_le(rest@[i as int], #[trigger] rest@[j]) by {
                        if j < i {
                            lemma_shingle_le_trans(rest@[i as int], rest@[m as int], rest@[j]);
                        }
                    }
                }
                m = i;
            }
            i = i + 1;
        }
        let ghost old_rest = rest@;
        let ghost old_out = out@;
        let x = rest.remove(m);
        out.push(x);
        proof {
            assert(out@ =~= old_out.push(x));
            assert(out@ == old_out.push(x));
            old_rest.to_multiset_ensures();
            old_out.to_multiset_ensures();
            assert(old_rest.remove(m as int).to_multiset() =~= old_rest.to_multiset().remove(x));
            assert(old_out.push(x).to_multiset() =~= old_out.to_multiset().insert(x));
            assert(out@.to_multiset() == old_out.to_multiset().insert(x));
            assert(old_out.to_multiset().insert(x).add(old_rest.to_multiset().remove(x))
                =~= old_out.to_multiset().add(old_rest.to_multiset()));
            assert forall|j: int| 0 <= j < rest@.len() implies
                shingle_le(x, #[trigger] rest@[j]) by {
                if j < m {
                    assert(rest@[j] == old_rest[j]);
                } else {
                    assert(rest@[j] == old_rest[j + 1]);
                }
            }
        }
    }
    proof {
        assert(rest@.to_multiset() =~= Multiset::<Shingle>::empty());
        assert(out@.to_multiset().add(Multiset::<Shingle>::empty()) =~= out@.to_multiset());
    }
    out
}

/// No two tweets share an item id, and no two signatures share a handle.
pub open spec fn store_inv(tweets: Seq<Tweet>, sigs: Seq<Signature>) -> bool {
    &&& forall|i: int, j: int|
        0 <= i < j < tweets.len() ==> #[trigger] tweets[i].id != #[trigger] tweets[j].id
    &&& forall|i: int, j: int|
        0 <= i < j < sigs.len() ==> #[trigger] sigs[i].user_handle@ != #[trigger] sigs[j].user_handle@
}

/// Whether a batch of tweets can be inserted: ids distinct within the batch
/// and absent from the store.
pub open spec fn batch_ok(existing: Seq<Tweet>, batch: Seq<Tweet>) -> bool {
    &&& forall|i: int, j: int|
        0 <= i < j < batch.len() ==> #[trigger] batch[i].id != #[trigger] batch[j].id
    &&& forall|i: int, j: int|
        0 <= i < batch.len() && 0 <= j < existing.len()
            ==> #[trigger] batch[i].id != #[trigger] existing[j].id
}

/// The in-memory store.
pub struct MemStore {
    tweets: Vec<Tweet>,
    shingle_rows: Vec<ShingleRow>,
    signatures: Vec<Signature>,
    similarities: Vec<Similarity>,
}

impl MemStore {
    /// The stored tweets, in insertion order.
    pub closed spec fn tweets(&self) -> Seq<Tweet> {
        self.tweets@
    }

    /// The stored shingle rows.
    pub closed spec fn shingle_rows(&self) -> Seq<ShingleRow> {
        self.shingle_rows@
    }

    /// The stored signatures.
    pub closed spec fn signatures(&self) -> Seq<Signature> {
        self.signatures@
    }

    /// The stored similarity rows, in insertion order.
    pub closed spec fn similarities(&self) -> Seq<Similarity> {
        self.similarities@
    }

    /// Tweet ids are unique and each handle holds at most one signature.
    pub open spec fn wf(&self) -> bool {
        store_inv(self.tweets(), self.signatures())
    }

    /// An empty store.
    pub fn new() -> (s: Self)
        ensures
            s.wf(),
            s.tweets() == Seq::<Tweet>::empty(),
            s.shingle_rows() == Seq::<ShingleRow>::empty(),
            s.signatures() == Seq::<Signature>::empty(),
            s.similarities() == Seq::<Similarity>::empty(),
    {
        MemStore {
            tweets: Vec::new(),
            shingle_rows: Vec::new(),
            signatures: Vec::new(),
            similarities: Vec::new(),
        }
    }

    /// Bulk-inserts tweets under the unique item-id key. Fails, changing
    /// nothing, exactly when an id repeats within the batch or is already
    /// stored.
    pub fn insert_tweets(&mut self, tweets: &Vec<Tweet>) -> (r: Result<(), GenericError>)
        requires
            old(self).wf(),
        ensures
            final(self).wf(),
            final(self).shingle_rows() == old(self).shingle_rows(),
            final(self).signatures() == old(self).signatures(),
            final(self).similarities() == old(self).similarities(),
            r is Ok <==> batch_ok(old(self).tweets(), tweets@),
            r is Ok ==> {
                &&& final(self).tweets().len() == old(self).tweets().len() + tweets@.len()
                &&& forall|i: int|
                    0 <= i < old(self).tweets().len()
                        ==> final(self).tweets()[i] == old(self).tweets()[i]
                &&& forall|i: int|
                    old(self).tweets().len() <= i < final(self).tweets().len()
                        ==> final(self).tweets()[i] == tweets@[i - old(self).tweets().len()]
            },
            r is Err ==> final(self).tweets() == old(self).tweets(),
    {
        let n = tweets.len();
        let mut i: usize = 0;
        while i < n
            invariant
                i <= n,
                n == tweets@.len(),
                old(self).wf(),
                self.tweets@ == old(self).tweets@,
                self.shingle_rows@ == old(self).shingle_rows@,
                self.signatures@ == old(self).signatures@,
                self.similarities@ == old(self).similarities@,
                forall|a: int, b: int|
                    0 <= a < b < n && a < i ==> #[trigger] tweets@[a].id != #[trigger] tweets@[b].id,
                forall|a: int, b: int|
                    0 <= a < i && 0 <= b < self.tweets@.len()
                        ==> #[trigger] tweets@[a].id != #[trigger] self.tweets@[b].id,
            decreases n - i,
        {
            let id = tweets[i].id;
            let mut j: usize = i + 1;
            while j < n
                invariant
                    i < j <= n,
                    i < n,
                    n == tweets@.len(),
                    old(self).wf(),
                self.tweets@ == old(self).tweets@,
                self.shingle_rows@ == old(self).shingle_rows@,
                self.signatures@ == old(self).signatures@,
                self.similarities@ == old(self).similarities@,
                    id == tweets@[i as int].id,
                    forall|b: int| i < b < j ==> #[trigger] tweets@[b].id != id,
                decreases n - j,
            {
                if tweets[j].id == id {
                    proof {
                        assert(!batch_ok(old(self).tweets(), tweets@)) by {
                            if batch_ok(old(self).tweets(), tweets@) {
                                assert(tweets@[i as int].id != tweets@[j as int].id);
                            }
                        }
                        assert(store_inv(self.tweets@, self.signatures@));
                        assert(self.wf());
                    }
                    return Err(GenericError::from(String::from_str("duplicate item id")));
                }
                j = j + 1;
            }
            let mut k: usize = 0;
            while k < self.tweets.len()
                invariant
                    k <= self.tweets@.len(),
                    i < n,
                    n == tweets@.len(),
                    old(self).wf(),
                self.tweets@ == old(self).tweets@,
                self.shingle_rows@ == old(self).shingle_rows@,
                self.signatures@ == old(self).signatures@,
                self.similarities@ == old(self).similarities@,
                    id == tweets@[i as int].id,
                    forall|b: int| 0 <= b < k ==> #[trigger] self.tweets@[b].id != id,
                decreases self.tweets@.len() - k,
            {
                if self.tweets[k].id == id {
                    proof {
                        assert(!batch_ok(old(self).tweets(), tweets@)) by {
                            if batch_ok(old(self).tweets(), tweets@) {
                                assert(tweets@[i as int].id != old(self).tweets()[k as int].id);
                            }
                        }
                    }
                    return Err(GenericError::from(String::from_str("duplicate item id")));
                }
                k = k + 1;
            }
            i = i + 1;
        }
        let ghost old_tweets = self.tweets@;
        let mut i: usize = 0;
        while i < n
            invariant
                i <= n,
                n == tweets@.len(),
                batch_ok(old_tweets, tweets@),
                store_inv(old_tweets, self.signatures@),
                self.tweets@.len() == old_tweets.len() + i,
                forall|a: int| 0 <= a < old_tweets.len() ==> self.tweets@[a] == old_tweets[a],
                forall|a: int|
                    old_tweets.len() <= a < self.tweets@.len()
                        ==> self.tweets@[a] == tweets@[a - old_tweets.len()],
                self.shingle_rows@ == old(self).shingle_rows@,
                self.signatures@ == old(self).signatures@,
                self.similarities@ == old(self).similarities@,
            decreases n - i,
        {
            self.tweets.push(tweets[i].clone());
            i = i + 1;
        }
        proof {
            assert forall|a: int, b: int| 0 <= a < b < self.tweets@.len() implies
                #[trigger] self.tweets@[a].id != #[trigger] self.tweets@[b].id by {
                let ol = old_tweets.len() as int;
                if b >= ol {
                    if a >= ol {
                        assert(self.tweets@[a] == tweets@[a - ol]);
                        assert(self.tweets@[b] == tweets@[b - ol]);
                        assert(tweets@[a - ol].id != tweets@[b - ol].id);
                    } else {
                        assert(self.tweets@[a] == old_tweets[a]);
                        assert(self.tweets@[b] == tweets@[b - ol]);
                        assert(tweets@[b - ol].id != old_tweets[a].id);
                    }
                } else {
                    assert(self.tweets@[a] == old_tweets[a]);
                    assert(self.tweets@[b] == old_tweets[b]);
                    assert(old_tweets[a].id != old_tweets[b].id);
                }
            }
        }
        Ok(())
    }

    /// All tweets stored for the case-folded handle, in storage order.
    pub fn get_tweets_for(&self, user_handle: &str) -> (result: Vec<Tweet>)
        ensures
            result@ == tweets_for(self.tweets(), lower_of(user_handle@)),
    {
        let folded = fold_handle(user_handle);
        let mut result: Vec<Tweet> = Vec::new();
        let mut i: usize = 0;
        proof {
            assert(self.tweets@.take(0) =~= Seq::<Tweet>::empty());
        }
        while i < self.tweets.len()
            invariant
                i <= self.tweets@.len(),
                folded@ == lower_of(user_handle@),
                result@ == tweets_for(self.tweets@.take(i as int), folded@),
            decreases self.tweets@.len() - i,
        {
            proof {
                assert(self.tweets@.take(i as int + 1).drop_last() =~= self.tweets@.take(i as int));
                assert(self.tweets@.take(i as int + 1).last() == self.tweets@[i as int]);
            }
            if str_eq(self.tweets[i].user_handle.as_str(), folded.as_str()) {
                result.push(self.tweets[i].clone());
            }
            i = i + 1;
        }
        proof {
            assert(self.tweets@.take(self.tweets@.len() as int) =~= self.tweets@);
        }
        result
    }

    /// The stored tweet with the greatest item id among the case-folded
    /// handle's tweets, or `None` when the handle has none.
    pub fn get_most_recent_tweet_for(&self, user_handle: &str) -> (r: Option<Tweet>)
        ensures
            match r {
                Option::None => forall|i: int|
                    0 <= i < self.tweets().len()
                        ==> #[trigger] self.tweets()[i].user_handle@ != lower_of(user_handle@),
                Option::Some(t) => {
                    &&& t.user_handle@ == lower_of(user_handle@)
                    &&& exists|i: int|
                        0 <= i < self.tweets().len() && #[trigger] self.tweets()[i] == t
                    &&& forall|i: int|
                        0 <= i < self.tweets().len()
                            && #[trigger] self.tweets()[i].user_handle@ == lower_of(user_handle@)
                            ==> self.tweets()[i].id <= t.id
                },
            },
    {
        let folded = fold_handle(user_handle);
        let mut best: Option<usize> = None;
        let mut i: usize = 0;
        while i < self.tweets.len()
            invariant
                i <= self.tweets@.len(),
                folded@ == lower_of(user_handle@),
                match best {
                    Option::None => forall|j: int|
                        0 <= j < i ==> #[trigger] self.tweets@[j].user_handle@ != folded@,
                    Option::Some(b) => {
                        &&& b < i
                        &&& self.tweets@[b as int].user_handle@ == folded@
                        &&& forall|j: int|
                            0 <= j < i && #[trigger] self.tweets@[j].user_handle@ == folded@
                                ==> self.tweets@[j].id <= self.tweets@[b as int].id
                    },
                },
            decreases self.tweets@.len() - i,
        {
            if str_eq(self.tweets[i].user_handle.as_str(), folded.as_str()) {
                match best {
                    None => {
                        best = Some(i);
                    },
                    Some(b) => {
                        if self.tweets[i].id > self.tweets[b].id {
                            best = Some(i);
                        }
                    },
                }
            }
            i = i + 1;
        }
        match best {
            None => {
                proof {
                    assert forall|idx: int| 0 <= idx < self.tweets().len() implies
                        #[trigger] self.tweets()[idx].user_handle@ != lower_of(user_handle@) by {
                        assert(self.tweets@[idx].user_handle@ != folded@);
                    }
                }
                None
            },
            Some(b) => {
                let t = self.tweets[b].clone();
                proof {
                    assert(self.tweets()[b as int] == t);
                }
                Some(t)
            },
        }
    }
}

/// How many signature rows a handle holds.
pub open spec fn sig_count_for(sigs: Seq<Signature>, h: Seq<char>) -> int
    decreases sigs.len(),
{
    if sigs.len() == 0 {
        0
    } else {
        sig_count_for(sigs.drop_last(), h) + if sigs.last().user_handle@ == h {
            1int
        } else {
            0int
        }
    }
}

/// Deleting a handle's signature leaves it with none and every other handle
/// with what it had.
pub proof fn lemma_sig_count_excluding(sigs: Seq<Signature>, h: Seq<char>, g: Seq<char>)
    ensures
        sig_count_for(sigs_excluding(sigs, h), g) == if g == h {
            0
        } else {
            sig_count_for(sigs, g)
        },
    decreases sigs.len(),
{
    if sigs.len() > 0 {
        lemma_sig_count_excluding(sigs.drop_last(), h, g);
        if sigs.last().user_handle@ != h {
            let rest = sigs_excluding(sigs.drop_last(), h);
            assert(rest.push(sigs.last()).drop_last() =~= rest);
            assert(rest.push(sigs.last()).last() == sigs.last());
        }
    }
}

/// `new_rows` is `old_rows` with handle `h`'s rows replaced by `items`:
/// the surviving rows first, in order, then one row per item, in order.
pub open spec fn shingle_replaced(
    old_rows: Seq<ShingleRow>,
    h: Seq<char>,
    items: Seq<Shingle>,
    new_rows: Seq<ShingleRow>,
) -> bool {
    let keep = rows_excluding(old_rows, h);
    &&& new_rows.len() == keep.len() + items.len()
    &&& forall|i: int| 0 <= i < keep.len() ==> #[trigger] new_rows[i] == keep[i]
    &&& forall|i: int|
        keep.len() <= i < new_rows.len()
            ==> (#[trigger] new_rows[i]).user_handle@ == h
                && new_rows[i].shingle == items[i - keep.len()]
}

/// Exclusion distributes over concatenation.
proof fn lemma_rows_excluding_app(a: Seq<ShingleRow>, b: Seq<ShingleRow>, h: Seq<char>)
    ensures
        rows_excluding(a + b, h) == rows_excluding(a, h) + rows_excluding(b, h),
    decreases b.len(),
{
    if b.len() == 0 {
        assert(a + b =~= a);
        assert(rows_excluding(a, h) + rows_excluding(b, h) =~= rows_excluding(a, h));
    } else {
        assert((a + b).drop_last() =~= a + b.drop_last());
        assert((a + b).last() == b.last());
        lemma_rows_excluding_app(a, b.drop_last(), h);
        if b.last().user_handle@ != h {
            assert((rows_excluding(a, h) + rows_excluding(b.drop_last(), h)).push(b.last())
                =~= rows_excluding(a, h) + rows_excluding(b.drop_last(), h).push(b.last()));
        }
    }
}

/// Excluding a handle removes rows of that handle entirely.
proof fn lemma_rows_excluding_all(s: Seq<ShingleRow>, h: Seq<char>)
    requires
        forall|i: int| 0 <= i < s.len() ==> (#[trigger] s[i]).user_handle@ == h,
    ensures
        rows_excluding(s, h) == Seq::<ShingleRow>::empty(),
    decreases s.len(),
{
    if s.len() > 0 {
        lemma_rows_excluding_all(s.drop_last(), h);
    }
}

/// Rows that survive exclusion do not hold the excluded handle.
proof fn lemma_rows_excluding_members(s: Seq<ShingleRow>, h: Seq<char>)
    ensures
        forall|i: int|
            0 <= i < rows_excluding(s, h).len()
                ==> (#[trigger] rows_excluding(s, h)[i]).user_handle@ != h,
    decreases s.len(),
{
    if s.len() > 0 {
        lemma_rows_excluding_members(s.drop_last(), h);
        let rest = rows_excluding(s.drop_last(), h);
        assert forall|i: int| 0 <= i < rows_excluding(s, h).len() implies
            (#[trigger] rows_excluding(s, h)[i]).user_handle@ != h by {
            if s.last().user_handle@ == h {
                assert(rows_excluding(s, h)[i] == rest[i]);
            } else if i < rest.len() {
                assert(rows_excluding(s, h)[i] == rest[i]);
            } else {
                assert(rows_excluding(s, h)[i] == s.last());
            }
        }
    }
}

/// Exclusion changes nothing when no row holds the handle.
proof fn lemma_rows_excluding_stable(s: Seq<ShingleRow>, h: Seq<char>)
    requires
        forall|i: int| 0 <= i < s.len() ==> (#[trigger] s[i]).user_handle@ != h,
    ensures
        rows_excluding(s, h) == s,
    decreases s.len(),
{
    if s.len() > 0 {
        lemma_rows_excluding_stable(s.drop_last(), h);
        assert(rows_excluding(s, h) =~= s);
    }
}

/// Replacing a handle's shingles and then replacing them again leaves
/// exactly the rows of the second replacement: the first one is overwritten.
pub proof fn lemma_replace_overwrites(
    rows0: Seq<ShingleRow>,
    h: Seq<char>,
    x: Seq<Shingle>,
    rows1: Seq<ShingleRow>,
    y: Seq<Shingle>,
    rows2: Seq<ShingleRow>,
)
    requires
        shingle_replaced(rows0, h, x, rows1),
        shingle_replaced(rows1, h, y, rows2),
    ensures
        shingle_replaced(rows0, h, y, rows2),
{
    let keep = rows_excluding(rows0, h);
    let tail = rows1.skip(keep.len() as int);
    assert(rows1 =~= keep + tail);
    assert forall|i: int| 0 <= i < tail.len() implies
        (#[trigger] tail[i]).user_handle@ == h by {
        assert(tail[i] == rows1[keep.len() + i]);
    }
    lemma_rows_excluding_app(keep, tail, h);
    lemma_rows_excluding_members(rows0, h);
    lemma_rows_excluding_stable(keep, h);
    lemma_rows_excluding_all(tail, h);
    assert(rows_excluding(rows1, h) =~= keep);
}

impl MemStore {
    /// Replaces every shingle row of the case-folded handle with the given
    /// shingles: delete by handle, then insert all.
    pub fn replace_shingles_for(&mut self, user_handle: &str, shingles: &Vec<Shingle>)
        ensures
            final(self).tweets() == old(self).tweets(),
            final(self).signatures() == old(self).signatures(),
            final(self).similarities() == old(self).similarities(),
            shingle_replaced(
                old(self).shingle_rows(),
                lower_of(user_handle@),
                shingles@,
                final(self).shingle_rows(),
            ),
    {
        let folded = fold_handle(user_handle);
        let mut rows: Vec<ShingleRow> = Vec::new();
        let mut i: usize = 0;
        proof {
            assert(self.shingle_rows@.take(0) =~= Seq::<ShingleRow>::empty());
        }
        while i < self.shingle_rows.len()
            invariant
                i <= self.shingle_rows@.len(),
                folded@ == lower_of(user_handle@),
                rows@ == rows_excluding(self.shingle_rows@.take(i as int), folded@),
            decreases self.shingle_rows@.len() - i,
        {
            proof {
                assert(self.shingle_rows@.take(i as int + 1).drop_last()
                    =~= self.shingle_rows@.take(i as int));
                assert(self.shingle_rows@.take(i as int + 1).last() == self.shingle_rows@[i as int]);
            }
            if !str_eq(self.shingle_rows[i].user_handle.as_str(), folded.as_str()) {
                rows.push(self.shingle_rows[i].clone());
            }
            i = i + 1;
        }
        proof {
            assert(self.shingle_rows@.take(self.shingle_rows@.len() as int)
                =~= self.shingle_rows@);
        }
        let ghost keep = rows_excluding(self.shingle_rows@, folded@);
        let mut j: usize = 0;
        while j < shingles.len()
            invariant
                j <= shingles@.len(),
                folded@ == lower_of(user_handle@),
                rows@.len() == keep.len() + j,
                forall|a: int| 0 <= a < keep.len() ==> #[trigger] rows@[a] == keep[a],
                forall|a: int|
                    keep.len() <= a < rows@.len()
                        ==> (#[trigger] rows@[a]).user_handle@ == folded@
                            && rows@[a].shingle == shingles@[a - keep.len()],
            decreases shingles@.len() - j,
        {
            rows.push(ShingleRow { user_handle: folded.clone(), shingle: shingles[j].clone() });
            j = j + 1;
        }
        self.shingle_rows = rows;
    }

    /// Replaces the case-folded handle's signature: delete by handle, then
    /// insert the one new row. Afterwards the handle holds exactly one
    /// signature row and every other handle holds what it held before.
    pub fn replace_signature_for(&mut self, user_handle: &str, signature: Sig)
        ensures
            final(self).tweets() == old(self).tweets(),
            final(self).shingle_rows() == old(self).shingle_rows(),
            final(self).similarities() == old(self).similarities(),
            ({
                let excl = sigs_excluding(old(self).signatures(), lower_of(user_handle@));
                let sigs = final(self).signatures();
                &&& sigs.len() == excl.len() + 1
                &&& forall|i: int| 0 <= i < excl.len() ==> #[trigger] sigs[i] == excl[i]
                &&& sigs.last().user_handle@ == lower_of(user_handle@)
                &&& sigs.last().signature@ == signature@
            }),
            sig_count_for(final(self).signatures(), lower_of(user_handle@)) == 1,
            forall|g: Seq<char>|
                g != lower_of(user_handle@)
                    ==> #[trigger] sig_count_for(final(self).signatures(), g)
                        == sig_count_for(old(self).signatures(), g),
    {
        let folded = fold_handle(user_handle);
        let ghost orig = self.signatures@;
        let mut kept: Vec<Signature> = Vec::new();
        let mut i: usize = 0;
        let n = self.signatures.len();
        proof {
            assert(orig.len() == n);
            assert(orig.take(0) =~= Seq::<Signature>::empty());
            assert(orig.skip(0) =~= orig);
        }
        while self.signatures.len() > 0
            invariant
                folded@ == lower_of(user_handle@),
                orig == old(self).signatures@,
                orig.len() <= usize::MAX,
                i + self.signatures@.len() == orig.len(),
                self.signatures@ == orig.skip(i as int),
                kept@ == sigs_excluding(orig.take(i as int), folded@),
                self.tweets@ == old(self).tweets@,
                self.shingle_rows@ == old(self).shingle_rows@,
                self.similarities@ == old(self).similarities@,
            decreases self.signatures@.len(),
        {
            proof {
                assert(orig.skip(i as int)[0] == orig[i as int]);
                assert(orig.skip(i as int).remove(0) =~= orig.skip(i as int + 1));
                assert(orig.take(i as int + 1).drop_last() =~= orig.take(i as int));
                assert(orig.take(i as int + 1).last() == orig[i as int]);
            }
            let s = self.signatures.remove(0);
            if !str_eq(s.user_handle.as_str(), folded.as_str()) {
                kept.push(s);
            }
            i = i + 1;
        }
        proof {
            assert(orig.take(orig.len() as int) =~= orig);
        }
        let ghost excl = sigs_excluding(orig, folded@);
        kept.push(Signature { user_handle: folded, signature });
        proof {
            let full = kept@;
            assert(full.drop_last() =~= excl);
            assert(full.last().user_handle@ == lower_of(user_handle@));
            lemma_sig_count_excluding(orig, folded@, folded@);
            assert forall|g: Seq<char>| g != lower_of(user_handle@) implies
                #[trigger] sig_count_for(full, g) == sig_count_for(orig, g) by {
                lemma_sig_count_excluding(orig, folded@, g);
            }
        }
        self.signatures = kept;
    }

    /// Appends similarity rows; existing rows are never removed.
    pub fn insert_similarities(&mut self, rows: &Vec<Similarity>)
        ensures
            final(self).tweets() == old(self).tweets(),
            final(self).shingle_rows() == old(self).shingle_rows(),
            final(self).signatures() == old(self).signatures(),
            final(self).similarities() == old(self).similarities() + rows@,
    {
        let mut i: usize = 0;
        while i < rows.len()
            invariant
                i <= rows@.len(),
                self.tweets@ == old(self).tweets@,
                self.shingle_rows@ == old(self).shingle_rows@,
                self.signatures@ == old(self).signatures@,
                self.similarities@ == old(self).similarities@ + rows@.take(i as int),
            decreases rows@.len() - i,
        {
            proof {
                assert(old(self).similarities@ + rows@.take(i as int + 1)
                    =~= (old(self).similarities@ + rows@.take(i as int)).push(rows@[i as int]));
            }
            self.similarities.push(rows[i].clone());
            i = i + 1;
        }
        proof {
            assert(rows@.take(rows@.len() as int) =~= rows@);
        }
    }

    /// The case-folded handle's shingles with word count in
    /// `[min_length, max_length]`, ordered by count descending then text
    /// ascending, limited to the first `limit`.
    pub fn get_shingles_for(
        &self,
        user_handle: &str,
        min_length: usize,
        max_length: usize,
        limit: usize,
    ) -> (result: Vec<Shingle>)
        ensures
            exists|sorted: Seq<Shingle>| {
                let cand = shingle_candidates(
                    self.shingle_rows(),
                    lower_of(user_handle@),
                    min_length as int,
                    max_length as int,
                );
                &&& #[trigger] sorted.to_multiset() == cand.to_multiset()
                &&& sorted.len() == cand.len()
                &&& forall|i: int, j: int|
                    0 <= i <= j < sorted.len() ==> shingle_le(sorted[i], sorted[j])
                &&& result@ == if limit <= sorted.len() {
                    sorted.take(limit as int)
                } else {
                    sorted
                }
            },
    {
        let folded = fold_handle(user_handle);
        let mut cand: Vec<Shingle> = Vec::new();
        let mut i: usize = 0;
        proof {
            assert(self.shingle_rows@.take(0) =~= Seq::<ShingleRow>::empty());
        }
        while i < self.shingle_rows.len()
            invariant
                i <= self.shingle_rows@.len(),
                folded@ == lower_of(user_handle@),
                cand@ == shingle_candidates(
                    self.shingle_rows@.take(i as int),
                    folded@,
                    min_length as int,
                    max_length as int,
                ),
            decreases self.shingle_rows@.len() - i,
        {
            proof {
                assert(self.shingle_rows@.take(i as int + 1).drop_last()
                    =~= self.shingle_rows@.take(i as int));
                assert(self.shingle_rows@.take(i as int + 1).last() == self.shingle_rows@[i as int]);
            }
            let row = &self.shingle_rows[i];
            let len_ok = (row.shingle.length as usize) >= min_length
                && (row.shingle.length as usize) <= max_length;
            if len_ok && str_eq(row.user_handle.as_str(), folded.as_str()) {
                cand.push(row.shingle.clone());
            }
            i = i + 1;
        }
        proof {
            assert(self.shingle_rows@.take(self.shingle_rows@.len() as int)
                =~= self.shingle_rows@);
        }
        let mut result = sort_shingles(cand);
        let ghost sorted = result@;
        result.truncate(limit);
        proof {
            if limit <= sorted.len() {
                assert(result@ =~= sorted.take(limit as int));
            }
        }
        result
    }

    /// The case-folded handle's signature entries, or an error when the
    /// handle holds no signature row.
    pub fn get_signature_for(&self, user_handle: &str) -> (r: Result<Sig, GenericError>)
        ensures
            match r {
                Result::Ok(sig) => exists|i: int|
                    0 <= i < self.signatures().len()
                        && (#[trigger] self.signatures()[i]).user_handle@ == lower_of(user_handle@)
                        && self.signatures()[i].signature@ == sig@,
                Result::Err(_) => forall|i: int|
                    0 <= i < self.signatures().len()
                        ==> (#[trigger] self.signatures()[i]).user_handle@ != lower_of(user_handle@),
            },
    {
        let folded = fold_handle(user_handle);
        let mut i: usize = 0;
        while i < self.signatures.len()
            invariant
                i <= self.signatures@.len(),
                folded@ == lower_of(user_handle@),
                forall|j: int|
                    0 <= j < i
                        ==> (#[trigger] self.signatures@[j]).user_handle@ != folded@,
            decreases self.signatures@.len() - i,
        {
            if str_eq(self.signatures[i].user_handle.as_str(), folded.as_str()) {
                let sig = self.signatures[i].clone();
                proof {
                    assert(self.signatures()[i as int].user_handle@ == folded@);
                }
                return Ok(sig.signature);
            }
            i = i + 1;
        }
        Err(GenericError::from(String::from_str("no signature for handle")))
    }

    /// Every stored signature, in storage order.
    pub fn get_all_signatures(&self) -> (result: Vec<Signature>)
        ensures
            result@.len() == self.signatures().len(),
            forall|i: int| 0 <= i < result@.len() ==> {
                &&& (#[trigger] result@[i]).user_handle == self.signatures()[i].user_handle
                &&& result@[i].signature@ == self.signatures()[i].signature@
            },
    {
        let mut result: Vec<Signature> = Vec::new();
        let mut i: usize = 0;
        while i < self.signatures.len()
            invariant
                i <= self.signatures@.len(),
                result@.len() == i,
                forall|j: int| 0 <= j < i ==> {
                    &&& (#[trigger] result@[j]).user_handle == self.signatures@[j].user_handle
                    &&& result@[j].signature@ == self.signatures@[j].signature@
                },
            decreases self.signatures@.len() - i,
        {
            result.push(self.signatures[i].clone());
            i = i + 1;
        }
        result
    }

    /// Every stored similarity row, in storage order.
    pub fn get_all_similarities(&self) -> (result: Vec<Similarity>)
        ensures
            result@ == self.similarities(),
    {
        let mut result: Vec<Similarity> = Vec::new();
        let mut i: usize = 0;
        while i < self.similarities.len()
            invariant
                i <= self.similarities@.len(),
                result@ == self.similarities@.take(i as int),
            decreases self.similarities@.len() - i,
        {
            proof {
                assert(self.similarities@.take(i as int).push(self.similarities@[i as int])
                    =~= self.similarities@.take(i as int + 1));
            }
            result.push(self.similarities[i].clone());
            i = i + 1;
        }
        proof {
            assert(self.similarities@.take(self.similarities@.len() as int)
                =~= self.similarities@);
        }
        result
    }
}

} // verus!
