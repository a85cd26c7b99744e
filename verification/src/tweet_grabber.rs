//! The fetch stage: incremental, backwards-paginated collection of a
//! handle's new timeline items, buffered and persisted in one batch.
//!
//! The timeline itself is an outside service; its calls, the rate-limit
//! sleep and the surrounding task live outside the library. This module
//! holds every decision of the fetch loop: which id bounds the next request
//! uses, how a returned page extends the buffer and moves the cursor, what
//! an error means, and how the batch is persisted.

use vstd::prelude::*;
use crate::data_model::Tweet;
use crate::helpers::GenericError;
use crate::store::{batch_ok, MemStore};
use crate::text::{fold_handle, lower_of, polish_text, spec_polish};

verus! {

/// One timeline item as the upstream source reports it, in plain values.
pub struct TimelineItem {
    pub id: u64,
    pub screen_name: String,
    pub user_name: String,
    pub user_id: u64,
    pub created_at: i64,
    pub created_at_string: String,
    pub text: String,
}

/// What the fetch loop does after a failed timeline call.
pub enum FetchAction {
    RetryAfterSleep,
    Fail,
}

/// A rate-limit failure is retried after the fixed sleep; any other
/// upstream failure surfaces immediately.
pub fn on_error(rate_limited: bool) -> (a: FetchAction)
    ensures
        rate_limited <==> a is RetryAfterSleep,
{
    if rate_limited {
        FetchAction::RetryAfterSleep
    } else {
        FetchAction::Fail
    }
}

/// The smallest item id of a non-empty page.
pub open spec fn page_min_id(items: Seq<TimelineItem>) -> int
    decreases items.len(),
{
    if items.len() <= 1 {
        if items.len() == 0 {
            0
        } else {
            items[0].id as int
        }
    } else {
        let rest = page_min_id(items.drop_last());
        if items.last().id < rest {
            items.last().id as int
        } else {
            rest
        }
    }
}

/// Whether a stored tweet renders a timeline item: handle case-folded from
/// the author's screen name, text polished, all other fields copied.
pub open spec fn renders(t: Tweet, item: TimelineItem) -> bool {
    &&& t.id == item.id
    &&& t.user_name@ == item.user_name@
    &&& t.user_handle@ == lower_of(item.screen_name@)
    &&& t.user_id == item.user_id
    &&& t.created_at == item.created_at
    &&& t.created_at_string@ == item.created_at_string@
    &&& t.text@ == item.text@
    &&& t.polished_text@ == spec_polish(item.text@)
}

/// One handle's fetch in progress: the id bounds of the next request and
/// the items buffered so far.
pub struct FetchSession {
    min_id: Option<u64>,
    max_id: Option<u64>,
    buffer: Vec<Tweet>,
}

impl FetchSession {
    /// The strict lower id bound of every request of this session.
    pub closed spec fn min_id(&self) -> Option<u64> {
        self.min_id
    }

    /// The inclusive upper id bound of the next request.
    pub closed spec fn max_id(&self) -> Option<u64> {
        self.max_id
    }

    /// The items buffered so far, as stored tweets.
    pub closed spec fn buffer(&self) -> Seq<Tweet> {
        self.buffer@
    }

    /// Starts a session for a handle: the lower bound is the id of the most
    /// recent tweet the store already holds for it, if any.
    pub fn begin(store: &MemStore, handle: &str) -> (s: FetchSession)
        ensures
            s.buffer() == Seq::<Tweet>::empty(),
            s.max_id() is None,
            match s.min_id() {
                Option::None => forall|i: int|
                    0 <= i < store.tweets().len()
                        ==> (#[trigger] store.tweets()[i]).user_handle@ != lower_of(handle@),
                Option::Some(id) => exists|i: int|
                    0 <= i < store.tweets().len() && (#[trigger] store.tweets()[i]).id == id
                        && store.tweets()[i].user_handle@ == lower_of(handle@) && forall|j: int|
                        0 <= j < store.tweets().len()
                            && (#[trigger] store.tweets()[j]).user_handle@ == lower_of(handle@)
                            ==> store.tweets()[j].id <= id,
            },
    {
        let most_recent = store.get_most_recent_tweet_for(handle);
        let min_id = match most_recent {
            None => None,
            Some(t) => Some(t.id),
        };
        FetchSession { min_id, max_id: None, buffer: Vec::new() }
    }

    /// Starts a session from an already known lower bound, for callers that
    /// keep their items elsewhere than in a `MemStore`.
    pub fn resume(min_id: Option<u64>) -> (s: FetchSession)
        ensures
            s.buffer() == Seq::<Tweet>::empty(),
            s.max_id() is None,
            s.min_id() == min_id,
    {
        FetchSession { min_id, max_id: None, buffer: Vec::new() }
    }

    /// Hands the buffered batch to the caller, ending the session.
    pub fn into_buffer(self) -> (r: Vec<Tweet>)
        ensures
            r@ == self.buffer(),
    {
        self.buffer
    }

    /// The `(since_id, max_id)` bounds of the next timeline request.
    pub fn next_request(&self) -> (r: (Option<u64>, Option<u64>))
        ensures
            r.0 == self.min_id(),
            r.1 == self.max_id(),
    {
        (self.min_id, self.max_id)
    }

    /// Consumes one returned page. An empty page ends the pagination and
    /// changes nothing. A non-empty page moves the upper bound just below
    /// the smallest id seen and buffers one rendered tweet per item.
    pub fn on_page(&mut self, items: &Vec<TimelineItem>) -> (more: bool)
        requires
            forall|k: int| 0 <= k < items@.len() ==> (#[trigger] items@[k]).id >= 1,
        ensures
            more == (items@.len() > 0),
            final(self).min_id() == old(self).min_id(),
            !more ==> final(self).max_id() == old(self).max_id() && final(self).buffer() == old(
                self,
            ).buffer(),
            more ==> {
                &&& final(self).max_id() == Option::Some((page_min_id(items@) - 1) as u64)
                &&& final(self).buffer().len() == old(self).buffer().len() + items@.len()
                &&& forall|k: int|
                    0 <= k < old(self).buffer().len()
                        ==> #[trigger] final(self).buffer()[k] == old(self).buffer()[k]
                &&& forall|k: int|
                    old(self).buffer().len() <= k < final(self).buffer().len()
                        ==> renders(
                        #[trigger] final(self).buffer()[k],
                        items@[k - old(self).buffer().len()],
                    )
            },
    {
        let n = items.len();
        if n == 0 {
            return false;
        }
        let mut least: u64 = items[0].id;
        let mut i: usize = 1;
        proof {
            assert(items@.take(1) =~= seq![items@[0]]);
        }
        while i < n
            invariant
                1 <= i <= n,
                n == items@.len(),
                least == page_min_id(items@.take(i as int)),
                least >= 1,
                forall|k: int| 0 <= k < items@.len() ==> (#[trigger] items@[k]).id >= 1,
            decreases n - i,
        {
            proof {
                assert(items@.take(i as int + 1).drop_last() =~= items@.take(i as int));
                assert(items@.take(i as int + 1).last() == items@[i as int]);
            }
            if items[i].id < least {
                least = items[i].id;
            }
            i = i + 1;
        }
        proof {
            assert(items@.take(n as int) =~= items@);
        }
        self.max_id = Some(least - 1);
        let mut k: usize = 0;
        let ghost base = self.buffer@;
        while k < n
            invariant
                k <= n,
                n == items@.len(),
                self.min_id == old(self).min_id,
                self.max_id == Option::Some((page_min_id(items@) - 1) as u64),
                self.buffer@.len() == base.len() + k,
                forall|j: int| 0 <= j < base.len() ==> #[trigger] self.buffer@[j] == base[j],
                forall|j: int|
                    base.len() <= j < self.buffer@.len()
                        ==> renders(#[trigger] self.buffer@[j], items@[j - base.len()]),
            decreases n - k,
        {
            let item = &items[k];
            let tweet = Tweet {
                id: item.id,
                user_name: item.user_name.clone(),
                user_handle: fold_handle(item.screen_name.as_str()),
                user_id: item.user_id,
                created_at: item.created_at,
                created_at_string: item.created_at_string.clone(),
                text: item.text.clone(),
                polished_text: polish_text(item.text.as_str()),
            };
            self.buffer.push(tweet);
            k = k + 1;
        }
        true
    }

    /// Persists the buffered batch, if any. Fails, storing nothing, exactly
    /// when a buffered id repeats or is already stored.
    pub fn finish(self, store: &mut MemStore) -> (r: Result<(), GenericError>)
        requires
            old(store).wf(),
        ensures
            final(store).wf(),
            final(store).shingle_rows() == old(store).shingle_rows(),
            final(store).signatures() == old(store).signatures(),
            final(store).similarities() == old(store).similarities(),
            r is Ok <==> batch_ok(old(store).tweets(), self.buffer()),
            r is Ok ==> {
                &&& final(store).tweets().len() == old(store).tweets().len()
                    + self.buffer().len()
                &&& forall|i: int|
                    0 <= i < old(store).tweets().len()
                        ==> #[trigger] final(store).tweets()[i] == old(store).tweets()[i]
                &&& forall|i: int|
                    old(store).tweets().len() <= i < final(store).tweets().len()
                        ==> #[trigger] final(store).tweets()[i] == self.buffer()[i - old(
                        store,
                    ).tweets().len()]
            },
            r is Err ==> final(store).tweets() == old(store).tweets(),
    {
        if self.buffer.len() > 0 {
            store.insert_tweets(&self.buffer)
        } else {
            proof {
                assert(self.buffer@ =~= Seq::<Tweet>::empty());
            }
            Ok(())
        }
    }
}

} // verus!
