//! End-to-end pipeline scenarios against the in-memory store and a faked
//! timeline source.

use tweetsim::data_model::{Shingle, Tweet};
use tweetsim::store::MemStore;
use tweetsim::tweet_analyzer::{count_shingles, update_signature_for, update_tweet_shingles_for};
use tweetsim::tweet_grabber::{on_error, FetchAction, FetchSession, TimelineItem};
use tweetsim::similarity_computer::update_similarities_for;

fn item(id: u64, screen_name: &str, text: &str) -> TimelineItem {
    TimelineItem {
        id,
        screen_name: screen_name.to_owned(),
        user_name: screen_name.to_owned(),
        user_id: 7,
        created_at: 1_600_000_000 + id as i64,
        created_at_string: format!("t{}", id),
        text: text.to_owned(),
    }
}

/// Serves pages like the upstream timeline: items with id above `since` and
/// at most `max`, newest first, at most `page` per call.
fn fake_page(
    all: &[TimelineItem],
    since: Option<u64>,
    max: Option<u64>,
    page: usize,
) -> Vec<TimelineItem> {
    let mut hits: Vec<&TimelineItem> = all
        .iter()
        .filter(|t| since.map_or(true, |s| t.id > s) && max.map_or(true, |m| t.id <= m))
        .collect();
    hits.sort_by(|a, b| b.id.cmp(&a.id));
    hits.into_iter()
        .take(page)
        .map(|t| item(t.id, &t.screen_name, &t.text))
        .collect()
}

/// Runs one full fetch for a handle against the faked timeline.
fn run_fetch(store: &mut MemStore, handle: &str, all: &[TimelineItem], page: usize) {
    let mut session = FetchSession::begin(store, handle);
    loop {
        let (since, max) = session.next_request();
        let items = fake_page(all, since, max, page);
        if !session.on_page(&items) {
            break;
        }
    }
    session.finish(store).expect("batch insert failed");
}

#[test]
fn incremental_fetch_stores_once() {
    let all: Vec<TimelineItem> = (1..=250)
        .map(|id| item(id, "carol", &format!("text number {}", id)))
        .collect();
    let mut store = MemStore::new();
    run_fetch(&mut store, "carol", &all[..100], 40);
    assert_eq!(store.get_tweets_for("carol").len(), 100);
    run_fetch(&mut store, "carol", &all, 40);
    let tweets = store.get_tweets_for("carol");
    assert_eq!(tweets.len(), 250);
    let mut ids: Vec<u64> = tweets.iter().map(|t| t.id).collect();
    ids.sort();
    ids.dedup();
    assert_eq!(ids.len(), 250);
    // a third run finds nothing new
    run_fetch(&mut store, "carol", &all, 40);
    assert_eq!(store.get_tweets_for("carol").len(), 250);
}

#[test]
fn duplicate_item_ids_are_rejected() {
    let mut store = MemStore::new();
    let batch = vec![
        tweet(1, "dana", "one"),
        tweet(1, "dana", "one again"),
    ];
    assert!(store.insert_tweets(&batch).is_err());
    assert!(store.get_tweets_for("dana").is_empty());
}

fn tweet(id: u64, handle: &str, text: &str) -> Tweet {
    Tweet {
        id,
        user_name: handle.to_owned(),
        user_handle: handle.to_lowercase(),
        user_id: 7,
        created_at: 0,
        created_at_string: String::new(),
        text: text.to_owned(),
        polished_text: tweetsim::text::polish_text(text),
    }
}

#[test]
fn rate_limit_then_resume() {
    // A page of 200, then a rate-limit error, then the final 50, then empty.
    let all: Vec<TimelineItem> = (1..=250)
        .map(|id| item(id, "erin", &format!("note {}", id)))
        .collect();
    let mut store = MemStore::new();
    let mut session = FetchSession::begin(&store, "erin");

    let (since, max) = session.next_request();
    let first = fake_page(&all, since, max, 200);
    assert_eq!(first.len(), 200);
    assert!(session.on_page(&first));

    // the rate-limited call returns no page; the loop sleeps and retries
    assert!(matches!(on_error(true), FetchAction::RetryAfterSleep));
    assert!(matches!(on_error(false), FetchAction::Fail));

    let (since, max) = session.next_request();
    assert_eq!(max, Some(50));
    let second = fake_page(&all, since, max, 200);
    assert_eq!(second.len(), 50);
    assert!(session.on_page(&second));

    let (since, max) = session.next_request();
    let third = fake_page(&all, since, max, 200);
    assert!(third.is_empty());
    assert!(!session.on_page(&third));

    session.finish(&mut store).expect("insert failed");
    let tweets = store.get_tweets_for("erin");
    assert_eq!(tweets.len(), 250);
    let mut ids: Vec<u64> = tweets.iter().map(|t| t.id).collect();
    ids.sort();
    ids.dedup();
    assert_eq!(ids.len(), 250);
}

#[test]
fn replace_shingles_keeps_only_second_set() {
    let mut store = MemStore::new();
    let x = vec![
        Shingle { text: "old".to_owned(), length: 1, count: 3 },
        Shingle { text: "old two".to_owned(), length: 2, count: 1 },
    ];
    let y = vec![Shingle { text: "new".to_owned(), length: 1, count: 2 }];
    store.replace_shingles_for("harry", &x);
    store.replace_shingles_for("harry", &y);
    let rows = store.get_shingles_for("harry", 1, 10, 100);
    assert_eq!(rows.len(), 1);
    assert_eq!(rows[0].text, "new");
    assert_eq!(rows[0].count, 2);
}

#[test]
fn shingle_read_orders_by_count_then_text() {
    let mut store = MemStore::new();
    let rows = vec![
        Shingle { text: "bb".to_owned(), length: 1, count: 2 },
        Shingle { text: "aa".to_owned(), length: 1, count: 2 },
        Shingle { text: "cc".to_owned(), length: 1, count: 5 },
        Shingle { text: "long one".to_owned(), length: 2, count: 9 },
    ];
    store.replace_shingles_for("iris", &rows);
    let top = store.get_shingles_for("iris", 1, 1, 2);
    assert_eq!(top.len(), 2);
    assert_eq!(top[0].text, "cc");
    assert_eq!(top[1].text, "aa");
    let all = store.get_shingles_for("iris", 1, 2, 100);
    assert_eq!(all[0].text, "long one");
}

#[test]
fn empty_timeline_scenario() {
    // One handle whose timeline is empty: no items, no shingles, a
    // signature of max-hash entries, and no similarity rows to form.
    let mut store = MemStore::new();
    run_fetch(&mut store, "alice", &[], 200);
    assert!(store.get_tweets_for("alice").is_empty());
    update_tweet_shingles_for(&mut store, "alice", 3);
    assert!(store.get_shingles_for("alice", 1, 3, 100).is_empty());
    update_signature_for(&mut store, "alice", 1, 3, 100, 6);
    let sig = store.get_signature_for("alice").expect("signature missing");
    assert_eq!(sig.len(), 6);
    for e in sig.iter() {
        assert_eq!(e.shingle, "");
        assert_eq!(e.min_hash, u64::MAX);
    }
    update_similarities_for(&mut store, "alice").expect("similarities failed");
    assert!(store.get_all_similarities().is_empty());
}

#[test]
fn single_tweet_scenario() {
    let mut store = MemStore::new();
    let all = vec![item(10, "bob", "Hello, WORLD!")];
    run_fetch(&mut store, "bob", &all, 200);
    let tweets = store.get_tweets_for("bob");
    assert_eq!(tweets.len(), 1);
    assert_eq!(tweets[0].polished_text, "hello world");
    update_tweet_shingles_for(&mut store, "bob", 2);
    let rows = store.get_shingles_for("bob", 1, 2, 100);
    assert_eq!(rows.len(), 1);
    assert_eq!(rows[0].text, "hello");
    assert_eq!(rows[0].length, 1);
    assert_eq!(rows[0].count, 1);
    update_signature_for(&mut store, "bob", 1, 2, 100, 4);
    let sig = store.get_signature_for("bob").expect("signature missing");
    assert_eq!(sig.len(), 4);
    for e in sig.iter() {
        assert_eq!(e.shingle, "hello");
    }
}

#[test]
fn pair_similarity_scenario() {
    let mut store = MemStore::new();
    run_fetch(&mut store, "c", &[item(1, "c", "a b c")], 200);
    run_fetch(&mut store, "d", &[item(2, "d", "a b c")], 200);
    for h in ["c", "d"] {
        update_tweet_shingles_for(&mut store, h, 2);
        let mut texts: Vec<String> = store
            .get_shingles_for(h, 1, 2, 100)
            .into_iter()
            .map(|s| s.text)
            .collect();
        texts.sort();
        assert_eq!(texts, vec!["a", "a b", "b"]);
        update_signature_for(&mut store, h, 1, 2, 100, 16);
    }
    update_similarities_for(&mut store, "c").expect("similarities failed");
    let sims = store.get_all_similarities();
    assert_eq!(sims.len(), 1);
    assert_eq!(sims[0].source_handle, "c");
    assert_eq!(sims[0].target_handle, "d");
    assert_eq!(sims[0].matching, sims[0].out_of);
    assert_eq!(sims[0].matching as f64 / sims[0].out_of as f64, 1.0);
}

#[test]
fn replace_on_recompute_scenario() {
    // After the item's text changes, a second analysis leaves only the new
    // shingle rows behind.
    let mut store = MemStore::new();
    run_fetch(&mut store, "bob", &[item(10, "bob", "Hello, WORLD!")], 200);
    update_tweet_shingles_for(&mut store, "bob", 2);
    assert_eq!(store.get_shingles_for("bob", 1, 2, 100)[0].text, "hello");
    // recompute over the updated text, as the analyzer would
    let rows = count_shingles(&vec!["bye".to_owned()], 2);
    assert!(rows.is_empty(), "a single token yields no shingle");
    let rows = count_shingles(&vec!["bye now".to_owned()], 2);
    assert_eq!(rows.len(), 1);
    assert_eq!(rows[0].text, "bye");
    store.replace_shingles_for("bob", &rows);
    let left = store.get_shingles_for("bob", 1, 2, 100);
    assert_eq!(left.len(), 1);
    assert_eq!(left[0].text, "bye");
    assert_eq!(left[0].count, 1);
    assert_eq!(left[0].length, 1);
}

#[test]
fn canonical_pair_scenario() {
    // Mixed-case handles both hold signatures; processing "Z" writes the
    // canonically ordered pair ("a", "z").
    let mut store = MemStore::new();
    run_fetch(&mut store, "Z", &[item(1, "Z", "x y z")], 200);
    run_fetch(&mut store, "a", &[item(2, "a", "x y z")], 200);
    for h in ["Z", "a"] {
        update_tweet_shingles_for(&mut store, h, 2);
        update_signature_for(&mut store, h, 1, 2, 100, 8);
    }
    update_similarities_for(&mut store, "Z").expect("similarities failed");
    let sims = store.get_all_similarities();
    assert_eq!(sims.len(), 1);
    assert_eq!(sims[0].source_handle, "a");
    assert_eq!(sims[0].target_handle, "z");
}

#[test]
fn missing_signature_is_an_error() {
    let mut store = MemStore::new();
    assert!(store.get_signature_for("nobody").is_err());
    let r = update_similarities_for(&mut store, "nobody");
    assert!(r.is_err());
    assert!(store.get_all_similarities().is_empty());
}

#[test]
fn counts_aggregate_across_items() {
    let rows = count_shingles(
        &vec!["a b c".to_owned(), "a b c".to_owned(), "a x y".to_owned()],
        2,
    );
    let find = |t: &str| rows.iter().find(|r| r.text == t).map(|r| (r.length, r.count));
    assert_eq!(find("a"), Some((1, 3)));
    assert_eq!(find("a b"), Some((2, 2)));
    assert_eq!(find("b"), Some((1, 2)));
    assert_eq!(find("a x"), Some((2, 1)));
    assert_eq!(find("x"), Some((1, 1)));
    assert_eq!(find("c"), None);
    assert_eq!(find("y"), None);
}
