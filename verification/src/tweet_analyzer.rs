//! The analysis stage: rebuild a handle's shingle counts from its stored
//! items, then recompute its MinHash signature from the top-K shingles.

use vstd::prelude::*;
use crate::data_model::{Shingle, Sig, Tweet};
use crate::mhs::Mhs;
use crate::shingles::{get_shingles_up_to_size, spec_shingles, tokens_of};
use crate::similarity::str_eq;
use crate::store::{shingle_candidates, shingle_le, shingle_replaced, MemStore};
use crate::text::lower_of;

verus! {

/// How often `t` occurs in `all`.
pub open spec fn occ(all: Seq<Seq<char>>, t: Seq<char>) -> int
    decreases all.len(),
{
    if all.len() == 0 {
        0
    } else {
        occ(all.drop_last(), t) + if all.last() == t {
            1int
        } else {
            0int
        }
    }
}

/// Every shingle of every text, sizes `1..=size`, in text order.
pub open spec fn all_shingles(texts: Seq<Seq<char>>, size: int) -> Seq<Seq<char>>
    decreases texts.len(),
{
    if texts.len() == 0 {
        Seq::empty()
    } else {
        all_shingles(texts.drop_last(), size) + spec_shingles(tokens_of(texts.last()), size)
    }
}

/// The number of spaces in `t`.
pub open spec fn spaces_in(t: Seq<char>) -> int
    decreases t.len(),
{
    if t.len() == 0 {
        0
    } else {
        spaces_in(t.drop_last()) + if t.last() == ' ' {
            1int
        } else {
            0int
        }
    }
}

/// The stored word count of a shingle: one more than its spaces, wrapping
/// at the `u32` limit, as wrapping release-mode arithmetic would.
pub open spec fn word_count32(t: Seq<char>) -> u32 {
    vstd::wrapping::u32_specs::wrapping_add((spaces_in(t) % 0x100000000) as u32, 1)
}

/// Whether `rows` aggregates the shingle occurrences of `all`: distinct
/// texts, counts equal to occurrence counts (wrapping at the `u32` limit),
/// word counts derived from the text, and every occurring shingle present.
pub open spec fn counts_ok(rows: Seq<Shingle>, all: Seq<Seq<char>>) -> bool {
    &&& forall|i: int, j: int|
        0 <= i < j < rows.len()
            ==> (#[trigger] rows[i]).text@ != (#[trigger] rows[j]).text@
    &&& forall|i: int| 0 <= i < rows.len() ==> {
        &&& (#[trigger] rows[i]).count == occ(all, rows[i].text@) % 0x100000000
        &&& occ(all, rows[i].text@) > 0
        &&& rows[i].length == word_count32(rows[i].text@)
    }
    &&& forall|t: Seq<char>|
        #[trigger] occ(all, t) > 0 ==> exists|i: int| 0 <= i < rows.len() && rows[i].text@ == t
}

/// Counts the spaces of a string.
fn count_spaces(s: &str) -> (r: usize)
    ensures
        r == spaces_in(s@),
{
    let n = s.unicode_len();
    let mut r: usize = 0;
    let mut i: usize = 0;
    proof {
        assert(s@.take(0) =~= Seq::<char>::empty());
    }
    while i < n
        invariant
            i <= n,
            n == s@.len(),
            r == spaces_in(s@.take(i as int)),
            r <= i,
        decreases n - i,
    {
        proof {
            assert(s@.take(i as int + 1).drop_last() =~= s@.take(i as int));
            assert(s@.take(i as int + 1).last() == s@[i as int]);
        }
        if s.get_char(i) == ' ' {
            r = r + 1;
        }
        i = i + 1;
    }
    proof {
        assert(s@.take(n as int) =~= s@);
    }
    r
}

/// Builds the aggregated shingle rows of a set of polished texts: one row
/// per distinct shingle of sizes `1..=size`, carrying its word count and
/// its occurrence count.
pub fn count_shingles(texts: &Vec<String>, size: usize) -> (rows: Vec<Shingle>)
    ensures
        counts_ok(rows@, all_shingles(texts.deep_view(), size as int)),
{
    let ghost tmodel = texts.deep_view();
    let mut rows: Vec<Shingle> = Vec::new();
    let mut ti: usize = 0;
    proof {
        assert(tmodel.take(0) =~= Seq::<Seq<char>>::empty());
    }
    while ti < texts.len()
        invariant
            ti <= texts@.len(),
            tmodel == texts.deep_view(),
            tmodel.len() == texts@.len(),
            counts_ok(rows@, all_shingles(tmodel.take(ti as int), size as int)),
        decreases texts@.len() - ti,
    {
        let sh = get_shingles_up_to_size(texts[ti].as_str(), size);
        let ghost smodel = sh.deep_view();
        let ghost base = all_shingles(tmodel.take(ti as int), size as int);
        proof {
            assert(texts@[ti as int]@ == tmodel[ti as int]);
            assert(smodel == spec_shingles(tokens_of(tmodel[ti as int]), size as int));
            assert(smodel.take(0) =~= Seq::<Seq<char>>::empty());
            assert(base + smodel.take(0) =~= base);
        }
        let mut si: usize = 0;
        while si < sh.len()
            invariant
                si <= sh@.len(),
                smodel == sh.deep_view(),
                smodel.len() == sh@.len(),
                counts_ok(rows@, base + smodel.take(si as int)),
            decreases sh@.len() - si,
        {
            let ghost cur = base + smodel.take(si as int);
            let ghost x = smodel[si as int];
            proof {
                assert(sh@[si as int]@ == smodel[si as int]);
                assert(base + smodel.take(si as int + 1) =~= cur.push(x));
                assert(cur.push(x).drop_last() =~= cur);
                assert forall|t: Seq<char>| true implies #[trigger] occ(cur.push(x), t) == occ(
                    cur,
                    t,
                ) + if t == x {
                    1int
                } else {
                    0int
                } by {}
            }
            let mut found: bool = false;
            let mut idx: usize = 0;
            let mut r: usize = 0;
            while r < rows.len() && !found
                invariant
                    r <= rows@.len(),
                    x == smodel[si as int],
                    si < smodel.len(),
                    smodel == sh.deep_view(),
                    smodel.len() == sh@.len(),
                    !found ==> forall|j: int| 0 <= j < r ==> (#[trigger] rows@[j]).text@ != x,
                    found ==> idx < rows@.len() && rows@[idx as int].text@ == x,
                decreases rows@.len() - r + if found { 0int } else { 1int },
            {
                if str_eq(rows[r].text.as_str(), sh[si].as_str()) {
                    found = true;
                    idx = r;
                } else {
                    r = r + 1;
                }
            }
            if found {
                let old_row = rows[idx].clone();
                let new_count = old_row.count.wrapping_add(1);
                let updated = Shingle { text: old_row.text, length: old_row.length, count: new_count };
                let ghost old_rows = rows@;
                rows[idx] = updated;
                proof {
                    let m: int = 0x100000000;
                    let oc = occ(cur, x);
                    lemma_occ_nonneg(cur, x);
                    assert((oc + 1) % m == (oc % m + 1) % m) by (nonlinear_arith)
                        requires oc >= 0, m == 0x100000000;
                    vstd::arithmetic::div_mod::lemma_mod_bound(oc, m);
                    let c = oc % m;
                    if c == m - 1 {
                        assert((c + 1) % m == 0) by (nonlinear_arith)
                            requires c == m - 1, m == 0x100000000;
                    } else {
                        vstd::arithmetic::div_mod::lemma_small_mod((c + 1) as nat, m as nat);
                    }
                    assert(updated.count == (occ(cur.push(x), x) % m) as u32);
                    assert forall|j: int| 0 <= j < rows@.len() implies {
                        &&& (#[trigger] rows@[j]).count == occ(cur.push(x), rows@[j].text@) % m
                        &&& occ(cur.push(x), rows@[j].text@) > 0
                        &&& rows@[j].length == word_count32(rows@[j].text@)
                    } by {
                        if j == idx {
                            assert(rows@[j] == updated);
                        } else {
                            assert(rows@[j] == old_rows[j]);
                            assert(old_rows[j].text@ != old_rows[idx as int].text@);
                            assert(occ(cur.push(x), rows@[j].text@) == occ(cur, rows@[j].text@));
                        }
                    }
                    assert forall|t: Seq<char>| #[trigger] occ(cur.push(x), t) > 0 implies
                        exists|i: int| 0 <= i < rows@.len() && rows@[i].text@ == t by {
                        if t == x {
                            assert(rows@[idx as int].text@ == t);
                        } else {
                            assert(occ(cur, t) > 0);
                            let w = choose|i: int| 0 <= i < old_rows.len()
                                && old_rows[i].text@ == t;
                            assert(rows@[w].text@ == t);
                        }
                    }
                }
            } else {
                let text = sh[si].clone();
                let spaces = count_spaces(text.as_str());
                let length: u32 = (((spaces as u64) % 0x100000000) as u32).wrapping_add(1);
                proof {
                    assert((spaces as u64) % 0x100000000 == spaces_in(x) % 0x100000000);
                }
                let ghost old_rows = rows@;
                proof {
                    let m: int = 0x100000000;
                    lemma_occ_nonneg(cur, x);
                    assert(occ(cur, x) == 0) by {
                        if occ(cur, x) > 0 {
                            let w = choose|i: int| 0 <= i < old_rows.len()
                                && old_rows[i].text@ == x;
                            assert(old_rows[w].text@ == x);
                            assert(rows@[w].text@ != x);
                            assert(false);
                        }
                    }
                    lemma_spaces_bound(x);
                    assert(length == word_count32(x));
                }
                rows.push(Shingle { text, length, count: 1 });
                proof {
                    let m: int = 0x100000000;
                    assert(rows@ =~= old_rows.push(Shingle { text: rows@[old_rows.len() as int].text, length, count: 1 }));
                    assert(occ(cur.push(x), x) == 1);
                    vstd::arithmetic::div_mod::lemma_small_mod(1nat, m as nat);
                    assert forall|j: int| 0 <= j < rows@.len() implies {
                        &&& (#[trigger] rows@[j]).count == occ(cur.push(x), rows@[j].text@) % m
                        &&& occ(cur.push(x), rows@[j].text@) > 0
                        &&& rows@[j].length == word_count32(rows@[j].text@)
                    } by {
                        if j < old_rows.len() {
                            assert(rows@[j] == old_rows[j]);
                            assert(old_rows[j].text@ != x);
                            assert(occ(cur.push(x), rows@[j].text@) == occ(cur, rows@[j].text@));
                        } else {
                            assert(rows@[j].text@ == x);
                        }
                    }
                    assert forall|t: Seq<char>| #[trigger] occ(cur.push(x), t) > 0 implies
                        exists|i: int| 0 <= i < rows@.len() && rows@[i].text@ == t by {
                        if t == x {
                            assert(rows@[old_rows.len() as int].text@ == t);
                        } else {
                            assert(occ(cur, t) > 0);
                            let w = choose|i: int| 0 <= i < old_rows.len()
                                && old_rows[i].text@ == t;
                            assert(rows@[w].text@ == t);
                        }
                    }
                }
            }
            si = si + 1;
        }
        proof {
            assert(smodel.take(smodel.len() as int) =~= smodel);
            assert(tmodel.take(ti as int + 1).drop_last() =~= tmodel.take(ti as int));
            assert(tmodel.take(ti as int + 1).last() == tmodel[ti as int]);
            assert(all_shingles(tmodel.take(ti as int + 1), size as int) =~= base + smodel);
        }
        ti = ti + 1;
    }
    proof {
        assert(tmodel.take(tmodel.len() as int) =~= tmodel);
    }
    rows
}

/// Occurrence counts are never negative.
proof fn lemma_occ_nonneg(all: Seq<Seq<char>>, t: Seq<char>)
    ensures
        occ(all, t) >= 0,
    decreases all.len(),
{
    if all.len() > 0 {
        lemma_occ_nonneg(all.drop_last(), t);
    }
}

/// A string has no more spaces than characters.
proof fn lemma_spaces_bound(t: Seq<char>)
    ensures
        0 <= spaces_in(t) <= t.len(),
    decreases t.len(),
{
    if t.len() > 0 {
        lemma_spaces_bound(t.drop_last());
    }
}

/// The polished texts of a sequence of stored items.
pub open spec fn texts_of(tweets: Seq<Tweet>) -> Seq<Seq<char>> {
    tweets.map_values(|t: Tweet| t.polished_text@)
}

/// Rebuilds the handle's shingle rows from its stored items: the new rows
/// aggregate exactly the shingles of the items' polished texts, and they
/// replace all previous rows of the handle.
pub fn update_tweet_shingles_for(store: &mut MemStore, handle: &str, max_shingle_size: usize)
    ensures
        final(store).tweets() == old(store).tweets(),
        final(store).signatures() == old(store).signatures(),
        final(store).similarities() == old(store).similarities(),
        exists|rows: Seq<Shingle>| {
            &&& #[trigger] counts_ok(
                rows,
                all_shingles(
                    texts_of(crate::store::tweets_for(old(store).tweets(), lower_of(handle@))),
                    max_shingle_size as int,
                ),
            )
            &&& shingle_replaced(
                old(store).shingle_rows(),
                lower_of(handle@),
                rows,
                final(store).shingle_rows(),
            )
        },
{
    let tweets = store.get_tweets_for(handle);
    let mut texts: Vec<String> = Vec::new();
    let ghost tw = crate::store::tweets_for(old(store).tweets(), lower_of(handle@));
    let mut i: usize = 0;
    proof {
        assert(texts.deep_view() =~= texts_of(tw.take(0)));
    }
    while i < tweets.len()
        invariant
            i <= tweets@.len(),
            tweets@ == tw,
            texts.deep_view() == texts_of(tw.take(i as int)),
        decreases tweets@.len() - i,
    {
        let ghost old_texts = texts.deep_view();
        texts.push(tweets[i].polished_text.clone());
        proof {
            assert(texts.deep_view() =~= old_texts.push(tw[i as int].polished_text@));
            assert(texts_of(tw.take(i as int + 1)) =~= texts_of(tw.take(i as int)).push(
                tw[i as int].polished_text@,
            ));
        }
        i = i + 1;
    }
    proof {
        assert(tw.take(tw.len() as int) =~= tw);
    }
    let rows = count_shingles(&texts, max_shingle_size);
    store.replace_shingles_for(handle, &rows);
}

/// Recomputes the handle's signature from its stored shingles: the top
/// `num_shingles_evaluated` shingles with word count in
/// `[min_shingle_size, max_shingle_size]` are signed with a fresh engine of
/// `signature_length` multipliers, and the one resulting signature row
/// replaces any previous one.
pub fn update_signature_for(
    store: &mut MemStore,
    handle: &str,
    min_shingle_size: usize,
    max_shingle_size: usize,
    num_shingles_evaluated: usize,
    signature_length: usize,
)
    ensures
        final(store).tweets() == old(store).tweets(),
        final(store).shingle_rows() == old(store).shingle_rows(),
        final(store).similarities() == old(store).similarities(),
        final(store).signatures().len() > 0,
        ({
            let newsig = final(store).signatures().last();
            &&& newsig.user_handle@ == lower_of(handle@)
            &&& exists|sorted: Seq<Shingle>| {
                let cand = shingle_candidates(
                    old(store).shingle_rows(),
                    lower_of(handle@),
                    min_shingle_size as int,
                    max_shingle_size as int,
                );
                let top = if num_shingles_evaluated <= sorted.len() {
                    sorted.take(num_shingles_evaluated as int)
                } else {
                    sorted
                };
                let texts = top.map_values(|s: Shingle| s.text@);
                &&& #[trigger] sorted.to_multiset() == cand.to_multiset()
                &&& sorted.len() == cand.len()
                &&& forall|a: int, b: int|
                    0 <= a <= b < sorted.len() ==> shingle_le(sorted[a], sorted[b])
                &&& newsig.signature@.len() == crate::mhs::multipliers(
                    signature_length as int,
                ).len()
                &&& forall|k: int| 0 <= k < newsig.signature@.len() ==> {
                    let a = crate::mhs::multipliers(signature_length as int)[k];
                    &&& (#[trigger] newsig.signature@[k]).min_hash == Mhs::entry_hash(texts, a)
                    &&& newsig.signature@[k].shingle@ == Mhs::entry_text(texts, a)
                }
            }
        }),
        forall|i: int|
            0 <= i < final(store).signatures().len() - 1
                ==> #[trigger] final(store).signatures()[i]
                    == crate::store::sigs_excluding(
                    old(store).signatures(),
                    lower_of(handle@),
                )[i],
{
    let shingles = store.get_shingles_for(
        handle,
        min_shingle_size,
        max_shingle_size,
        num_shingles_evaluated,
    );
    let mut texts: Vec<&str> = Vec::new();
    let mut i: usize = 0;
    proof {
        assert(texts.deep_view() =~= shingles@.take(0).map_values(|s: Shingle| s.text@));
    }
    while i < shingles.len()
        invariant
            i <= shingles@.len(),
            texts.deep_view() == shingles@.take(i as int).map_values(|s: Shingle| s.text@),
        decreases shingles@.len() - i,
    {
        let ghost old_texts = texts.deep_view();
        texts.push(shingles[i].text.as_str());
        proof {
            assert(texts.deep_view() =~= old_texts.push(shingles@[i as int].text@));
            assert(shingles@.take(i as int + 1).map_values(|s: Shingle| s.text@)
                =~= shingles@.take(i as int).map_values(|s: Shingle| s.text@).push(
                shingles@[i as int].text@,
            ));
        }
        i = i + 1;
    }
    proof {
        assert(shingles@.take(shingles@.len() as int) =~= shingles@);
    }
    let mhs = Mhs::new(signature_length);
    let signature: Sig = mhs.get_signature(&texts);
    store.replace_signature_for(handle, signature);
}

} // verus!
