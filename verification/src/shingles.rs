//! Word shingles: ASCII-whitespace tokenization of polished text and
//! enumeration of contiguous word windows.

use vstd::prelude::*;

verus! {

/// The ASCII whitespace characters that separate words.
pub open spec fn is_token_sep(c: char) -> bool {
    ||| c == ' '
    ||| c == '\u{09}'
    ||| c == '\u{0A}'
    ||| c == '\u{0C}'
    ||| c == '\u{0D}'
}

/// Separator test matching `is_token_sep`.
pub fn is_sep(c: char) -> (r: bool)
    ensures
        r == is_token_sep(c),
{
    c == ' ' || c == '\u{09}' || c == '\u{0A}' || c == '\u{0C}' || c == '\u{0D}'
}

/// Tokenization state after reading a prefix: the completed tokens and the
/// pending word still being read.
pub open spec fn tok_state(s: Seq<char>) -> (Seq<Seq<char>>, Seq<char>)
    decreases s.len(),
{
    if s.len() == 0 {
        (Seq::empty(), Seq::empty())
    } else {
        let prev = tok_state(s.drop_last());
        let c = s.last();
        if is_token_sep(c) {
            if prev.1.len() == 0 {
                prev
            } else {
                (prev.0.push(prev.1), Seq::empty())
            }
        } else {
            (prev.0, prev.1.push(c))
        }
    }
}

/// The whitespace-separated tokens of `s`, in order.
pub open spec fn tokens_of(s: Seq<char>) -> Seq<Seq<char>> {
    let st = tok_state(s);
    if st.1.len() == 0 {
        st.0
    } else {
        st.0.push(st.1)
    }
}

/// Splits on ASCII whitespace, dropping empty words.
pub fn tokenize(s: &str) -> (toks: Vec<String>)
    ensures
        toks.deep_view() == tokens_of(s@),
{
    let n = s.unicode_len();
    let mut done: Vec<String> = Vec::new();
    let mut cur = String::new();
    let mut i: usize = 0;
    proof {
        assert(s@.take(0) =~= Seq::<char>::empty());
        assert(done.deep_view() =~= tok_state(s@.take(0)).0);
    }
    while i < n
        invariant
            i <= n,
            n == s@.len(),
            done.deep_view() == tok_state(s@.take(i as int)).0,
            cur@ == tok_state(s@.take(i as int)).1,
        decreases n - i,
    {
        let c = s.get_char(i);
        proof {
            assert(s@.take(i as int + 1).drop_last() =~= s@.take(i as int));
            assert(s@.take(i as int + 1).last() == s@[i as int]);
        }
        if is_sep(c) {
            if cur.unicode_len() > 0 {
                let ghost old_done = done.deep_view();
                done.push(cur);
                proof {
                    assert(done.deep_view() =~= old_done.push(tok_state(s@.take(i as int)).1));
                }
                cur = String::new();
            }
        } else {
            let piece = s.substring_char(i, i + 1);
            proof {
                assert(piece@ =~= seq![s@[i as int]]);
                assert(cur@ + piece@ =~= cur@.push(s@[i as int]));
            }
            cur.append(piece);
        }
        i = i + 1;
    }
    proof {
        assert(s@.take(n as int) =~= s@);
    }
    if cur.unicode_len() > 0 {
        let ghost old_done = done.deep_view();
        done.push(cur);
        proof {
            assert(done.deep_view() =~= old_done.push(tok_state(s@).1));
        }
    }
    done
}

/// Tokens joined with single spaces.
pub open spec fn join_tokens(toks: Seq<Seq<char>>) -> Seq<char>
    decreases toks.len(),
{
    if toks.len() == 0 {
        Seq::empty()
    } else if toks.len() == 1 {
        toks[0]
    } else {
        toks[0] + seq![' '] + join_tokens(toks.drop_first())
    }
}

/// Joining distributes over appending one token at the end.
proof fn lemma_join_tokens_push(toks: Seq<Seq<char>>, t: Seq<char>)
    ensures
        join_tokens(toks.push(t)) == if toks.len() == 0 {
            t
        } else {
            join_tokens(toks) + seq![' '] + t
        },
    decreases toks.len(),
{
    if toks.len() == 0 {
        assert(toks.push(t)[0] == t);
    } else if toks.len() == 1 {
        assert(toks.push(t)[0] == toks[0]);
        assert(toks.push(t).drop_first() =~= seq![t]);
        assert(join_tokens(seq![t]) == t);
    } else {
        assert(toks.push(t)[0] == toks[0]);
        assert(toks.push(t).drop_first() =~= toks.drop_first().push(t));
        lemma_join_tokens_push(toks.drop_first(), t);
        assert(toks[0] + seq![' '] + (join_tokens(toks.drop_first()) + seq![' '] + t)
            =~= (toks[0] + seq![' '] + join_tokens(toks.drop_first())) + seq![' '] + t);
    }
}

/// The space-joined window of `j` tokens starting at `k`.
pub open spec fn window(toks: Seq<Seq<char>>, k: int, j: int) -> Seq<char> {
    join_tokens(toks.subrange(k, k + j))
}

/// The windows starting at `k` of sizes `1..=jmax` whose right edge stays
/// strictly inside the token array, in increasing size order.
pub open spec fn windows_at(toks: Seq<Seq<char>>, k: int, jmax: int) -> Seq<Seq<char>>
    decreases jmax,
{
    if jmax <= 0 {
        Seq::empty()
    } else if k + jmax < toks.len() {
        windows_at(toks, k, jmax - 1).push(window(toks, k, jmax))
    } else {
        windows_at(toks, k, jmax - 1)
    }
}

/// Window sizes past the right edge contribute nothing.
proof fn lemma_windows_at_stable(toks: Seq<Seq<char>>, k: int, j: int, jmax: int)
    requires
        0 <= j <= jmax,
        k + j >= toks.len(),
    ensures
        windows_at(toks, k, jmax) == windows_at(toks, k, j),
    decreases jmax - j,
{
    if j < jmax {
        lemma_windows_at_stable(toks, k, j, jmax - 1);
    }
}

/// All shingles of sizes `1..=jmax`, grouped by start position `k` onwards.
pub open spec fn shingles_from(toks: Seq<Seq<char>>, jmax: int, k: int) -> Seq<Seq<char>>
    decreases toks.len() - k,
{
    if k < 0 || k >= toks.len() {
        Seq::empty()
    } else {
        windows_at(toks, k, jmax) + shingles_from(toks, jmax, k + 1)
    }
}

/// Every shingle of the token sequence, sizes `1..=jmax`, outer loop over
/// start positions, inner loop over sizes.
pub open spec fn spec_shingles(toks: Seq<Seq<char>>, jmax: int) -> Seq<Seq<char>> {
    shingles_from(toks, jmax, 0)
}

/// Enumerates all word shingles of `text` with `1..=size` words whose right
/// edge stays strictly inside the token array.
pub fn get_shingles_up_to_size(text: &str, size: usize) -> (result: Vec<String>)
    ensures
        result.deep_view() == spec_shingles(tokens_of(text@), size as int),
{
    let splits = tokenize(text);
    let count = splits.len();
    let ghost model = tokens_of(text@);
    proof {
        assert(model.len() == splits@.len());
    }
    let mut result: Vec<String> = Vec::new();
    let mut k: usize = 0;
    proof {
        assert(result.deep_view() + shingles_from(model, size as int, 0)
            =~= shingles_from(model, size as int, 0));
    }
    while k < count
        invariant
            k <= count,
            count == splits@.len(),
            model == splits.deep_view(),
            model.len() == count,
            spec_shingles(model, size as int)
                == result.deep_view() + shingles_from(model, size as int, k as int),
        decreases count - k,
    {
        let ghost row_base = result.deep_view();
        let mut acc: String = splits[k].clone();
        proof {
            assert(acc@ == model[k as int]);
            assert(model.subrange(k as int, k as int + 1) =~= seq![model[k as int]]);
            assert(window(model, k as int, 1) == model[k as int]);
            assert(result.deep_view() =~= row_base + windows_at(model, k as int, 0));
        }
        let mut j: usize = 1;
        while j <= size && count - k > j
            invariant
                1 <= j,
                k < count,
                count == splits@.len(),
                model == splits.deep_view(),
                model.len() == count,
                j <= size + 1,
                j > 1 ==> k + j - 1 < count,
                acc@ == window(model, k as int, j as int),
                result.deep_view() == row_base + windows_at(model, k as int, j as int - 1),
            decreases size + 1 - j,
        {
            let ghost old_rows = result.deep_view();
            result.push(acc.clone());
            proof {
                assert(result.deep_view() =~= old_rows.push(acc@));
                assert(windows_at(model, k as int, j as int)
                    == windows_at(model, k as int, j as int - 1).push(window(model, k as int, j as int)));
                assert(row_base + windows_at(model, k as int, j as int - 1).push(window(model, k as int, j as int))
                    =~= (row_base + windows_at(model, k as int, j as int - 1)).push(window(model, k as int, j as int)));
            }
            let sep = " ";
            proof {
                reveal_strlit(" ");
                assert(sep@ =~= seq![' ']);
            }
            acc.append(sep);
            let next = splits[k + j].clone();
            proof {
                assert(next@ == model[k as int + j]);
            }
            acc.append(next.as_str());
            proof {
                assert(model.subrange(k as int, k as int + j + 1)
                    =~= model.subrange(k as int, k as int + j).push(model[k as int + j]));
                lemma_join_tokens_push(model.subrange(k as int, k as int + j), model[k as int + j]);
                assert(model.subrange(k as int, k as int + j).len() == j);
                assert(acc@ =~= window(model, k as int, j as int) + seq![' '] + model[k as int + j]);
            }
            j = j + 1;
        }
        proof {
            if j <= size {
                lemma_windows_at_stable(model, k as int, j as int, size as int);
                assert(windows_at(model, k as int, j as int) == windows_at(model, k as int, j as int - 1));
            }
            assert(windows_at(model, k as int, size as int) == windows_at(model, k as int, j as int - 1));
            assert(result.deep_view() == row_base + windows_at(model, k as int, size as int));
            assert(shingles_from(model, size as int, k as int)
                == windows_at(model, k as int, size as int) + shingles_from(model, size as int, k as int + 1));
            assert(row_base + (windows_at(model, k as int, size as int) + shingles_from(model, size as int, k as int + 1))
                =~= (row_base + windows_at(model, k as int, size as int)) + shingles_from(model, size as int, k as int + 1));
        }
        k = k + 1;
    }
    proof {
        assert(shingles_from(model, size as int, count as int) =~= Seq::<Seq<char>>::empty());
        assert(result.deep_view() + Seq::<Seq<char>>::empty() =~= result.deep_view());
    }
    result
}

/// The number of window sizes `j` in `1..=jmax` with `k + j < n`.
pub open spec fn sizes_count(n: int, k: int, jmax: int) -> int
    decreases jmax,
{
    if jmax <= 0 {
        0
    } else {
        sizes_count(n, k, jmax - 1) + if k + jmax < n {
            1int
        } else {
            0int
        }
    }
}

proof fn lemma_windows_at_len(toks: Seq<Seq<char>>, k: int, jmax: int)
    ensures
        windows_at(toks, k, jmax).len() == sizes_count(toks.len() as int, k, jmax),
    decreases jmax,
{
    if jmax > 0 {
        lemma_windows_at_len(toks, k, jmax - 1);
    }
}

/// The number of shingles contributed by start positions `k` onwards.
pub open spec fn sum_rows(n: int, jmax: int, k: int) -> int
    decreases n - k,
{
    if k < 0 || k >= n {
        0
    } else {
        sizes_count(n, k, jmax) + sum_rows(n, jmax, k + 1)
    }
}

proof fn lemma_shingles_from_len(toks: Seq<Seq<char>>, jmax: int, k: int)
    ensures
        shingles_from(toks, jmax, k).len() == sum_rows(toks.len() as int, jmax, k),
    decreases toks.len() - k,
{
    if 0 <= k < toks.len() {
        lemma_windows_at_len(toks, k, jmax);
        lemma_shingles_from_len(toks, jmax, k + 1);
    }
}

/// The sum over `w = 1..=size` of `max(0, n - w)`.
pub open spec fn sum_sizes(n: int, size: int) -> int
    decreases size,
{
    if size <= 0 {
        0
    } else {
        sum_sizes(n, size - 1) + if n - size > 0 {
            n - size
        } else {
            0int
        }
    }
}

proof fn lemma_sum_rows_zero(n: int, k: int)
    ensures
        sum_rows(n, 0, k) == 0,
    decreases n - k,
{
    if 0 <= k < n {
        lemma_sum_rows_zero(n, k + 1);
    }
}

proof fn lemma_sum_rows_peel(n: int, size: int, k: int)
    requires
        1 <= size,
        0 <= k,
    ensures
        sum_rows(n, size, k) == sum_rows(n, size - 1, k) + if n - size - k > 0 {
            n - size - k
        } else {
            0int
        },
    decreases n - k,
{
    if k < n {
        lemma_sum_rows_peel(n, size, k + 1);
    }
}

proof fn lemma_sum_rows_sizes(n: int, size: int)
    requires
        0 <= size,
        0 <= n,
    ensures
        sum_rows(n, size, 0) == sum_sizes(n, size),
    decreases size,
{
    if size == 0 {
        lemma_sum_rows_zero(n, 0);
    } else {
        lemma_sum_rows_peel(n, size, 0);
        lemma_sum_rows_sizes(n, size - 1);
    }
}

/// For `n` tokens, the shingles of sizes `1..=size` number exactly the sum
/// over `w = 1..=size` of `max(0, n - w)`: every size-`w` window whose right
/// edge stays strictly inside the token array is enumerated once.
pub proof fn lemma_shingle_count(toks: Seq<Seq<char>>, size: int)
    requires
        0 <= size,
    ensures
        spec_shingles(toks, size).len() == sum_sizes(toks.len() as int, size),
{
    lemma_shingles_from_len(toks, size, 0);
    lemma_sum_rows_sizes(toks.len() as int, size);
}

proof fn lemma_windows_at_membership(toks: Seq<Seq<char>>, k: int, j: int, jmax: int)
    requires
        1 <= j <= jmax,
        k + j < toks.len(),
    ensures
        windows_at(toks, k, jmax).contains(window(toks, k, j)),
    decreases jmax,
{
    if j == jmax {
        assert(windows_at(toks, k, jmax).last() == window(toks, k, j));
    } else {
        lemma_windows_at_membership(toks, k, j, jmax - 1);
        let w = window(toks, k, j);
        let i = choose|i: int| 0 <= i < windows_at(toks, k, jmax - 1).len()
            && #[trigger] windows_at(toks, k, jmax - 1)[i] == w;
        assert(windows_at(toks, k, jmax)[i] == w);
    }
}

proof fn lemma_shingles_from_membership(toks: Seq<Seq<char>>, jmax: int, k0: int, k: int, j: int)
    requires
        0 <= k0 <= k,
        1 <= j <= jmax,
        k + j < toks.len(),
    ensures
        shingles_from(toks, jmax, k0).contains(window(toks, k, j)),
    decreases k - k0,
{
    let w = window(toks, k, j);
    if k0 == k {
        lemma_windows_at_membership(toks, k, j, jmax);
        let i = choose|i: int| 0 <= i < windows_at(toks, k, jmax).len()
            && #[trigger] windows_at(toks, k, jmax)[i] == w;
        assert(shingles_from(toks, jmax, k0)[i] == w);
    } else {
        lemma_shingles_from_membership(toks, jmax, k0 + 1, k, j);
        let i = choose|i: int| 0 <= i < shingles_from(toks, jmax, k0 + 1).len()
            && #[trigger] shingles_from(toks, jmax, k0 + 1)[i] == w;
        assert(shingles_from(toks, jmax, k0)[windows_at(toks, k0, jmax).len() + i] == w);
    }
}

/// Every window of `1..=size` words whose right edge stays strictly inside
/// the token array appears among the enumerated shingles.
pub proof fn lemma_shingle_membership(toks: Seq<Seq<char>>, size: int, k: int, j: int)
    requires
        0 <= k,
        1 <= j <= size,
        k + j < toks.len(),
    ensures
        spec_shingles(toks, size).contains(window(toks, k, j)),
{
    lemma_shingles_from_membership(toks, size, 0, k, j);
}

} // verus!
