//! Polishing of raw text: trimming, case folding and removal of a fixed
//! punctuation set. Polished text is what shingles are drawn from.

use vstd::prelude::*;

verus! {

/// The Unicode `White_Space` characters, the set that `str::trim` removes
/// at both ends.
pub open spec fn is_ws_char(c: char) -> bool {
    ||| c == '\u{09}'
    ||| c == '\u{0A}'
    ||| c == '\u{0B}'
    ||| c == '\u{0C}'
    ||| c == '\u{0D}'
    ||| c == ' '
    ||| c == '\u{85}'
    ||| c == '\u{A0}'
    ||| c == '\u{1680}'
    ||| ('\u{2000}' <= c && c <= '\u{200A}')
    ||| c == '\u{2028}'
    ||| c == '\u{2029}'
    ||| c == '\u{202F}'
    ||| c == '\u{205F}'
    ||| c == '\u{3000}'
}

/// Whitespace test matching `is_ws_char`.
pub fn is_ws(c: char) -> (r: bool)
    ensures
        r == is_ws_char(c),
{
    c == '\u{09}' || c == '\u{0A}' || c == '\u{0B}' || c == '\u{0C}' || c == '\u{0D}'
        || c == ' ' || c == '\u{85}' || c == '\u{A0}' || c == '\u{1680}'
        || ('\u{2000}' <= c && c <= '\u{200A}')
        || c == '\u{2028}' || c == '\u{2029}' || c == '\u{202F}' || c == '\u{205F}'
        || c == '\u{3000}'
}

/// The fixed punctuation set removed from polished text.
pub open spec fn is_punct_char(c: char) -> bool {
    ||| c == '('
    ||| c == ')'
    ||| c == ','
    ||| c == '"'
    ||| c == '.'
    ||| c == '!'
    ||| c == ';'
    ||| c == ':'
    ||| c == '\''
    ||| c == '\u{201C}'
    ||| c == '\u{201D}'
    ||| c == '\u{2019}'
    ||| c == '&'
    ||| c == '?'
    ||| c == '\u{2018}'
    ||| c == '\u{2014}'
    ||| c == '\u{2013}'
}

/// Punctuation test matching `is_punct_char`.
pub fn is_punct(c: char) -> (r: bool)
    ensures
        r == is_punct_char(c),
{
    c == '(' || c == ')' || c == ',' || c == '"' || c == '.' || c == '!' || c == ';'
        || c == ':' || c == '\'' || c == '\u{201C}' || c == '\u{201D}' || c == '\u{2019}'
        || c == '&' || c == '?' || c == '\u{2018}' || c == '\u{2014}' || c == '\u{2013}'
}

/// `s` without its leading whitespace.
pub open spec fn spec_trim_front(s: Seq<char>) -> Seq<char>
    decreases s.len(),
{
    if s.len() == 0 {
        s
    } else if is_ws_char(s[0]) {
        spec_trim_front(s.drop_first())
    } else {
        s
    }
}

/// `s` without its trailing whitespace.
pub open spec fn spec_trim_back(s: Seq<char>) -> Seq<char>
    decreases s.len(),
{
    if s.len() == 0 {
        s
    } else if is_ws_char(s.last()) {
        spec_trim_back(s.drop_last())
    } else {
        s
    }
}

/// `s` without leading and trailing whitespace, as `str::trim` leaves it.
pub open spec fn spec_trim(s: Seq<char>) -> Seq<char> {
    spec_trim_back(spec_trim_front(s))
}

/// Trims whitespace from both ends.
pub fn trim(s: &str) -> (r: &str)
    ensures
        r@ == spec_trim(s@),
{
    let n = s.unicode_len();
    let mut i: usize = 0;
    proof {
        assert(s@.skip(0) =~= s@);
    }
    while i < n && is_ws(s.get_char(i))
        invariant
            i <= n,
            n == s@.len(),
            spec_trim_front(s@) == spec_trim_front(s@.skip(i as int)),
        decreases n - i,
    {
        proof {
            assert(s@.skip(i as int).drop_first() =~= s@.skip(i as int + 1));
        }
        i = i + 1;
    }
    proof {
        assert(s@.skip(0) =~= s@);
        if i < n {
            assert(spec_trim_front(s@.skip(i as int)) == s@.skip(i as int));
        } else {
            assert(s@.skip(n as int) =~= Seq::<char>::empty());
        }
    }
    let mut j: usize = n;
    while j > i && is_ws(s.get_char(j - 1))
        invariant
            i <= j <= n,
            n == s@.len(),
            spec_trim_front(s@) == spec_trim_front(s@.skip(i as int)),
            i < n ==> spec_trim_front(s@) == s@.skip(i as int),
            i >= n ==> spec_trim_front(s@).len() == 0,
            spec_trim_back(s@.skip(i as int)) == spec_trim_back(s@.subrange(i as int, j as int)),
        decreases j,
    {
        proof {
            assert(s@.subrange(i as int, j as int).drop_last()
                =~= s@.subrange(i as int, j as int - 1));
        }
        j = j - 1;
    }
    proof {
        assert(s@.skip(i as int) =~= s@.subrange(i as int, n as int));
        let cut = s@.subrange(i as int, j as int);
        if j > i {
            assert(spec_trim_back(cut) == cut);
        } else {
            assert(cut =~= Seq::<char>::empty());
        }
        if i >= n {
            assert(spec_trim_front(s@) =~= Seq::<char>::empty());
            assert(spec_trim(s@) =~= cut);
        }
    }
    s.substring_char(i, j)
}

/// `s` with every punctuation character removed.
pub open spec fn spec_remove_punct(s: Seq<char>) -> Seq<char>
    decreases s.len(),
{
    if s.len() == 0 {
        Seq::empty()
    } else if is_punct_char(s[0]) {
        spec_remove_punct(s.drop_first())
    } else {
        seq![s[0]] + spec_remove_punct(s.drop_first())
    }
}

/// Removal distributes over appending one character at the end.
proof fn lemma_remove_punct_push(s: Seq<char>, c: char)
    ensures
        spec_remove_punct(s.push(c)) == if is_punct_char(c) {
            spec_remove_punct(s)
        } else {
            spec_remove_punct(s).push(c)
        },
    decreases s.len(),
{
    if s.len() == 0 {
        assert(s.push(c)[0] == c);
        assert(s.push(c).drop_first() =~= s);
        if !is_punct_char(c) {
            assert(spec_remove_punct(s.push(c)) == seq![c] + spec_remove_punct(s));
            assert(seq![c] + spec_remove_punct(s) =~= spec_remove_punct(s).push(c));
        }
    } else {
        assert(s.push(c)[0] == s[0]);
        assert(s.push(c).drop_first() =~= s.drop_first().push(c));
        lemma_remove_punct_push(s.drop_first(), c);
        if !is_punct_char(s[0]) {
            if is_punct_char(c) {
            } else {
                assert(seq![s[0]] + spec_remove_punct(s.drop_first()).push(c)
                    =~= (seq![s[0]] + spec_remove_punct(s.drop_first())).push(c));
            }
        }
    }
}

/// Removing punctuation twice is the same as removing it once.
pub proof fn lemma_remove_punct_idempotent(s: Seq<char>)
    ensures
        spec_remove_punct(spec_remove_punct(s)) == spec_remove_punct(s),
    decreases s.len(),
{
    if s.len() == 0 {
    } else {
        lemma_remove_punct_idempotent(s.drop_first());
        if !is_punct_char(s[0]) {
            let rest = spec_remove_punct(s.drop_first());
            assert((seq![s[0]] + rest).drop_first() =~= rest);
            assert(spec_remove_punct(s) =~= seq![s[0]] + rest);
        }
    }
}

/// Builds the punctuation-free copy of `s`.
pub fn remove_punct(s: &str) -> (r: String)
    ensures
        r@ == spec_remove_punct(s@),
{
    let n = s.unicode_len();
    let mut out = String::new();
    let mut i: usize = 0;
    proof {
        assert(s@.take(0) =~= Seq::<char>::empty());
    }
    while i < n
        invariant
            i <= n,
            n == s@.len(),
            out@ == spec_remove_punct(s@.take(i as int)),
        decreases n - i,
    {
        let c = s.get_char(i);
        proof {
            assert(s@.take(i as int).push(s@[i as int]) =~= s@.take(i as int + 1));
            lemma_remove_punct_push(s@.take(i as int), s@[i as int]);
        }
        if !is_punct(c) {
            let piece = s.substring_char(i, i + 1);
            proof {
                assert(piece@ =~= seq![s@[i as int]]);
                assert(out@ + piece@ =~= out@.push(s@[i as int]));
            }
            out.append(piece);
        }
        i = i + 1;
    }
    proof {
        assert(s@.take(n as int) =~= s@);
    }
    out
}

/// The case folding performed by the standard library: a function of the
/// character sequence alone.
pub uninterp spec fn lower_of(s: Seq<char>) -> Seq<char>;

/// Relies on str::to_lowercase: the lowercase equivalent is determined by
/// the characters alone, and the empty string stays empty.
#[verifier::external_body]
fn lowercase(s: &str) -> (r: String)
    ensures
        r@ == lower_of(s@),
        s@.len() == 0 ==> r@.len() == 0,
{
    s.to_lowercase()
}

/// A non-empty trim-front result starts with a non-whitespace character.
proof fn lemma_trim_front_head(s: Seq<char>)
    ensures
        spec_trim_front(s).len() > 0 ==> !is_ws_char(spec_trim_front(s)[0]),
    decreases s.len(),
{
    if s.len() > 0 && is_ws_char(s[0]) {
        lemma_trim_front_head(s.drop_first());
    }
}

/// A non-empty trim-back result ends with a non-whitespace character, and
/// its first character is the input's first.
proof fn lemma_trim_back_props(s: Seq<char>)
    ensures
        spec_trim_back(s).len() > 0 ==> !is_ws_char(spec_trim_back(s).last()),
        spec_trim_back(s).len() > 0 ==> spec_trim_back(s)[0] == s[0],
    decreases s.len(),
{
    if s.len() > 0 && is_ws_char(s.last()) {
        lemma_trim_back_props(s.drop_last());
    }
}

/// Trimming twice is the same as trimming once.
pub proof fn lemma_trim_idempotent(s: Seq<char>)
    ensures
        spec_trim(spec_trim(s)) == spec_trim(s),
{
    let f = spec_trim_front(s);
    let t = spec_trim_back(f);
    if t.len() > 0 {
        lemma_trim_front_head(s);
        lemma_trim_back_props(f);
        assert(f.len() > 0);
        assert(t[0] == f[0]);
        assert(!is_ws_char(t[0]));
        assert(spec_trim_front(t) == t);
        assert(!is_ws_char(t.last()));
        assert(spec_trim_back(t) == t);
    }
}

/// Case-folds a handle or other identifier.
pub fn fold_handle(s: &str) -> (r: String)
    ensures
        r@ == lower_of(s@),
{
    lowercase(s)
}

/// Polished text: trimmed, case-folded, with the punctuation set removed.
pub open spec fn spec_polish(s: Seq<char>) -> Seq<char> {
    spec_remove_punct(lower_of(spec_trim(s)))
}

/// Polishes raw text for shingling.
pub fn polish_text(s: &str) -> (r: String)
    ensures
        r@ == spec_polish(s@),
{
    let trimmed = trim(s);
    let lowered = lowercase(trimmed);
    remove_punct(lowered.as_str())
}

/// Polishing is idempotent on every string whose polished form is a fixed
/// point of trimming and of case folding. Trimming can genuinely change a
/// polished string again (removed punctuation may expose edge whitespace),
/// which is why the fixed-point hypotheses are required.
pub proof fn lemma_polish_idempotent(s: Seq<char>)
    requires
        spec_trim(spec_polish(s)) == spec_polish(s),
        lower_of(spec_polish(s)) == spec_polish(s),
    ensures
        spec_polish(spec_polish(s)) == spec_polish(s),
{
    let t = spec_polish(s);
    assert(spec_polish(t) == spec_remove_punct(t));
    lemma_remove_punct_idempotent(lower_of(spec_trim(s)));
}

} // verus!
