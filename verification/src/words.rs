//! Splitting a line of text into its words.

use crate::whitespace::{is_whitespace, is_whitespace_char};
use vstd::prelude::*;
use vstd::std_specs::iter::IteratorSpec;

verus! {

/// A word: at least one character, none of them whitespace.
pub open spec fn is_word(w: Seq<char>) -> bool {
    &&& w.len() > 0
    &&& forall|i: int| 0 <= i < w.len() ==> !is_whitespace(#[trigger] w[i])
}

/// The length of the longest prefix of `s` that holds no whitespace.
pub open spec fn run_len(s: Seq<char>) -> nat
    decreases s.len(),
{
    if s.len() == 0 || is_whitespace(s[0]) {
        0
    } else {
        1 + run_len(s.drop_first())
    }
}

/// The words of a line, in the order in which they stand in it: leading
/// whitespace is dropped, the longest whitespace-free stretch that follows is
/// a word, and so on for what comes after it.
pub open spec fn words(s: Seq<char>) -> Seq<Seq<char>>
    decreases s.len(),
    via words_terminates
{
    if s.len() == 0 {
        Seq::empty()
    } else if is_whitespace(s[0]) {
        words(s.drop_first())
    } else {
        seq![s.take(run_len(s) as int)] + words(s.skip(run_len(s) as int))
    }
}

#[via_fn]
proof fn words_terminates(s: Seq<char>) {
    if s.len() > 0 && !is_whitespace(s[0]) {
        lemma_run_len_bounds(s);
    }
}

/// The run stops inside the sequence, at its end or before a whitespace
/// character, and holds no whitespace.
pub proof fn lemma_run_len_bounds(s: Seq<char>)
    ensures
        run_len(s) <= s.len(),
        s.len() > 0 && !is_whitespace(s[0]) ==> run_len(s) >= 1,
        forall|k: int| 0 <= k < run_len(s) ==> !is_whitespace(#[trigger] s[k]),
        run_len(s) < s.len() ==> is_whitespace(s[run_len(s) as int]),
    decreases s.len(),
{
    if s.len() == 0 || is_whitespace(s[0]) {
    } else {
        let t = s.drop_first();
        lemma_run_len_bounds(t);
        assert forall|k: int| 0 <= k < run_len(s) implies !is_whitespace(#[trigger] s[k]) by {
            if k > 0 {
                assert(s[k] == t[k - 1]);
            }
        }
        if run_len(s) < s.len() {
            assert(s[run_len(s) as int] == t[run_len(t) as int]);
        }
    }
}

/// A whitespace-free stretch of length `n` at the front of `s`, which ends
/// `s` or is followed by whitespace, is the run at the front of `s`.
pub proof fn lemma_run_len_is(s: Seq<char>, n: int)
    requires
        0 <= n <= s.len(),
        forall|k: int| 0 <= k < n ==> !is_whitespace(#[trigger] s[k]),
        n < s.len() ==> is_whitespace(s[n]),
    ensures
        run_len(s) == n,
    decreases n,
{
    if n > 0 {
        let t = s.drop_first();
        assert forall|k: int| 0 <= k < n - 1 implies !is_whitespace(#[trigger] t[k]) by {
            assert(t[k] == s[k + 1]);
        }
        lemma_run_len_is(t, n - 1);
    }
}

/// Every element of `words(s)` is a word.
pub proof fn lemma_words_are_words(s: Seq<char>)
    ensures
        forall|k: int| 0 <= k < words(s).len() ==> is_word(#[trigger] words(s)[k]),
    decreases s.len(),
{
    if s.len() == 0 {
        assert(words(s).len() == 0);
    } else if is_whitespace(s[0]) {
        lemma_words_are_words(s.drop_first());
        assert(words(s) == words(s.drop_first()));
    } else {
        lemma_run_len_bounds(s);
        let n = run_len(s) as int;
        lemma_words_are_words(s.skip(n));
        assert(words(s) == seq![s.take(n)] + words(s.skip(n)));
        assert forall|k: int| 0 <= k < words(s).len() implies is_word(#[trigger] words(s)[k]) by {
            if k > 0 {
                assert(words(s)[k] == words(s.skip(n))[k - 1]);
            } else {
                assert(words(s)[0] == s.take(n));
                assert forall|i: int| 0 <= i < n implies !is_whitespace(
                    #[trigger] s.take(n)[i],
                ) by {
                    assert(s.take(n)[i] == s[i]);
                }
            }
        }
    }
}

/// A line holds no more words than characters.
pub proof fn lemma_words_len(s: Seq<char>)
    ensures
        words(s).len() <= s.len(),
    decreases s.len(),
{
    if s.len() == 0 {
        assert(words(s).len() == 0);
    } else if is_whitespace(s[0]) {
        lemma_words_len(s.drop_first());
        assert(words(s) == words(s.drop_first()));
    } else {
        lemma_run_len_bounds(s);
        let n = run_len(s) as int;
        lemma_words_len(s.skip(n));
        assert(words(s) == seq![s.take(n)] + words(s.skip(n)));
    }
}

/// `line[start..end]` is a word of `line`: a stretch without whitespace that
/// cannot be made longer, because on either side the line ends or a
/// whitespace character stands.
pub open spec fn is_word_span(line: Seq<char>, start: int, end: int) -> bool {
    &&& 0 <= start < end <= line.len()
    &&& forall|k: int| start <= k < end ==> !is_whitespace(#[trigger] line[k])
    &&& (start == 0 || is_whitespace(line[start - 1]))
    &&& (end == line.len() || is_whitespace(line[end]))
}

/// The spans `sp`, each moved `d` places to the right.
pub open spec fn shifted(sp: Seq<(int, int)>, d: int) -> Seq<(int, int)> {
    Seq::new(sp.len(), |k: int| (sp[k].0 + d, sp[k].1 + d))
}

/// Where the words of `s` stand in it: for each word, in order, the index
/// of its first character and the index after its last.
pub open spec fn word_spans(s: Seq<char>) -> Seq<(int, int)>
    decreases s.len(),
    via word_spans_terminates
{
    if s.len() == 0 {
        Seq::empty()
    } else if is_whitespace(s[0]) {
        shifted(word_spans(s.drop_first()), 1)
    } else {
        seq![(0int, run_len(s) as int)] + shifted(
            word_spans(s.skip(run_len(s) as int)),
            run_len(s) as int,
        )
    }
}

#[via_fn]
proof fn word_spans_terminates(s: Seq<char>) {
    if s.len() > 0 && !is_whitespace(s[0]) {
        lemma_run_len_bounds(s);
    }
}

/// The words of a line are exactly its maximal whitespace-free stretches,
/// from left to right: `word_spans` lists every such stretch once, in
/// ascending order, and `words` holds what stands in each.
pub proof fn lemma_words_are_maximal_runs(s: Seq<char>)
    ensures
        words(s).len() == word_spans(s).len(),
        forall|k: int|
            0 <= k < word_spans(s).len() ==> {
                let sp = #[trigger] word_spans(s)[k];
                is_word_span(s, sp.0, sp.1) && words(s)[k] == s.subrange(sp.0, sp.1)
            },
        forall|k: int, m: int|
            0 <= k < m < word_spans(s).len() ==> (#[trigger] word_spans(s)[k]).1 < (
            #[trigger] word_spans(s)[m]).0,
        forall|i: int, j: int|
            is_word_span(s, i, j) ==> exists|k: int|
                0 <= k < word_spans(s).len() && #[trigger] word_spans(s)[k] == (i, j),
    decreases s.len(),
{
    if s.len() == 0 {
    } else if is_whitespace(s[0]) {
        let t = s.drop_first();
        lemma_words_are_maximal_runs(t);
        let st = word_spans(t);
        let sp = word_spans(s);
        assert(sp == shifted(st, 1));
        assert(words(s) == words(t));
        assert forall|k: int| 0 <= k < sp.len() implies {
            let x = #[trigger] sp[k];
            is_word_span(s, x.0, x.1) && words(s)[k] == s.subrange(x.0, x.1)
        } by {
            let y = st[k];
            assert(is_word_span(t, y.0, y.1));
            assert forall|q: int| y.0 + 1 <= q < y.1 + 1 implies !is_whitespace(
                #[trigger] s[q],
            ) by {
                assert(s[q] == t[q - 1]);
            }
            if y.0 > 0 {
                assert(t[y.0 - 1] == s[y.0]);
            }
            if y.1 < t.len() {
                assert(t[y.1] == s[y.1 + 1]);
            }
            assert(t.subrange(y.0, y.1) =~= s.subrange(y.0 + 1, y.1 + 1));
        }
        assert forall|k: int, m: int| 0 <= k < m < sp.len() implies (#[trigger] sp[k]).1 < (
        #[trigger] sp[m]).0 by {
            assert(st[k].1 < st[m].0);
        }
        assert forall|i: int, j: int| is_word_span(s, i, j) implies exists|k: int|
            0 <= k < sp.len() && #[trigger] sp[k] == (i, j) by {
            assert(!is_whitespace(s[i]));
            assert forall|q: int| i - 1 <= q < j - 1 implies !is_whitespace(#[trigger] t[q]) by {
                assert(t[q] == s[q + 1]);
            }
            if i - 1 > 0 {
                assert(t[i - 2] == s[i - 1]);
            }
            if j - 1 < t.len() {
                assert(t[j - 1] == s[j]);
            }
            assert(is_word_span(t, i - 1, j - 1));
            let k = choose|k: int| 0 <= k < st.len() && #[trigger] st[k] == (i - 1, j - 1);
            assert(sp[k] == (i, j));
        }
    } else {
        lemma_run_len_bounds(s);
        let n = run_len(s) as int;
        let t = s.skip(n);
        lemma_words_are_maximal_runs(t);
        let st = word_spans(t);
        let sp = word_spans(s);
        assert(sp == seq![(0int, n)] + shifted(st, n));
        assert(words(s) == seq![s.take(n)] + words(t));
        assert forall|k: int| 0 <= k < sp.len() implies {
            let x = #[trigger] sp[k];
            is_word_span(s, x.0, x.1) && words(s)[k] == s.subrange(x.0, x.1)
        } by {
            if k == 0 {
                assert(sp[0] == (0int, n));
                assert(s.take(n) =~= s.subrange(0, n));
            } else {
                let y = st[k - 1];
                assert(sp[k] == (y.0 + n, y.1 + n));
                assert(words(s)[k] == words(t)[k - 1]);
                assert(is_word_span(t, y.0, y.1));
                assert(!is_whitespace(t[y.0]));
                assert(t[0] == s[n]);
                assert forall|q: int| y.0 + n <= q < y.1 + n implies !is_whitespace(
                    #[trigger] s[q],
                ) by {
                    assert(s[q] == t[q - n]);
                }
                assert(t[y.0 - 1] == s[y.0 + n - 1]);
                if y.1 < t.len() {
                    assert(t[y.1] == s[y.1 + n]);
                }
                assert(t.subrange(y.0, y.1) =~= s.subrange(y.0 + n, y.1 + n));
            }
        }
        assert forall|k: int, m: int| 0 <= k < m < sp.len() implies (#[trigger] sp[k]).1 < (
        #[trigger] sp[m]).0 by {
            let y = st[m - 1];
            assert(sp[m] == (y.0 + n, y.1 + n));
            assert(is_word_span(t, y.0, y.1));
            assert(!is_whitespace(t[y.0]));
            assert(t[0] == s[n]);
            if k > 0 {
                assert(sp[k] == (st[k - 1].0 + n, st[k - 1].1 + n));
                assert(st[k - 1].1 < st[m - 1].0);
            }
        }
        assert forall|i: int, j: int| is_word_span(s, i, j) implies exists|k: int|
            0 <= k < sp.len() && #[trigger] sp[k] == (i, j) by {
            if i == 0 {
                if j > n {
                    assert(!is_whitespace(s[n]));
                }
                if j < n {
                    assert(!is_whitespace(s[j]));
                }
                assert(sp[0] == (i, j));
            } else {
                if i - 1 < n {
                    assert(!is_whitespace(s[i - 1]));
                }
                assert forall|q: int| i - n <= q < j - n implies !is_whitespace(
                    #[trigger] t[q],
                ) by {
                    assert(t[q] == s[q + n]);
                }
                assert(t[i - n - 1] == s[i - 1]);
                if j - n < t.len() {
                    assert(t[j - n] == s[j]);
                }
                assert(is_word_span(t, i - n, j - n));
                let k = choose|k: int| 0 <= k < st.len() && #[trigger] st[k] == (i - n, j - n);
                assert(sp[k + 1] == (i, j));
            }
        }
    }
}

/// The views of a list of strings.
pub open spec fn texts(v: Seq<String>) -> Seq<Seq<char>> {
    Seq::new(v.len(), |i: int| v[i]@)
}

/// Splits `line` into its words.
pub fn split_words(line: &str) -> (out: Vec<String>)
    ensures
        texts(out@) == words(line@),
{
    let mut out: Vec<String> = Vec::new();
    let mut cur = String::new();
    let ghost mut start: int = 0;
    proof {
        assert(line@.skip(0) == line@);
        assert(texts(out@) + words(line@) == words(line@));
    }
    for c in it: line.chars()
        invariant
            it.seq() == line@,
            0 <= start <= it.index(),
            cur@ == line@.subrange(start, it.index()),
            forall|k: int| start <= k < it.index() ==> !is_whitespace(#[trigger] line@[k]),
            words(line@) == texts(out@) + words(line@.skip(start)),
    {
        let ghost i = it.index();
        if is_whitespace_char(c) {
            if !cur.as_str().is_empty() {
                proof {
                    lemma_word_then_rest(line@.skip(start), i - start);
                    assert(line@.skip(start).take(i - start) == cur@);
                    assert(line@.skip(start).skip(i - start) == line@.skip(i));
                    assert(texts(out@.push(cur)) == texts(out@) + seq![cur@]);
                }
                out.push(cur);
                cur = String::new();
            }
            proof {
                assert(line@.skip(i).drop_first() == line@.skip(i + 1));
                start = i + 1;
            }
        } else {
            cur.push(c);
        }
    }
    if !cur.as_str().is_empty() {
        proof {
            let n = line@.len() as int;
            lemma_word_then_rest(line@.skip(start), n - start);
            assert(line@.skip(start).take(n - start) == cur@);
            assert(line@.skip(start).skip(n - start) == line@.skip(n));
            assert(texts(out@.push(cur)) == texts(out@) + seq![cur@]);
        }
        out.push(cur);
    }
    out
}

/// Where `s` opens with a whitespace-free stretch of length `n > 0`, which
/// ends `s` or is followed by whitespace, that stretch is the first word.
pub proof fn lemma_word_then_rest(s: Seq<char>, n: int)
    requires
        0 < n <= s.len(),
        forall|k: int| 0 <= k < n ==> !is_whitespace(#[trigger] s[k]),
        n < s.len() ==> is_whitespace(s[n]),
    ensures
        words(s) == seq![s.take(n)] + words(s.skip(n)),
{
    lemma_run_len_is(s, n);
}

} // verus!
