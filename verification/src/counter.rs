//! Folding batches of lines into a frequency table.

use crate::table::FrequencyTable;
use crate::words::{is_word, lemma_words_are_words, lemma_words_len, split_words, texts, words};
use vstd::multiset::Multiset;
use vstd::prelude::*;
use vstd::seq_lib::lemma_multiset_commutative;
use vstd::string::StrSliceExecFns;

verus! {

/// The words of all `lines`, line after line.
pub open spec fn all_words(lines: Seq<Seq<char>>) -> Seq<Seq<char>>
    decreases lines.len(),
{
    if lines.len() == 0 {
        Seq::empty()
    } else {
        all_words(lines.drop_last()) + words(lines.last())
    }
}

/// The words of all `lines` as a multiset: each word as often as it stands
/// in them.
pub open spec fn word_bag(lines: Seq<Seq<char>>) -> Multiset<Seq<char>> {
    all_words(lines).to_multiset()
}

/// The table `table` with the words of `lines` folded into it.
pub open spec fn folded(table: Multiset<Seq<char>>, lines: Seq<Seq<char>>) -> Multiset<Seq<char>> {
    table.add(word_bag(lines))
}

/// Every count of `table` with `lines` folded into it fits in a `usize`.
pub open spec fn fits(table: Multiset<Seq<char>>, lines: Seq<Seq<char>>) -> bool {
    forall|w: Seq<char>| #[trigger] folded(table, lines).count(w) <= usize::MAX
}

/// How often `w` stands in `s`.
pub open spec fn occurrences(s: Seq<Seq<char>>, w: Seq<char>) -> nat
    decreases s.len(),
{
    if s.len() == 0 {
        0
    } else {
        occurrences(s.drop_last(), w) + if s.last() == w {
            1nat
        } else {
            0nat
        }
    }
}

/// The number of characters in all of `lines`.
pub open spec fn total_len(lines: Seq<Seq<char>>) -> nat
    decreases lines.len(),
{
    if lines.len() == 0 {
        0
    } else {
        total_len(lines.drop_last()) + lines.last().len()
    }
}

/// The multiset of a sequence of words holds each word as often as it
/// stands in the sequence.
pub proof fn lemma_bag_counts_occurrences(s: Seq<Seq<char>>, w: Seq<char>)
    ensures
        s.to_multiset().count(w) == occurrences(s, w),
    decreases s.len(),
{
    broadcast use vstd::seq_lib::group_to_multiset_ensures;

    if s.len() == 0 {
        assert(s.to_multiset().len() == 0);
    } else {
        lemma_bag_counts_occurrences(s.drop_last(), w);
        assert(s =~= s.drop_last().push(s.last()));
    }
}

/// The first `k` lines hold no more characters than all of them.
pub proof fn lemma_total_len_prefix(lines: Seq<Seq<char>>, k: int)
    requires
        0 <= k <= lines.len(),
    ensures
        total_len(lines.take(k)) <= total_len(lines),
        k < lines.len() ==> total_len(lines.take(k + 1)) == total_len(lines.take(k))
            + lines[k].len(),
    decreases lines.len() - k,
{
    if k < lines.len() {
        assert(lines.take(k + 1).drop_last() =~= lines.take(k));
        lemma_total_len_prefix(lines, k + 1);
    } else {
        assert(lines.take(k) =~= lines);
    }
}

/// Lines hold no more words than characters.
pub proof fn lemma_all_words_len(lines: Seq<Seq<char>>)
    ensures
        all_words(lines).len() <= total_len(lines),
    decreases lines.len(),
{
    if lines.len() > 0 {
        lemma_all_words_len(lines.drop_last());
        lemma_words_len(lines.last());
    }
}

/// Where the table and the lines together are short enough, every count
/// fits.
pub proof fn lemma_fits_if_short(table: Multiset<Seq<char>>, lines: Seq<Seq<char>>)
    requires
        table.len() + total_len(lines) <= usize::MAX,
    ensures
        fits(table, lines),
{
    broadcast use vstd::seq_lib::group_to_multiset_ensures;

    lemma_all_words_len(lines);
    assert(word_bag(lines).len() == all_words(lines).len());
    assert forall|w: Seq<char>| #[trigger] folded(table, lines).count(w) <= usize::MAX by {
        vstd::multiset::axiom_count_le_len(table, w);
        vstd::multiset::axiom_count_le_len(word_bag(lines), w);
    }
}

/// The words of two lists of lines, one after the other, are the words of
/// the first followed by the words of the second.
pub proof fn lemma_all_words_concat(a: Seq<Seq<char>>, b: Seq<Seq<char>>)
    ensures
        all_words(a + b) == all_words(a) + all_words(b),
    decreases b.len(),
{
    if b.len() == 0 {
        assert(a + b =~= a);
        assert(all_words(a) + all_words(b) =~= all_words(a));
    } else {
        lemma_all_words_concat(a, b.drop_last());
        assert((a + b).drop_last() =~= a + b.drop_last());
        assert((a + b).last() == b.last());
        assert(all_words(a + b) =~= all_words(a) + all_words(b));
    }
}

/// Counting two lists of lines one after the other counts what counting
/// them as one list counts.
pub proof fn lemma_word_bag_concat(a: Seq<Seq<char>>, b: Seq<Seq<char>>)
    ensures
        word_bag(a + b) == word_bag(a).add(word_bag(b)),
{
    lemma_all_words_concat(a, b);
    lemma_multiset_commutative(all_words(a), all_words(b));
}

/// The word at place `n` of `s` occurs in `s` at least once more often than
/// among the `n` words before it.
proof fn lemma_next_word_counted(s: Seq<Seq<char>>, n: int)
    requires
        0 <= n < s.len(),
    ensures
        s.take(n + 1).to_multiset() == s.take(n).to_multiset().insert(s[n]),
        s.to_multiset().count(s[n]) >= s.take(n).to_multiset().count(s[n]) + 1,
{
    broadcast use vstd::seq_lib::group_to_multiset_ensures;

    assert(s.take(n + 1) =~= s.take(n).push(s[n]));
    assert(s =~= s.take(n + 1) + s.skip(n + 1));
    lemma_multiset_commutative(s.take(n + 1), s.skip(n + 1));
}

/// The number of characters in all of `lines`, if it fits in a `usize`.
pub fn total_chars(lines: &[String]) -> (r: Option<usize>)
    ensures
        match r {
            Some(n) => total_len(texts(lines@)) == n,
            None => total_len(texts(lines@)) > usize::MAX,
        },
{
    let ghost all = texts(lines@);
    let mut total: usize = 0;
    let mut i: usize = 0;
    proof {
        assert(all.take(0) =~= Seq::<Seq<char>>::empty());
    }
    while i < lines.len()
        invariant
            all == texts(lines@),
            0 <= i <= lines@.len(),
            total == total_len(all.take(i as int)),
        decreases lines@.len() - i,
    {
        let n = lines[i].as_str().unicode_len();
        proof {
            lemma_total_len_prefix(all, i as int);
            lemma_total_len_prefix(all, i + 1);
        }
        if n > usize::MAX - total {
            return None;
        }
        total = total + n;
        i = i + 1;
    }
    proof {
        assert(all.take(i as int) =~= all);
    }
    Some(total)
}

/// Folds a batch of lines into the table: every word of every line of
/// `chunk` is counted once more in `word_counts`.
pub fn process_chunk(chunk: &[String], word_counts: &mut FrequencyTable)
    requires
        fits(old(word_counts)@, texts(chunk@)),
    ensures
        final(word_counts)@ == folded(old(word_counts)@, texts(chunk@)),
        final(word_counts).wf(),
{
    let ghost lines = texts(chunk@);
    let ghost before = word_counts@;
    let mut i: usize = 0;
    proof {
        broadcast use vstd::seq_lib::group_to_multiset_ensures;

        assert(lines.take(0) =~= Seq::<Seq<char>>::empty());
        assert(all_words(lines.take(0)).len() == 0);
        assert(before.add(word_bag(lines.take(0))) =~= before);
    }
    while i < chunk.len()
        invariant
            lines == texts(chunk@),
            0 <= i <= chunk.len(),
            word_counts@ == before.add(word_bag(lines.take(i as int))),
            fits(before, lines),
        decreases chunk.len() - i,
    {
        let found = split_words(chunk[i].as_str());
        let ghost line_words = words(lines[i as int]);
        let ghost prior = all_words(lines.take(i as int));
        proof {
            assert(lines.take(i + 1).drop_last() =~= lines.take(i as int));
            assert(all_words(lines.take(i + 1)) == prior + line_words);
            assert(lines =~= lines.take(i + 1) + lines.skip(i + 1));
            lemma_all_words_concat(lines.take(i + 1), lines.skip(i + 1));
            lemma_words_are_words(lines[i as int]);
            assert(prior + line_words.take(0) =~= prior);
        }
        for word in it: found
            invariant
                it.seq() == found@,
                texts(found@) == line_words,
                forall|k: int| 0 <= k < line_words.len() ==> is_word(#[trigger] line_words[k]),
                all_words(lines) == prior + line_words + all_words(lines.skip(i + 1)),
                word_counts@ == before.add((prior + line_words.take(it.index())).to_multiset()),
                fits(before, lines),
        {
            let ghost j = it.index();
            proof {
                let s = all_words(lines);
                let n = prior.len() + j;
                assert(word@ == line_words[j]);
                assert(s.take(n) =~= prior + line_words.take(j));
                assert(s.take(n + 1) =~= prior + line_words.take(j + 1));
                assert(s[n] == word@);
                lemma_next_word_counted(s, n);
                assert(folded(before, lines).count(word@) <= usize::MAX);
                assert(before.add(s.take(n).to_multiset()).insert(word@) =~= before.add(
                    s.take(n + 1).to_multiset(),
                ));
            }
            word_counts.record(word);
        }
        proof {
            assert(line_words.take(line_words.len() as int) =~= line_words);
        }
        i = i + 1;
    }
    proof {
        assert(lines.take(chunk.len() as int) =~= lines);
        use_type_invariant(&*word_counts);
    }
}

/// Folds a batch of lines into the table, as `process_chunk` does, where
/// the words that the table holds and the characters of the batch are
/// together so few that every count is sure to fit. Says whether it did;
/// where it did not, the table is as it was.
pub fn try_process_chunk(chunk: &[String], word_counts: &mut FrequencyTable) -> (done: bool)
    ensures
        done == (old(word_counts)@.len() + total_len(texts(chunk@)) <= usize::MAX),
        done ==> final(word_counts)@ == folded(old(word_counts)@, texts(chunk@)),
        !done ==> *final(word_counts) == *old(word_counts),
        final(word_counts).wf(),
{
    proof {
        use_type_invariant(&*word_counts);
    }
    let held = word_counts.total();
    let added = total_chars(chunk);
    match (held, added) {
        (Some(m), Some(n)) => {
            if n <= usize::MAX - m {
                proof {
                    lemma_fits_if_short(word_counts@, texts(chunk@));
                }
                process_chunk(chunk, word_counts);
                true
            } else {
                false
            }
        },
        _ => false,
    }
}

} // verus!
