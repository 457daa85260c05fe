//! What holds of every input: the order of the output, the counts in it,
//! and that it does not depend on how the lines are cut into batches.

use crate::counter::{
    all_words, folded, lemma_bag_counts_occurrences, lemma_word_bag_concat, occurrences, word_bag,
};
use crate::driver::{listing_of_lines, output};
use crate::order::lex_lt;
use crate::report::report;
use crate::table::{
    lemma_keys_distinct, lemma_listing_unique, lemma_sorted_listing_of_words, lemma_tally_at,
    lemma_tally_present, tally, well_formed, Listing,
};
use crate::words::{is_word, lemma_words_are_words, words};
use vstd::multiset::Multiset;
use vstd::prelude::*;

verus! {

/// Whatever `all_words` lists is a word.
pub proof fn lemma_all_words_are_words(lines: Seq<Seq<char>>)
    ensures
        forall|k: int| 0 <= k < all_words(lines).len() ==> is_word(#[trigger] all_words(lines)[k]),
    decreases lines.len(),
{
    if lines.len() > 0 {
        let before = all_words(lines.drop_last());
        let here = words(lines.last());
        lemma_all_words_are_words(lines.drop_last());
        lemma_words_are_words(lines.last());
        assert forall|k: int| 0 <= k < all_words(lines).len() implies is_word(
            #[trigger] all_words(lines)[k],
        ) by {
            if k < before.len() {
                assert(all_words(lines)[k] == before[k]);
            } else {
                assert(all_words(lines)[k] == here[k - before.len()]);
            }
        }
    }
}

/// The words of the output stand in strictly ascending order, so none of
/// them stands there twice; and there is one line for each of them.
pub proof fn lemma_output_ascending(lines: Seq<Seq<char>>)
    ensures
        well_formed(listing_of_lines(lines)),
        output(lines).len() == listing_of_lines(lines).len(),
        forall|i: int, j: int|
            0 <= i < j < listing_of_lines(lines).len() ==> lex_lt(
                (#[trigger] listing_of_lines(lines)[i]).0,
                (#[trigger] listing_of_lines(lines)[j]).0,
            ),
        forall|i: int, j: int|
            0 <= i < listing_of_lines(lines).len() && 0 <= j < listing_of_lines(lines).len() && i
                != j ==> (#[trigger] listing_of_lines(lines)[i]).0 != (#[trigger] listing_of_lines(
                lines,
            )[j]).0,
{
    lemma_all_words_are_words(lines);
    lemma_sorted_listing_of_words(all_words(lines));
    let l = listing_of_lines(lines);
    assert forall|i: int, j: int| 0 <= i < l.len() && 0 <= j < l.len() && i != j implies (
    #[trigger] l[i]).0 != (#[trigger] l[j]).0 by {
        lemma_keys_distinct(l, i, j);
    }
}

/// The output holds a word exactly if the word stands in the input, and
/// the count beside it is the number of times that it stands there.
pub proof fn lemma_output_counts(lines: Seq<Seq<char>>)
    ensures
        forall|i: int|
            0 <= i < listing_of_lines(lines).len() ==> (#[trigger] listing_of_lines(lines)[i]).1
                == occurrences(all_words(lines), listing_of_lines(lines)[i].0),
        forall|w: Seq<char>|
            occurrences(all_words(lines), w) > 0 <==> exists|i: int|
                0 <= i < listing_of_lines(lines).len() && (#[trigger] listing_of_lines(lines)[i]).0
                    == w,
{
    lemma_all_words_are_words(lines);
    lemma_sorted_listing_of_words(all_words(lines));
    let l = listing_of_lines(lines);
    let s = all_words(lines);
    assert forall|i: int| 0 <= i < l.len() implies (#[trigger] l[i]).1 == occurrences(
        s,
        l[i].0,
    ) by {
        lemma_tally_at(l, i);
        lemma_bag_counts_occurrences(s, l[i].0);
    }
    assert forall|w: Seq<char>| occurrences(s, w) > 0 <==> exists|i: int|
        0 <= i < l.len() && (#[trigger] l[i]).0 == w by {
        lemma_bag_counts_occurrences(s, w);
        if occurrences(s, w) > 0 {
            lemma_tally_present(l, w);
        }
        if exists|i: int| 0 <= i < l.len() && (#[trigger] l[i]).0 == w {
            let i = choose|i: int| 0 <= i < l.len() && (#[trigger] l[i]).0 == w;
            lemma_tally_at(l, i);
        }
    }
}

/// No lines, no output.
pub proof fn lemma_empty_input_empty_output()
    ensures
        output(Seq::<Seq<char>>::empty()) == Seq::<Seq<char>>::empty(),
{
    broadcast use vstd::seq_lib::group_to_multiset_ensures;

    let lines = Seq::<Seq<char>>::empty();
    let none: Listing = Seq::empty();
    lemma_all_words_are_words(lines);
    lemma_sorted_listing_of_words(all_words(lines));
    assert(word_bag(lines).len() == 0);
    assert(tally(none) =~= word_bag(lines));
    lemma_listing_unique(listing_of_lines(lines), none);
    assert(output(lines) =~= Seq::<Seq<char>>::empty());
}

/// Folding batch `a` and then batch `b` gives what folding the two as one
/// batch gives.
pub proof fn lemma_fold_twice(table: Multiset<Seq<char>>, a: Seq<Seq<char>>, b: Seq<Seq<char>>)
    ensures
        folded(folded(table, a), b) == folded(table, a + b),
{
    lemma_word_bag_concat(a, b);
    assert(table.add(word_bag(a)).add(word_bag(b)) =~= table.add(
        word_bag(a).add(word_bag(b)),
    ));
}

/// The order of the lines makes no difference to the table: folding `a`
/// before `b` gives what folding `b` before `a` gives.
pub proof fn lemma_line_order_irrelevant(
    table: Multiset<Seq<char>>,
    a: Seq<Seq<char>>,
    b: Seq<Seq<char>>,
)
    ensures
        folded(table, a + b) == folded(table, b + a),
{
    lemma_word_bag_concat(a, b);
    lemma_word_bag_concat(b, a);
    assert(word_bag(a).add(word_bag(b)) =~= word_bag(b).add(word_bag(a)));
}

/// The lines of all `batches`, batch after batch.
pub open spec fn joined(batches: Seq<Seq<Seq<char>>>) -> Seq<Seq<char>>
    decreases batches.len(),
{
    if batches.len() == 0 {
        Seq::empty()
    } else {
        joined(batches.drop_last()) + batches.last()
    }
}

/// The table after each of `batches` was folded into it, one after the
/// other.
pub open spec fn folded_each(
    table: Multiset<Seq<char>>,
    batches: Seq<Seq<Seq<char>>>,
) -> Multiset<Seq<char>>
    decreases batches.len(),
{
    if batches.len() == 0 {
        table
    } else {
        folded(folded_each(table, batches.drop_last()), batches.last())
    }
}

/// However the lines are cut into batches, of whatever sizes, folding the
/// batches one after the other gives what folding all lines as one batch
/// gives.
pub proof fn lemma_any_batches(table: Multiset<Seq<char>>, batches: Seq<Seq<Seq<char>>>)
    ensures
        folded_each(table, batches) == folded(table, joined(batches)),
    decreases batches.len(),
{
    broadcast use vstd::seq_lib::group_to_multiset_ensures;

    if batches.len() == 0 {
        assert(word_bag(joined(batches)).len() == 0);
        assert(folded(table, joined(batches)) =~= table);
    } else {
        lemma_any_batches(table, batches.drop_last());
        lemma_fold_twice(table, joined(batches.drop_last()), batches.last());
    }
}

/// The table after `lines` were folded into it in batches of at most
/// `batch_size` lines, the last of which may be shorter.
pub open spec fn folded_in_batches(
    table: Multiset<Seq<char>>,
    lines: Seq<Seq<char>>,
    batch_size: nat,
) -> Multiset<Seq<char>>
    decreases lines.len(),
{
    if lines.len() == 0 || batch_size == 0 {
        table
    } else if lines.len() <= batch_size {
        folded(table, lines)
    } else {
        folded_in_batches(
            folded(table, lines.take(batch_size as int)),
            lines.skip(batch_size as int),
            batch_size,
        )
    }
}

/// The size of the batches makes no difference to the table: folding in
/// batches gives what folding all lines at once gives.
pub proof fn lemma_batch_size_irrelevant(
    table: Multiset<Seq<char>>,
    lines: Seq<Seq<char>>,
    batch_size: nat,
)
    requires
        batch_size > 0,
    ensures
        folded_in_batches(table, lines, batch_size) == folded(table, lines),
    decreases lines.len(),
{
    broadcast use vstd::seq_lib::group_to_multiset_ensures;

    if lines.len() == 0 {
        assert(word_bag(lines).len() == 0);
        assert(folded(table, lines) =~= table);
    } else if lines.len() <= batch_size {
    } else {
        let head = lines.take(batch_size as int);
        let tail = lines.skip(batch_size as int);
        lemma_batch_size_irrelevant(folded(table, head), tail, batch_size);
        lemma_fold_twice(table, head, tail);
        assert(head + tail =~= lines);
    }
}

/// Two tables that came from the same lines, cut into batches of whatever
/// sizes, list the same entries in the same order.
pub proof fn lemma_batches_give_one_listing(
    table: Multiset<Seq<char>>,
    lines: Seq<Seq<char>>,
    m: nat,
    n: nat,
    a: Listing,
    b: Listing,
)
    requires
        m > 0,
        n > 0,
        well_formed(a),
        well_formed(b),
        tally(a) == folded_in_batches(table, lines, m),
        tally(b) == folded_in_batches(table, lines, n),
    ensures
        a == b,
        report(a) == report(b),
{
    lemma_batch_size_irrelevant(table, lines, m);
    lemma_batch_size_irrelevant(table, lines, n);
    lemma_listing_unique(a, b);
}

} // verus!
