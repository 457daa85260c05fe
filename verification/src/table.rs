//! The frequency table: words in ascending order, each with its count.

use crate::order::{
    compare, lemma_lex_lt_irreflexive, lemma_lex_lt_total, lemma_lex_lt_transitive, lex_lt, Rank,
};
use crate::words::{is_word, texts};
use vstd::multiset::Multiset;
use vstd::prelude::*;

verus! {

/// A table written out: pairs of a word and its count.
pub type Listing = Seq<(Seq<char>, nat)>;

struct Entry {
    word: String,
    count: usize,
}

/// An ordered mapping from words to the number of times each was seen.
///
/// Its view is the multiset of the words counted so far. Its listing holds
/// each distinct word once, together with its count, in strictly ascending
/// order.
pub struct FrequencyTable {
    entries: Vec<Entry>,
}

spec fn listing_of(entries: Seq<Entry>) -> Listing {
    Seq::new(entries.len(), |i: int| (entries[i].word@, entries[i].count as nat))
}

impl View for FrequencyTable {
    type V = Multiset<Seq<char>>;

    open spec fn view(&self) -> Multiset<Seq<char>> {
        tally(self.listing())
    }
}

/// The multiset that holds `w` exactly `n` times and nothing else.
pub open spec fn copies(w: Seq<char>, n: nat) -> Multiset<Seq<char>>
    decreases n,
{
    if n == 0 {
        Multiset::empty()
    } else {
        copies(w, (n - 1) as nat).insert(w)
    }
}

/// The multiset of words that a listing stands for: each word as often as
/// its count says.
pub open spec fn tally(l: Listing) -> Multiset<Seq<char>>
    decreases l.len(),
{
    if l.len() == 0 {
        Multiset::empty()
    } else {
        tally(l.drop_last()).add(copies(l.last().0, l.last().1))
    }
}

/// The words of a listing, in its order.
pub open spec fn keys_of(l: Listing) -> Seq<Seq<char>> {
    Seq::new(l.len(), |i: int| l[i].0)
}

/// The words of the listing stand in strictly ascending order.
pub open spec fn ascending(l: Listing) -> bool {
    forall|i: int, j: int| 0 <= i < j < l.len() ==> lex_lt((#[trigger] l[i]).0, (#[trigger] l[j]).0)
}

/// A listing as a table holds it: strictly ascending, every key a word, and
/// every count at least one.
pub open spec fn well_formed(l: Listing) -> bool {
    &&& ascending(l)
    &&& forall|i: int| 0 <= i < l.len() ==> is_word((#[trigger] l[i]).0) && l[i].1 >= 1
}

/// `n` copies of `w` hold `w` exactly `n` times, and no other word.
pub proof fn lemma_copies_count(w: Seq<char>, n: nat, x: Seq<char>)
    ensures
        copies(w, n).count(x) == if x == w {
            n
        } else {
            0
        },
    decreases n,
{
    if n > 0 {
        lemma_copies_count(w, (n - 1) as nat, x);
    }
}

/// A word that is no key of the listing is not in its tally.
pub proof fn lemma_tally_absent(l: Listing, x: Seq<char>)
    requires
        forall|i: int| 0 <= i < l.len() ==> (#[trigger] l[i]).0 != x,
    ensures
        tally(l).count(x) == 0,
    decreases l.len(),
{
    if l.len() > 0 {
        let init = l.drop_last();
        assert forall|i: int| 0 <= i < init.len() implies (#[trigger] init[i]).0 != x by {
            assert(init[i] == l[i]);
        }
        lemma_tally_absent(init, x);
        lemma_copies_count(l.last().0, l.last().1, x);
    }
}

/// In an ascending listing, the tally holds each key as often as its entry
/// says.
pub proof fn lemma_tally_at(l: Listing, i: int)
    requires
        ascending(l),
        0 <= i < l.len(),
    ensures
        tally(l).count(l[i].0) == l[i].1,
    decreases l.len(),
{
    let init = l.drop_last();
    let last = l.last();
    lemma_copies_count(last.0, last.1, l[i].0);
    lemma_lex_lt_irreflexive(last.0);
    if i == l.len() - 1 {
        assert forall|j: int| 0 <= j < init.len() implies (#[trigger] init[j]).0 != last.0 by {
            assert(init[j] == l[j]);
            assert(lex_lt(l[j].0, l[l.len() - 1].0));
        }
        lemma_tally_absent(init, last.0);
    } else {
        assert forall|p: int, q: int| 0 <= p < q < init.len() implies lex_lt(
            (#[trigger] init[p]).0,
            (#[trigger] init[q]).0,
        ) by {
            assert(init[p] == l[p] && init[q] == l[q]);
        }
        assert(init[i] == l[i]);
        lemma_tally_at(init, i);
        assert(lex_lt(l[i].0, l[l.len() - 1].0));
    }
}

/// A word of the tally is a key of the listing.
pub proof fn lemma_tally_present(l: Listing, x: Seq<char>)
    requires
        tally(l).count(x) > 0,
    ensures
        exists|i: int| 0 <= i < l.len() && (#[trigger] l[i]).0 == x,
{
    if !(exists|i: int| 0 <= i < l.len() && (#[trigger] l[i]).0 == x) {
        lemma_tally_absent(l, x);
    }
}

/// The keys of an ascending listing differ from each other.
pub proof fn lemma_keys_distinct(l: Listing, i: int, j: int)
    requires
        ascending(l),
        0 <= i < l.len(),
        0 <= j < l.len(),
        i != j,
    ensures
        l[i].0 != l[j].0,
{
    lemma_lex_lt_irreflexive(l[i].0);
    if i < j {
        assert(lex_lt(l[i].0, l[j].0));
    } else {
        assert(lex_lt(l[j].0, l[i].0));
    }
}

/// A well-formed listing without its last entry is well formed.
pub proof fn lemma_drop_last_well_formed(l: Listing)
    requires
        well_formed(l),
        l.len() > 0,
    ensures
        well_formed(l.drop_last()),
{
    let init = l.drop_last();
    assert forall|p: int, q: int| 0 <= p < q < init.len() implies lex_lt(
        (#[trigger] init[p]).0,
        (#[trigger] init[q]).0,
    ) by {
        assert(init[p] == l[p] && init[q] == l[q]);
    }
    assert forall|i: int| 0 <= i < init.len() implies is_word((#[trigger] init[i]).0) && init[i].1
        >= 1 by {
        assert(init[i] == l[i]);
    }
}

/// Raising the count of the entry at `i` by one adds one occurrence of its
/// word to the tally.
pub proof fn lemma_tally_bump(l: Listing, i: int)
    requires
        well_formed(l),
        0 <= i < l.len(),
    ensures
        well_formed(l.update(i, (l[i].0, l[i].1 + 1))),
        tally(l.update(i, (l[i].0, l[i].1 + 1))) == tally(l).insert(l[i].0),
{
    let w = l[i].0;
    let l2 = l.update(i, (w, l[i].1 + 1));
    assert forall|p: int, q: int| 0 <= p < q < l2.len() implies lex_lt(
        (#[trigger] l2[p]).0,
        (#[trigger] l2[q]).0,
    ) by {
        assert(l2[p].0 == l[p].0 && l2[q].0 == l[q].0);
    }
    assert forall|j: int| 0 <= j < l2.len() implies is_word((#[trigger] l2[j]).0) && l2[j].1
        >= 1 by {
        assert(l2[j].0 == l[j].0 && l2[j].1 >= l[j].1);
    }
    assert forall|x: Seq<char>| tally(l2).count(x) == tally(l).insert(w).count(x) by {
        if exists|j: int| 0 <= j < l.len() && (#[trigger] l[j]).0 == x {
            let j = choose|j: int| 0 <= j < l.len() && (#[trigger] l[j]).0 == x;
            assert(l2[j].0 == l[j].0);
            lemma_tally_at(l, j);
            lemma_tally_at(l2, j);
            if j != i {
                lemma_keys_distinct(l, i, j);
            }
        } else {
            lemma_tally_absent(l, x);
            assert forall|j: int| 0 <= j < l2.len() implies (#[trigger] l2[j]).0 != x by {
                assert(l2[j].0 == l[j].0);
            }
            lemma_tally_absent(l2, x);
            assert(l[i].0 != x);
        }
    }
    assert(tally(l2) =~= tally(l).insert(w));
}

/// Putting a new word with count one at its place in the order adds one
/// occurrence of it to the tally.
pub proof fn lemma_tally_insert(l: Listing, p: int, w: Seq<char>)
    requires
        well_formed(l),
        is_word(w),
        0 <= p <= l.len(),
        forall|j: int| 0 <= j < p ==> lex_lt((#[trigger] l[j]).0, w),
        forall|j: int| p <= j < l.len() ==> lex_lt(w, (#[trigger] l[j]).0),
    ensures
        well_formed(l.insert(p, (w, 1))),
        tally(l.insert(p, (w, 1))) == tally(l).insert(w),
{
    let l2 = l.insert(p, (w, 1nat));
    lemma_lex_lt_irreflexive(w);
    assert forall|a: int, b: int| 0 <= a < b < l2.len() implies lex_lt(
        (#[trigger] l2[a]).0,
        (#[trigger] l2[b]).0,
    ) by {
        if b < p {
            assert(l2[a] == l[a] && l2[b] == l[b]);
        } else if b == p {
            assert(l2[a] == l[a]);
        } else if a < p {
            assert(l2[a] == l[a] && l2[b] == l[b - 1]);
            lemma_lex_lt_transitive(l[a].0, w, l[b - 1].0);
        } else if a == p {
            assert(l2[b] == l[b - 1]);
        } else {
            assert(l2[a] == l[a - 1] && l2[b] == l[b - 1]);
        }
    }
    assert forall|j: int| 0 <= j < l2.len() implies is_word((#[trigger] l2[j]).0) && l2[j].1
        >= 1 by {
        if j < p {
            assert(l2[j] == l[j]);
        } else if j > p {
            assert(l2[j] == l[j - 1]);
        }
    }
    assert forall|x: Seq<char>| tally(l2).count(x) == tally(l).insert(w).count(x) by {
        if x == w {
            assert forall|j: int| 0 <= j < l.len() implies (#[trigger] l[j]).0 != x by {
                if j < p {
                    assert(lex_lt(l[j].0, w));
                } else {
                    assert(lex_lt(w, l[j].0));
                }
            }
            lemma_tally_absent(l, x);
            lemma_tally_at(l2, p);
        } else if exists|j: int| 0 <= j < l.len() && (#[trigger] l[j]).0 == x {
            let j = choose|j: int| 0 <= j < l.len() && (#[trigger] l[j]).0 == x;
            lemma_tally_at(l, j);
            if j < p {
                assert(l2[j] == l[j]);
                lemma_tally_at(l2, j);
            } else {
                assert(l2[j + 1] == l[j]);
                lemma_tally_at(l2, j + 1);
            }
        } else {
            lemma_tally_absent(l, x);
            assert forall|j: int| 0 <= j < l2.len() implies (#[trigger] l2[j]).0 != x by {
                if j < p {
                    assert(l2[j] == l[j]);
                } else if j > p {
                    assert(l2[j] == l[j - 1]);
                }
            }
            lemma_tally_absent(l2, x);
        }
    }
    assert(tally(l2) =~= tally(l).insert(w));
}

/// A multiset of words has at most one well-formed listing: two tables that
/// hold the same words with the same counts list the same entries in the
/// same order.
pub proof fn lemma_listing_unique(a: Listing, b: Listing)
    requires
        well_formed(a),
        well_formed(b),
        tally(a) == tally(b),
    ensures
        a == b,
    decreases a.len(),
{
    if a.len() == 0 {
        if b.len() > 0 {
            lemma_tally_at(b, 0);
        }
        assert(a =~= b);
    } else if b.len() == 0 {
        lemma_tally_at(a, 0);
    } else {
        let la = a.last();
        let lb = b.last();
        let ia = a.drop_last();
        let ib = b.drop_last();
        lemma_tally_at(a, a.len() - 1);
        lemma_tally_at(b, b.len() - 1);
        lemma_tally_present(b, la.0);
        lemma_tally_present(a, lb.0);
        let j = choose|j: int| 0 <= j < b.len() && (#[trigger] b[j]).0 == la.0;
        let k = choose|k: int| 0 <= k < a.len() && (#[trigger] a[k]).0 == lb.0;
        if j < b.len() - 1 {
            assert(lex_lt(b[j].0, b[b.len() - 1].0));
            if k < a.len() - 1 {
                assert(lex_lt(a[k].0, a[a.len() - 1].0));
                lemma_lex_lt_transitive(la.0, lb.0, la.0);
                lemma_lex_lt_irreflexive(la.0);
            }
        }
        assert(la.0 == lb.0);
        assert(la == lb);
        assert forall|x: Seq<char>| tally(ia).count(x) == tally(ib).count(x) by {
            assert(tally(a).count(x) == tally(ia).count(x) + copies(la.0, la.1).count(x));
            assert(tally(b).count(x) == tally(ib).count(x) + copies(lb.0, lb.1).count(x));
        }
        assert(tally(ia) =~= tally(ib));
        lemma_drop_last_well_formed(a);
        lemma_drop_last_well_formed(b);
        lemma_listing_unique(ia, ib);
        assert(a =~= ia.push(la));
        assert(b =~= ib.push(lb));
    }
}

/// `n` copies make a multiset of size `n`.
pub proof fn lemma_copies_len(w: Seq<char>, n: nat)
    ensures
        copies(w, n).len() == n,
    decreases n,
{
    if n > 0 {
        lemma_copies_len(w, (n - 1) as nat);
    }
}

/// The tally of the first `k` entries is no larger than the tally of all,
/// and the entry at `k` adds its count to it.
pub proof fn lemma_tally_len_prefix(l: Listing, k: int)
    requires
        0 <= k <= l.len(),
    ensures
        tally(l.take(k)).len() <= tally(l).len(),
        k < l.len() ==> tally(l.take(k + 1)).len() == tally(l.take(k)).len() + l[k].1,
    decreases l.len() - k,
{
    if k < l.len() {
        assert(l.take(k + 1).drop_last() =~= l.take(k));
        lemma_copies_len(l[k].0, l[k].1);
        lemma_tally_len_prefix(l, k + 1);
    } else {
        assert(l.take(k) =~= l);
    }
}

/// A well-formed listing has one entry for each distinct word of its tally.
pub proof fn lemma_listing_len(l: Listing)
    requires
        well_formed(l),
    ensures
        tally(l).dom().finite(),
        tally(l).dom().len() == l.len(),
    decreases l.len(),
{
    if l.len() == 0 {
        assert(tally(l).dom() =~= Set::<Seq<char>>::empty());
    } else {
        let init = l.drop_last();
        let last = l.last();
        lemma_drop_last_well_formed(l);
        lemma_listing_len(init);
        assert forall|j: int| 0 <= j < init.len() implies (#[trigger] init[j]).0 != last.0 by {
            assert(init[j] == l[j]);
            lemma_keys_distinct(l, j, l.len() - 1);
        }
        lemma_tally_absent(init, last.0);
        assert forall|x: Seq<char>|
            tally(l).dom().contains(x) <==> tally(init).dom().insert(last.0).contains(x) by {
            lemma_copies_count(last.0, last.1, x);
        }
        assert(tally(l).dom() =~= tally(init).dom().insert(last.0));
    }
}

/// A word that is no key of an ascending listing has a place in it: after
/// all keys that come before it and before all keys that come after it.
pub proof fn lemma_insertion_point(l: Listing, w: Seq<char>) -> (p: int)
    requires
        ascending(l),
        forall|i: int| 0 <= i < l.len() ==> (#[trigger] l[i]).0 != w,
    ensures
        0 <= p <= l.len(),
        forall|j: int| 0 <= j < p ==> lex_lt((#[trigger] l[j]).0, w),
        forall|j: int| p <= j < l.len() ==> lex_lt(w, (#[trigger] l[j]).0),
    decreases l.len(),
{
    if l.len() == 0 {
        0
    } else {
        let n = l.len() - 1;
        let last = l[n];
        lemma_lex_lt_total(last.0, w);
        if lex_lt(last.0, w) {
            assert forall|j: int| 0 <= j < l.len() implies lex_lt((#[trigger] l[j]).0, w) by {
                if j < n {
                    assert(lex_lt(l[j].0, l[n].0));
                    lemma_lex_lt_transitive(l[j].0, last.0, w);
                }
            }
            l.len() as int
        } else {
            let init = l.drop_last();
            assert forall|a: int, b: int| 0 <= a < b < init.len() implies lex_lt(
                (#[trigger] init[a]).0,
                (#[trigger] init[b]).0,
            ) by {
                assert(init[a] == l[a] && init[b] == l[b]);
            }
            assert forall|i: int| 0 <= i < init.len() implies (#[trigger] init[i]).0 != w by {
                assert(init[i] == l[i]);
            }
            let p = lemma_insertion_point(init, w);
            assert forall|j: int| 0 <= j < p implies lex_lt((#[trigger] l[j]).0, w) by {
                assert(init[j] == l[j]);
            }
            assert forall|j: int| p <= j < l.len() implies lex_lt(w, (#[trigger] l[j]).0) by {
                if j < n {
                    assert(init[j] == l[j]);
                }
            }
            p
        }
    }
}

/// Every sequence of words has a well-formed listing.
pub proof fn lemma_listing_exists(s: Seq<Seq<char>>) -> (l: Listing)
    requires
        forall|k: int| 0 <= k < s.len() ==> is_word(#[trigger] s[k]),
    ensures
        well_formed(l),
        tally(l) == s.to_multiset(),
    decreases s.len(),
{
    broadcast use vstd::seq_lib::group_to_multiset_ensures;

    if s.len() == 0 {
        let l: Listing = Seq::empty();
        assert(s.to_multiset().len() == 0);
        assert(tally(l) =~= s.to_multiset());
        l
    } else {
        let init = s.drop_last();
        let w = s.last();
        assert forall|k: int| 0 <= k < init.len() implies is_word(#[trigger] init[k]) by {
            assert(init[k] == s[k]);
        }
        let l0 = lemma_listing_exists(init);
        assert(s =~= init.push(w));
        if exists|i: int| 0 <= i < l0.len() && (#[trigger] l0[i]).0 == w {
            let i = choose|i: int| 0 <= i < l0.len() && (#[trigger] l0[i]).0 == w;
            lemma_tally_bump(l0, i);
            l0.update(i, (w, l0[i].1 + 1))
        } else {
            let p = lemma_insertion_point(l0, w);
            lemma_tally_insert(l0, p, w);
            l0.insert(p, (w, 1))
        }
    }
}

/// The well-formed listing of a multiset of words. By
/// `lemma_listing_unique` there is at most one.
pub open spec fn sorted_listing(bag: Multiset<Seq<char>>) -> Listing {
    choose|l: Listing| well_formed(l) && tally(l) == bag
}

/// A well-formed listing is the sorted listing of its tally.
pub proof fn lemma_sorted_listing_is(l: Listing)
    requires
        well_formed(l),
    ensures
        sorted_listing(tally(l)) == l,
{
    let c = sorted_listing(tally(l));
    assert(well_formed(c) && tally(c) == tally(l));
    lemma_listing_unique(c, l);
}

/// The sorted listing of a sequence of words is well formed and holds each
/// word as often as the sequence does.
pub proof fn lemma_sorted_listing_of_words(s: Seq<Seq<char>>)
    requires
        forall|k: int| 0 <= k < s.len() ==> is_word(#[trigger] s[k]),
    ensures
        well_formed(sorted_listing(s.to_multiset())),
        tally(sorted_listing(s.to_multiset())) == s.to_multiset(),
{
    let l = lemma_listing_exists(s);
    lemma_sorted_listing_is(l);
}

impl FrequencyTable {
    /// The entries of the table, in the order in which it holds them.
    pub closed spec fn listing(&self) -> Listing {
        listing_of(self.entries@)
    }

    /// What holds of every table: its listing is well formed, and every
    /// count fits in a `usize`.
    #[verifier::type_invariant]
    pub open spec fn wf(&self) -> bool {
        &&& well_formed(self.listing())
        &&& forall|w: Seq<char>| #[trigger] self@.count(w) <= usize::MAX
    }

    /// An empty table.
    pub fn new() -> (t: FrequencyTable)
        ensures
            t.listing() == Seq::<(Seq<char>, nat)>::empty(),
            t@ == Multiset::<Seq<char>>::empty(),
    {
        let t = FrequencyTable { entries: Vec::new() };
        assert(t.listing() =~= Seq::<(Seq<char>, nat)>::empty());
        t
    }

    /// The number of distinct words.
    pub fn len(&self) -> (n: usize)
        ensures
            n == self.listing().len(),
            n == self@.dom().len(),
            well_formed(self.listing()),
    {
        proof {
            use_type_invariant(self);
            lemma_listing_len(self.listing());
        }
        self.entries.len()
    }

    /// Whether no word was counted.
    pub fn is_empty(&self) -> (b: bool)
        ensures
            b == (self.listing().len() == 0),
            b == (self@ == Multiset::<Seq<char>>::empty()),
    {
        proof {
            use_type_invariant(self);
            if self.listing().len() > 0 {
                lemma_tally_at(self.listing(), 0);
            }
        }
        self.entries.len() == 0
    }

    /// The number of words counted, each as often as it was seen, if that
    /// number fits in a `usize`.
    pub fn total(&self) -> (r: Option<usize>)
        ensures
            match r {
                Some(n) => self@.len() == n,
                None => self@.len() > usize::MAX,
            },
    {
        let ghost l = self.listing();
        let mut sum: usize = 0;
        let mut i: usize = 0;
        proof {
            assert(l.take(0) =~= Seq::<(Seq<char>, nat)>::empty());
        }
        while i < self.entries.len()
            invariant
                l == self.listing(),
                0 <= i <= self.entries@.len(),
                sum == tally(l.take(i as int)).len(),
            decreases self.entries@.len() - i,
        {
            let n = self.entries[i].count;
            proof {
                lemma_tally_len_prefix(l, i as int);
                lemma_tally_len_prefix(l, i + 1);
            }
            if n > usize::MAX - sum {
                return None;
            }
            sum = sum + n;
            i = i + 1;
        }
        proof {
            assert(l.take(i as int) =~= l);
        }
        Some(sum)
    }

    /// The entry at place `i` of the ascending order, if there is one.
    pub fn entry(&self, i: usize) -> (r: Option<(&str, usize)>)
        ensures
            well_formed(self.listing()),
            i >= self.listing().len() ==> r is None,
            i < self.listing().len() ==> (r matches Some(e) && e.0@ == self.listing()[i as int].0
                && e.1 == self.listing()[i as int].1),
    {
        proof {
            use_type_invariant(self);
        }
        if i < self.entries.len() {
            Some((self.entries[i].word.as_str(), self.entries[i].count))
        } else {
            None
        }
    }

    /// The distinct words, in strictly ascending order.
    pub fn keys(&self) -> (out: Vec<String>)
        ensures
            well_formed(self.listing()),
            texts(out@) == keys_of(self.listing()),
    {
        proof {
            use_type_invariant(self);
        }
        let mut out: Vec<String> = Vec::new();
        let mut i: usize = 0;
        while i < self.entries.len()
            invariant
                0 <= i <= self.entries@.len(),
                out@.len() == i,
                forall|k: int| 0 <= k < i ==> (#[trigger] out@[k])@ == self.entries@[k].word@,
            decreases self.entries@.len() - i,
        {
            out.push(self.entries[i].word.clone());
            i = i + 1;
        }
        assert(texts(out@) =~= keys_of(self.listing()));
        out
    }

    /// Finds the place of `word` in the order: the index of its entry and
    /// `true`, or the index at which its entry would have to stand and
    /// `false`.
    fn locate(&self, word: &str) -> (r: (usize, bool))
        ensures
            r.0 <= self.listing().len(),
            r.1 ==> r.0 < self.listing().len() && self.listing()[r.0 as int].0 == word@,
            !r.1 ==> forall|j: int|
                0 <= j < r.0 ==> lex_lt((#[trigger] self.listing()[j]).0, word@),
            !r.1 ==> forall|j: int|
                r.0 <= j < self.listing().len() ==> lex_lt(word@, (#[trigger] self.listing()[j]).0),
    {
        proof {
            use_type_invariant(self);
        }
        let ghost l = self.listing();
        let mut lo: usize = 0;
        let mut hi: usize = self.entries.len();
        while lo < hi
            invariant
                l == self.listing(),
                ascending(l),
                0 <= lo <= hi <= l.len(),
                hi <= self.entries@.len(),
                forall|j: int| 0 <= j < lo ==> lex_lt((#[trigger] l[j]).0, word@),
                forall|j: int| hi <= j < l.len() ==> lex_lt(word@, (#[trigger] l[j]).0),
            decreases hi - lo,
        {
            let mid: usize = lo + (hi - lo) / 2;
            let r = compare(self.entries[mid].word.as_str(), word);
            assert(l[mid as int].0 == self.entries@[mid as int].word@);
            match r {
                Rank::Same => {
                    return (mid, true);
                },
                Rank::Before => {
                    assert forall|j: int| 0 <= j < mid + 1 implies lex_lt(
                        (#[trigger] l[j]).0,
                        word@,
                    ) by {
                        if j < mid {
                            assert(lex_lt(l[j].0, l[mid as int].0));
                            lemma_lex_lt_transitive(l[j].0, l[mid as int].0, word@);
                        }
                    }
                    lo = mid + 1;
                },
                Rank::After => {
                    assert forall|j: int| mid <= j < l.len() implies lex_lt(
                        word@,
                        (#[trigger] l[j]).0,
                    ) by {
                        if j > mid {
                            assert(lex_lt(l[mid as int].0, l[j].0));
                            lemma_lex_lt_transitive(word@, l[mid as int].0, l[j].0);
                        }
                    }
                    hi = mid;
                },
            }
        }
        (lo, false)
    }

    /// The number of times `word` was counted, if it was counted at all.
    pub fn get(&self, word: &str) -> (r: Option<&usize>)
        ensures
            match r {
                Some(n) => *n >= 1 && self@.count(word@) == *n,
                None => self@.count(word@) == 0,
            },
    {
        proof {
            use_type_invariant(self);
        }
        let (i, found) = self.locate(word);
        if found {
            proof {
                lemma_tally_at(self.listing(), i as int);
            }
            Some(&self.entries[i].count)
        } else {
            proof {
                lemma_lex_lt_irreflexive(word@);
                lemma_tally_absent(self.listing(), word@);
            }
            None
        }
    }

    /// Counts one more occurrence of `word`.
    pub(crate) fn record(&mut self, word: String)
        requires
            is_word(word@),
            old(self)@.count(word@) < usize::MAX,
        ensures
            final(self)@ == old(self)@.insert(word@),
    {
        proof {
            use_type_invariant(&*self);
        }
        let ghost l = self.listing();
        let (i, found) = self.locate(word.as_str());
        // The entries are changed outside the table and put back as a whole.
        let mut entries: Vec<Entry> = Vec::new();
        core::mem::swap(&mut self.entries, &mut entries);
        if found {
            proof {
                lemma_tally_at(l, i as int);
                lemma_tally_bump(l, i as int);
            }
            let e = &mut entries[i];
            e.count = e.count + 1;
        } else {
            proof {
                lemma_tally_insert(l, i as int, word@);
            }
            entries.insert(i, Entry { word, count: 1 });
        }
        proof {
            if found {
                assert(listing_of(entries@) =~= l.update(
                    i as int,
                    (l[i as int].0, l[i as int].1 + 1),
                ));
            } else {
                assert(listing_of(entries@) =~= l.insert(i as int, (word@, 1)));
            }
            assert(tally(listing_of(entries@)) == tally(l).insert(word@));
            assert forall|w: Seq<char>| #[trigger]
                tally(listing_of(entries@)).count(w) <= usize::MAX by {
                assert(tally(l).count(w) <= usize::MAX);
            }
        }
        self.entries = entries;
    }
}

} // verus!
