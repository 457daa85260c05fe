//! The order in which words are listed.

use vstd::prelude::*;
use vstd::std_specs::iter::IteratorSpec;

verus! {

/// How two words stand to each other in the listing order.
#[derive(Clone, Copy, Debug, PartialEq, Eq, Structural)]
pub enum Rank {
    /// The first comes before the second.
    Before,
    /// The two are the same word.
    Same,
    /// The first comes after the second.
    After,
}

/// `a` and `b` agree on their first `k` characters.
pub open spec fn agree_upto(a: Seq<char>, b: Seq<char>, k: int) -> bool {
    &&& 0 <= k <= a.len()
    &&& k <= b.len()
    &&& forall|i: int| 0 <= i < k ==> a[i] == b[i]
}

/// Strict lexicographic order by code point: at the first place where the two
/// differ, `a` has ended or holds the smaller code point.
pub open spec fn lex_lt(a: Seq<char>, b: Seq<char>) -> bool {
    exists|k: int| #[trigger]
        agree_upto(a, b, k) && k < b.len() && (k == a.len() || (a[k] as u32) < (b[k] as u32))
}

/// How `a` stands to `b`: before it, after it, or in the same place. By
/// `lemma_lex_lt_total` and `lemma_lex_lt_asymmetric` exactly one of the
/// three holds, and the last only of a word and itself.
pub open spec fn rank_of(a: Seq<char>, b: Seq<char>) -> Rank {
    if lex_lt(a, b) {
        Rank::Before
    } else if lex_lt(b, a) {
        Rank::After
    } else {
        Rank::Same
    }
}

/// Compares two words by the code points of their characters.
pub fn compare(a: &str, b: &str) -> (r: Rank)
    ensures
        r == rank_of(a@, b@),
        r == Rank::Same <==> a@ == b@,
{
    let mut left = a.chars();
    let mut right = b.chars();
    let ghost mut i: int = 0;
    loop
        invariant
            agree_upto(a@, b@, i),
            left.remaining() == a@.skip(i),
            right.remaining() == b@.skip(i),
            left.obeys_prophetic_iter_laws(),
            right.obeys_prophetic_iter_laws(),
            left.decrease() is Some,
        decreases left.decrease()->0,
    {
        let x = left.next();
        let y = right.next();
        match (x, y) {
            (None, None) => {
                proof {
                    assert(a@ =~= b@);
                    lemma_lex_lt_irreflexive(a@);
                }
                return Rank::Same;
            },
            (None, Some(_)) => {
                proof {
                    assert(agree_upto(a@, b@, i));
                    lemma_lex_lt_asymmetric(a@, b@);
                    lemma_lex_lt_irreflexive(a@);
                }
                return Rank::Before;
            },
            (Some(_), None) => {
                proof {
                    assert(agree_upto(b@, a@, i));
                    lemma_lex_lt_asymmetric(b@, a@);
                    lemma_lex_lt_irreflexive(a@);
                }
                return Rank::After;
            },
            (Some(p), Some(q)) => {
                if p != q {
                    let m: u32 = p as u32;
                    let n: u32 = q as u32;
                    proof {
                        vstd::utf8::char_u32_cast(p, m);
                        vstd::utf8::char_u32_cast(q, n);
                        lemma_lex_lt_irreflexive(a@);
                    }
                    if m < n {
                        proof {
                            assert(agree_upto(a@, b@, i));
                            lemma_lex_lt_asymmetric(a@, b@);
                        }
                        return Rank::Before;
                    } else {
                        proof {
                            assert(agree_upto(b@, a@, i));
                            lemma_lex_lt_asymmetric(b@, a@);
                        }
                        return Rank::After;
                    }
                }
                proof {
                    i = i + 1;
                }
            },
        }
    }
}

/// No word comes before itself.
pub proof fn lemma_lex_lt_irreflexive(a: Seq<char>)
    ensures
        !lex_lt(a, a),
{
}

/// The order is transitive.
pub proof fn lemma_lex_lt_transitive(a: Seq<char>, b: Seq<char>, c: Seq<char>)
    requires
        lex_lt(a, b),
        lex_lt(b, c),
    ensures
        lex_lt(a, c),
{
    let j = choose|k: int| #[trigger]
        agree_upto(a, b, k) && k < b.len() && (k == a.len() || (a[k] as u32) < (b[k] as u32));
    let k = choose|k: int| #[trigger]
        agree_upto(b, c, k) && k < c.len() && (k == b.len() || (b[k] as u32) < (c[k] as u32));
    let m = if j <= k {
        j
    } else {
        k
    };
    assert(agree_upto(a, c, m));
}

/// Of two words, at most one comes before the other.
pub proof fn lemma_lex_lt_asymmetric(a: Seq<char>, b: Seq<char>)
    requires
        lex_lt(a, b),
    ensures
        !lex_lt(b, a),
{
    if lex_lt(b, a) {
        lemma_lex_lt_transitive(a, b, a);
        lemma_lex_lt_irreflexive(a);
    }
}

proof fn lemma_total_from(a: Seq<char>, b: Seq<char>, k: int)
    requires
        agree_upto(a, b, k),
    ensures
        a == b || lex_lt(a, b) || lex_lt(b, a),
    decreases a.len() - k,
{
    if k == a.len() {
        if k == b.len() {
            assert(a =~= b);
        }
    } else if k == b.len() {
        assert(agree_upto(b, a, k));
    } else if a[k] == b[k] {
        assert(agree_upto(a, b, k + 1));
        lemma_total_from(a, b, k + 1);
    } else {
        assert(agree_upto(b, a, k));
        assert(a[k] as u32 != b[k] as u32) by {
            vstd::utf8::char_u32_cast(a[k], a[k] as u32);
            vstd::utf8::char_u32_cast(b[k], b[k] as u32);
        }
    }
}

/// Two different words are ordered one way or the other.
pub proof fn lemma_lex_lt_total(a: Seq<char>, b: Seq<char>)
    ensures
        a == b || lex_lt(a, b) || lex_lt(b, a),
{
    assert(agree_upto(a, b, 0));
    lemma_total_from(a, b, 0);
}

} // verus!
