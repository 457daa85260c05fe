//! Writing a table out, one line for each word.

use crate::table::{well_formed, FrequencyTable, Listing};
use crate::words::texts;
use vstd::prelude::*;

verus! {

/// The character that stands for the digit `d`.
pub open spec fn digit_char(d: nat) -> char {
    if d == 0 {
        '0'
    } else if d == 1 {
        '1'
    } else if d == 2 {
        '2'
    } else if d == 3 {
        '3'
    } else if d == 4 {
        '4'
    } else if d == 5 {
        '5'
    } else if d == 6 {
        '6'
    } else if d == 7 {
        '7'
    } else if d == 8 {
        '8'
    } else {
        '9'
    }
}

/// The decimal numeral of `n`, without sign or leading zeros.
pub open spec fn decimal(n: nat) -> Seq<char>
    decreases n,
{
    if n < 10 {
        seq![digit_char(n)]
    } else {
        decimal(n / 10).push(digit_char(n % 10))
    }
}

/// The number that a digit stands for.
pub open spec fn digit_value(c: char) -> nat {
    if c == '1' {
        1
    } else if c == '2' {
        2
    } else if c == '3' {
        3
    } else if c == '4' {
        4
    } else if c == '5' {
        5
    } else if c == '6' {
        6
    } else if c == '7' {
        7
    } else if c == '8' {
        8
    } else if c == '9' {
        9
    } else {
        0
    }
}

/// The number that a decimal numeral stands for.
pub open spec fn numeral_value(s: Seq<char>) -> nat
    decreases s.len(),
{
    if s.len() == 0 {
        0
    } else {
        10 * numeral_value(s.drop_last()) + digit_value(s.last())
    }
}

/// The numeral of `n` stands for `n`, and but for `0` itself it does not
/// begin with a zero.
pub proof fn lemma_decimal_reads_back(n: nat)
    ensures
        numeral_value(decimal(n)) == n,
        decimal(n).len() >= 1,
        n > 0 ==> decimal(n)[0] != '0',
    decreases n,
{
    if n < 10 {
        assert(decimal(n).drop_last() =~= Seq::<char>::empty());
        assert(numeral_value(decimal(n).drop_last()) == 0);
    } else {
        lemma_decimal_reads_back(n / 10);
        assert(decimal(n).drop_last() =~= decimal(n / 10));
    }
}

/// The line that reports one entry: the word, a colon, a space, the count.
pub open spec fn entry_line(word: Seq<char>, count: nat) -> Seq<char> {
    word + seq![':', ' '] + decimal(count)
}

/// The lines that report a listing, entry by entry.
pub open spec fn report(l: Listing) -> Seq<Seq<char>> {
    Seq::new(l.len(), |i: int| entry_line(l[i].0, l[i].1))
}

fn digit(d: usize) -> (c: char)
    requires
        d < 10,
    ensures
        c == digit_char(d as nat),
{
    if d == 0 {
        '0'
    } else if d == 1 {
        '1'
    } else if d == 2 {
        '2'
    } else if d == 3 {
        '3'
    } else if d == 4 {
        '4'
    } else if d == 5 {
        '5'
    } else if d == 6 {
        '6'
    } else if d == 7 {
        '7'
    } else if d == 8 {
        '8'
    } else {
        '9'
    }
}

/// Appends the decimal numeral of `n` to `s`.
fn push_decimal(s: &mut String, n: usize)
    ensures
        final(s)@ == old(s)@ + decimal(n as nat),
    decreases n,
{
    if n >= 10 {
        push_decimal(s, n / 10);
    }
    s.push(digit(n % 10));
}

/// The line that reports `word` with `count`.
pub fn format_entry(word: &str, count: usize) -> (line: String)
    ensures
        line@ == entry_line(word@, count as nat),
{
    let mut line = word.to_owned();
    line.push(':');
    line.push(' ');
    push_decimal(&mut line, count);
    assert(line@ =~= entry_line(word@, count as nat));
    line
}

/// The lines that report the table: one for each distinct word, in
/// strictly ascending order of the words.
pub fn render(table: &FrequencyTable) -> (out: Vec<String>)
    ensures
        texts(out@) == report(table.listing()),
        well_formed(table.listing()),
{
    let n = table.len();
    let mut out: Vec<String> = Vec::new();
    let mut i: usize = 0;
    while i < n
        invariant
            n == table.listing().len(),
            0 <= i <= n,
            out@.len() == i,
            forall|k: int| 0 <= k < i ==> (#[trigger] out@[k])@ == report(table.listing())[k],
        decreases n - i,
    {
        match table.entry(i) {
            Some((word, count)) => {
                out.push(format_entry(word, count));
            },
            None => {},
        }
        i = i + 1;
    }
    assert(texts(out@) =~= report(table.listing()));
    out
}

} // verus!
