//! The run as a whole: lines are folded batch by batch, with a pause after
//! each batch, and the table is written out when all lines are counted.

use crate::counter::{
    fits, folded, lemma_fits_if_short, lemma_word_bag_concat, process_chunk, total_chars,
    total_len, word_bag,
};
use crate::report::{render, report};
use crate::table::{lemma_sorted_listing_is, sorted_listing, FrequencyTable, Listing};
use crate::words::texts;
use vstd::multiset::Multiset;
use vstd::prelude::*;

verus! {

/// The number of lines that are folded before a pause.
pub const BATCH_SIZE: usize = 10000;

/// The length of the pause after each batch, in milliseconds.
pub const PAUSE_MILLIS: u64 = 10;

/// The state of a run, as plain values.
pub struct Run {
    /// The lines of the input.
    pub lines: Seq<Seq<char>>,
    /// How many of them have been folded into the table.
    pub done: nat,
    /// The largest number of lines in a batch.
    pub batch_size: nat,
    /// The pause after each batch, in milliseconds.
    pub pause_millis: u64,
    /// Whether the output was handed out.
    pub finished: bool,
}

/// What the caller is asked to do after a step, as plain values.
pub enum Signal {
    /// Wait this many milliseconds, then step again.
    Pause(u64),
    /// Write these lines out, in this order.
    Emit(Seq<Seq<char>>),
    /// Nothing is left to do.
    Stop,
}

/// What the caller is asked to do after a step.
pub enum Action {
    /// A batch was folded: wait this many milliseconds, then step again.
    Pause(u64),
    /// All lines are counted: write these lines out, in this order.
    Emit(Vec<String>),
    /// The output was handed out before: nothing is left to do.
    Stop,
}

impl View for Action {
    type V = Signal;

    open spec fn view(&self) -> Signal {
        match self {
            Action::Pause(millis) => Signal::Pause(*millis),
            Action::Emit(out) => Signal::Emit(texts(out@)),
            Action::Stop => Signal::Stop,
        }
    }
}

/// Every count that the lines give rise to fits in a `usize`.
pub open spec fn countable(lines: Seq<Seq<char>>) -> bool {
    fits(Multiset::empty(), lines)
}

/// The words counted so far: those of the lines that are done.
pub open spec fn counted(r: Run) -> Multiset<Seq<char>> {
    word_bag(r.lines.take(r.done as int))
}

/// The listing of the words of `lines`: what the table holds when all of
/// them are counted.
pub open spec fn listing_of_lines(lines: Seq<Seq<char>>) -> Listing {
    sorted_listing(word_bag(lines))
}

/// The lines that a run over `lines` writes out.
pub open spec fn output(lines: Seq<Seq<char>>) -> Seq<Seq<char>> {
    report(listing_of_lines(lines))
}

/// The state in which a run over `lines` starts.
pub open spec fn start(lines: Seq<Seq<char>>, batch_size: nat, pause_millis: u64) -> Run {
    Run { lines, done: 0, batch_size, pause_millis, finished: false }
}

/// Where the next batch ends.
pub open spec fn batch_end(r: Run) -> nat {
    if r.done + r.batch_size <= r.lines.len() {
        r.done + r.batch_size
    } else {
        r.lines.len()
    }
}

/// The state after one step.
pub open spec fn advance(r: Run) -> Run {
    if r.finished {
        r
    } else if r.done < r.lines.len() {
        Run { done: batch_end(r), ..r }
    } else {
        Run { finished: true, ..r }
    }
}

/// What one step asks the caller to do.
pub open spec fn action(r: Run) -> Signal {
    if r.finished {
        Signal::Stop
    } else if r.done < r.lines.len() {
        Signal::Pause(r.pause_millis)
    } else {
        Signal::Emit(output(r.lines))
    }
}

/// What holds of the state of every run.
pub open spec fn valid(r: Run) -> bool {
    &&& r.done <= r.lines.len()
    &&& r.batch_size > 0
    &&& r.finished ==> r.done == r.lines.len()
}

/// Where a run stands.
#[derive(Clone, Copy, Debug, PartialEq, Eq, Structural)]
pub enum Phase {
    /// Lines are left to fold.
    Counting,
    /// All lines are folded; the next step hands out the output.
    Emitting,
    /// The output was handed out.
    Done,
}

/// Where the run `r` stands.
pub open spec fn phase(r: Run) -> Phase {
    if r.finished {
        Phase::Done
    } else if r.done < r.lines.len() {
        Phase::Counting
    } else {
        Phase::Emitting
    }
}

/// A step keeps the state valid and leaves out no phase: counting goes on
/// or gives way to emitting, emitting is followed by the end, and the end
/// stays. While lines are left, a step folds at least one of them.
pub proof fn lemma_phases_in_order(r: Run)
    requires
        valid(r),
    ensures
        valid(advance(r)),
        advance(r).lines == r.lines,
        phase(r) == Phase::Counting ==> phase(advance(r)) != Phase::Done && r.done < advance(
            r,
        ).done,
        phase(r) == Phase::Emitting ==> phase(advance(r)) == Phase::Done,
        phase(r) == Phase::Done ==> advance(r) == r,
{
}

/// The number of batches that are still to be folded.
pub open spec fn batches_left(r: Run) -> nat
    decreases r.lines.len() - r.done,
{
    if r.batch_size == 0 || r.done >= r.lines.len() {
        0
    } else {
        1 + batches_left(Run { done: batch_end(r), ..r })
    }
}

/// The state after `n` steps.
pub open spec fn advance_by(r: Run, n: nat) -> Run
    decreases n,
{
    if n == 0 {
        r
    } else {
        advance_by(advance(r), (n - 1) as nat)
    }
}

/// A run asks for one pause after each batch, then hands out the output of
/// its lines, whatever the size of the batches, and then stops.
pub proof fn lemma_run_completes(r: Run)
    requires
        valid(r),
        !r.finished,
    ensures
        forall|k: nat|
            k < batches_left(r) ==> action(#[trigger] advance_by(r, k)) == Signal::Pause(
                r.pause_millis,
            ),
        action(advance_by(r, batches_left(r))) == Signal::Emit(output(r.lines)),
        action(advance_by(r, batches_left(r) + 1)) == Signal::Stop,
    decreases r.lines.len() - r.done,
{
    let n = batches_left(r);
    if r.done >= r.lines.len() {
        assert(advance_by(r, 1) == advance_by(advance(r), 0));
    } else {
        let next = advance(r);
        lemma_run_completes(next);
        assert(n == 1 + batches_left(next));
        assert forall|k: nat| k < n implies action(#[trigger] advance_by(r, k)) == Signal::Pause(
            r.pause_millis,
        ) by {
            if k > 0 {
                assert(advance_by(r, k) == advance_by(next, (k - 1) as nat));
            }
        }
        assert(advance_by(r, n) == advance_by(next, (n - 1) as nat));
        assert(advance_by(r, n + 1) == advance_by(next, n));
    }
}

/// The number of batches is the number of lines that are left, divided by
/// the batch size and rounded up.
pub proof fn lemma_batches_left_bounds(r: Run)
    requires
        valid(r),
    ensures
        r.done == r.lines.len() ==> batches_left(r) == 0,
        r.done < r.lines.len() ==> (batches_left(r) - 1) * r.batch_size < r.lines.len() - r.done
            <= batches_left(r) * r.batch_size,
    decreases r.lines.len() - r.done,
{
    if r.done < r.lines.len() {
        let next = Run { done: batch_end(r), ..r };
        let b = r.batch_size as int;
        let m = batches_left(next) as int;
        lemma_batches_left_bounds(next);
        assert(batches_left(r) == 1 + m);
        assert((1 + m) * b == m * b + b) by (nonlinear_arith);
        assert((m - 1) * b == m * b - b) by (nonlinear_arith);
        assert((1 + m - 1) * b == m * b);
        if next.done == r.lines.len() {
            assert(m == 0);
            assert(m * b == 0) by (nonlinear_arith)
                requires
                    m == 0,
            ;
        }
    }
}

/// A run over lines that were read in full.
pub struct Driver {
    lines: Vec<String>,
    done: usize,
    batch_size: usize,
    pause_millis: u64,
    finished: bool,
    table: FrequencyTable,
}

impl View for Driver {
    type V = Run;

    closed spec fn view(&self) -> Run {
        Run {
            lines: texts(self.lines@),
            done: self.done as nat,
            batch_size: self.batch_size as nat,
            pause_millis: self.pause_millis,
            finished: self.finished,
        }
    }
}

impl Driver {
    #[verifier::type_invariant]
    spec fn inv(&self) -> bool {
        &&& self.done <= self.lines@.len()
        &&& self.batch_size > 0
        &&& countable(texts(self.lines@))
        &&& self.table@ == word_bag(texts(self.lines@).take(self.done as int))
        &&& self.finished ==> self.done == self.lines@.len()
    }

    /// A run over `lines` with batches of `BATCH_SIZE` lines and pauses of
    /// `PAUSE_MILLIS` milliseconds.
    pub fn new(lines: Vec<String>) -> (d: Driver)
        requires
            countable(texts(lines@)),
        ensures
            d@ == start(texts(lines@), BATCH_SIZE as nat, PAUSE_MILLIS),
    {
        Driver::with_pacing(lines, BATCH_SIZE, PAUSE_MILLIS)
    }

    /// A run over `lines` with batches of `batch_size` lines and pauses of
    /// `pause_millis` milliseconds.
    pub fn with_pacing(lines: Vec<String>, batch_size: usize, pause_millis: u64) -> (d: Driver)
        requires
            batch_size > 0,
            countable(texts(lines@)),
        ensures
            d@ == start(texts(lines@), batch_size as nat, pause_millis),
    {
        let table = FrequencyTable::new();
        proof {
            broadcast use vstd::seq_lib::group_to_multiset_ensures;

            assert(texts(lines@).take(0) =~= Seq::<Seq<char>>::empty());
            assert(word_bag(texts(lines@).take(0)) =~= Multiset::<Seq<char>>::empty());
        }
        Driver { lines, done: 0, batch_size, pause_millis, finished: false, table }
    }

    /// A run over `lines` with batches of `batch_size` lines and pauses of
    /// `pause_millis` milliseconds, unless the batch size is zero or the
    /// lines hold more characters than a `usize` can count.
    pub fn try_new(lines: Vec<String>, batch_size: usize, pause_millis: u64) -> (r: Option<Driver>)
        ensures
            match r {
                Some(d) => batch_size > 0 && total_len(texts(lines@)) <= usize::MAX && d@ == start(
                    texts(lines@),
                    batch_size as nat,
                    pause_millis,
                ),
                None => batch_size == 0 || total_len(texts(lines@)) > usize::MAX,
            },
    {
        if batch_size == 0 {
            return None;
        }
        if total_chars(lines.as_slice()).is_none() {
            return None;
        }
        proof {
            lemma_fits_if_short(Multiset::empty(), texts(lines@));
        }
        Some(Driver::with_pacing(lines, batch_size, pause_millis))
    }

    /// Where the run stands.
    pub fn phase(&self) -> (p: Phase)
        ensures
            valid(self@),
            p == phase(self@),
    {
        proof {
            use_type_invariant(self);
        }
        if self.finished {
            Phase::Done
        } else if self.done < self.lines.len() {
            Phase::Counting
        } else {
            Phase::Emitting
        }
    }

    /// The table as it stands: it holds the words of the lines that are done.
    pub fn table(&self) -> (t: &FrequencyTable)
        ensures
            valid(self@),
            t@ == counted(self@),
    {
        proof {
            use_type_invariant(self);
        }
        &self.table
    }

    /// Takes one step of the run: folds the next batch and asks for a pause,
    /// or, when no line is left, hands out the output.
    pub fn step(self) -> (r: (Driver, Action))
        ensures
            valid(self@),
            r.0@ == advance(self@),
            r.1@ == action(self@),
    {
        proof {
            use_type_invariant(&self);
        }
        let ghost all = texts(self.lines@);
        let Driver { lines, done, batch_size, pause_millis, finished, mut table } = self;
        if finished {
            return (
                Driver { lines, done, batch_size, pause_millis, finished, table },
                Action::Stop,
            );
        }
        let total = lines.len();
        if done < total {
            let end = if batch_size <= total - done {
                done + batch_size
            } else {
                total
            };
            let batch = &lines.as_slice()[done..end];
            proof {
                let a = all.take(done as int);
                let b = texts(batch@);
                assert(a + b =~= all.take(end as int));
                assert(all.take(end as int) + all.skip(end as int) =~= all);
                lemma_word_bag_concat(a, b);
                lemma_word_bag_concat(all.take(end as int), all.skip(end as int));
                assert forall|w: Seq<char>| #[trigger]
                    folded(table@, b).count(w) <= usize::MAX by {
                    assert(folded(Multiset::empty(), all).count(w) <= usize::MAX);
                }
            }
            process_chunk(batch, &mut table);
            (
                Driver { lines, done: end, batch_size, pause_millis, finished, table },
                Action::Pause(pause_millis),
            )
        } else {
            let out = render(&table);
            proof {
                assert(all.take(done as int) =~= all);
                lemma_sorted_listing_is(table.listing());
            }
            (
                Driver { lines, done, batch_size, pause_millis, finished: true, table },
                Action::Emit(out),
            )
        }
    }
}

} // verus!
