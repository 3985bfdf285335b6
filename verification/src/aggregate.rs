//! Folding one chunk of rows into a table of per-key statistics.

use crate::row::{parse_next_row, resumed, rows_in_range, rows_of, BadRow, MalformedRow, RowView};
use crate::stats::{lemma_wf_sum, Stats};
use crate::summary::{lemma_stats_of, lemma_stats_of_push, stats_of, summary_wf, Summary};
use crate::table::{table_entries, table_get, table_items, table_slot, table_with_capacity};
use rustc_hash::FxHashMap;
use vstd::prelude::*;
use vstd::slice::slice_subrange;

verus! {

/// Room that a fresh aggregate makes for keys before it has to grow.
pub const INITIAL_CAPACITY: usize = 100;

/// A pass over a chunk stopped at a malformed row.
#[derive(Clone, Copy, Debug, PartialEq, Eq, Structural)]
pub struct WorkerFailure {
    /// The byte offset at which the malformed row starts. `aggregate` counts
    /// it from the start of the bytes it was given, the functions that take a
    /// whole buffer from the start of the buffer.
    pub offset: usize,
    /// What is wrong with the row.
    pub reason: MalformedRow,
}

/// The summary that a table's entries stand for.
spec fn summary_of_entries(entries: Map<Seq<u8>, Stats>) -> Summary {
    entries.map_values(|stats: Stats| stats@)
}

/// The statistics of the rows of one chunk, by key. Its keys are slices of
/// the chunk it was made from.
pub struct AggregateMap<'a> {
    table: FxHashMap<&'a [u8], Stats>,
}

impl<'a> View for AggregateMap<'a> {
    type V = Summary;

    closed spec fn view(&self) -> Summary {
        summary_of_entries(table_entries(self.table))
    }
}

impl<'a> AggregateMap<'a> {
    #[verifier::type_invariant]
    spec fn inv(&self) -> bool {
        summary_wf(summary_of_entries(table_entries(self.table)))
    }

    /// The statistics kept under `key`, if any row carried it.
    pub fn get(&self, key: &[u8]) -> (found: Option<Stats>)
        ensures
            match found {
                Some(stats) => self@.contains_key(key@) && self@[key@] == stats@ && stats@.wf(),
                None => !self@.contains_key(key@),
            },
    {
        proof {
            use_type_invariant(self);
        }
        table_get(&self.table, key)
    }

    /// Every entry once, as key and statistics, in no fixed order.
    pub fn entries(&self) -> (items: Vec<(&'a [u8], Stats)>)
        ensures
            forall|i: int|
                0 <= i < items.len() ==> {
                    &&& self@.contains_key((#[trigger] items[i]).0@)
                    &&& self@[items[i].0@] == items[i].1@
                    &&& items[i].1@.wf()
                },
            forall|i: int, j: int|
                0 <= i < j < items.len() ==> (#[trigger] items[i]).0@ != (#[trigger] items[j]).0@,
            forall|key: Seq<u8>| #[trigger]
                self@.contains_key(key) ==> exists|i: int|
                    0 <= i < items.len() && (#[trigger] items[i]).0@ == key,
    {
        proof {
            use_type_invariant(self);
        }
        table_items(&self.table)
    }
}

/// Folds the rows of `chunk` into one aggregate.
///
/// Row after row is read from the start of `chunk`; the value of each is
/// folded into the statistics of its key. A chunk whose rows are all well
/// formed gives the summary of its rows. The first malformed row ends the
/// pass, and nothing is handed out but where that row starts and why it was
/// refused.
pub fn aggregate<'a>(chunk: &'a [u8]) -> (r: Result<AggregateMap<'a>, WorkerFailure>)
    ensures
        match r {
            Ok(map) => rows_of(chunk@) is Ok && map@ == stats_of(rows_of(chunk@)->Ok_0),
            Err(failure) => rows_of(chunk@) == Err::<Seq<RowView>, BadRow>(
                BadRow { offset: failure.offset as int, reason: failure.reason },
            ),
        },
{
    let len = chunk.len();
    let mut table = table_with_capacity(INITIAL_CAPACITY);
    let mut at: usize = 0;
    let ghost mut done: Seq<RowView> = Seq::empty();
    proof {
        assert(chunk@.skip(0) =~= chunk@);
    }
    while at < len
        invariant
            at <= len == chunk@.len(),
            rows_of(chunk@) == resumed(done, at as int, rows_of(chunk@.skip(at as int))),
            summary_of_entries(table_entries(table)) == stats_of(done),
            rows_in_range(done),
            done.len() <= at,
        decreases len - at,
    {
        let rest = slice_subrange(chunk, at, len);
        let ghost text = chunk@.skip(at as int);
        match parse_next_row(rest) {
            Err(reason) => {
                return Err(WorkerFailure { offset: at, reason });
            },
            Ok((key, value, taken)) => {
                let ghost row = RowView { key: key@, value: value as int };
                let ghost before = table_entries(table);
                proof {
                    lemma_stats_of(done);
                    lemma_stats_of_push(done, row);
                    assert(text.skip(taken as int) =~= chunk@.skip(at + taken));
                    match rows_of(text.skip(taken as int)) {
                        Ok(rows) => {
                            assert(done + (seq![row] + rows) =~= done.push(row) + rows);
                        },
                        Err(bad) => {},
                    }
                    if before.contains_key(key@) {
                        lemma_wf_sum(before[key@]@);
                    }
                }
                let slot = table_slot(&mut table, key, Stats::new());
                *slot = slot.observe(value);
                proof {
                    done = done.push(row);
                }
                at += taken;
            },
        }
    }
    proof {
        lemma_stats_of(done);
    }
    Ok(AggregateMap { table })
}

} // verus!
