//! A whole run: cut the text, fold every chunk, merge, and render.

use crate::aggregate::{aggregate, AggregateMap, WorkerFailure};
use crate::chunk::{chunk_ranges, chunk_views, chunks_of, line_aligned, tiles, Chunk};
use crate::reduce::{mergeable, ordered, GlobalResult};
use crate::render::{render, result_text};
use crate::row::{lemma_bad_row_offset, lemma_rows_of, lemma_rows_of_concat, rows_in_range};
use crate::row::{rows_of, BadRow, RowView};
use crate::summary::{lemma_stats_of, lemma_stats_of_concat, stats_of};
use vstd::prelude::*;
use vstd::slice::slice_subrange;

verus! {

/// The failure of a pass over the bytes `start..` of a text: a malformed row
/// counted from the start of the text.
pub open spec fn failure_at(start: int, bad: BadRow) -> BadRow {
    BadRow { offset: start + bad.offset, reason: bad.reason }
}

/// No two summaries of rows that lie in one text have counts that overflow
/// when merged.
proof fn lemma_mergeable(done: Seq<RowView>, next: Seq<RowView>)
    requires
        rows_in_range(done),
        rows_in_range(next),
        done.len() + next.len() <= usize::MAX,
    ensures
        mergeable(stats_of(done), stats_of(next)),
{
    lemma_stats_of(done);
    lemma_stats_of(next);
}

/// Folds the rows of one chunk of `buffer` into an aggregate.
///
/// The chunk's rows are read as `aggregate` reads them. A malformed row is
/// reported with its offset counted from the start of `buffer`.
pub fn aggregate_range<'a>(buffer: &'a [u8], chunk: Chunk) -> (r: Result<
    AggregateMap<'a>,
    WorkerFailure,
>)
    requires
        chunk.start <= chunk.end <= buffer@.len(),
    ensures
        match r {
            Ok(map) => {
                &&& rows_of(buffer@.subrange(chunk.start as int, chunk.end as int)) is Ok
                &&& map@ == stats_of(
                    rows_of(buffer@.subrange(chunk.start as int, chunk.end as int))->Ok_0,
                )
            },
            Err(failure) => {
                &&& rows_of(buffer@.subrange(chunk.start as int, chunk.end as int)) is Err
                &&& failure_at(
                    chunk.start as int,
                    rows_of(buffer@.subrange(chunk.start as int, chunk.end as int))->Err_0,
                ) == (BadRow { offset: failure.offset as int, reason: failure.reason })
            },
        },
{
    let text = slice_subrange(buffer, chunk.start, chunk.end);
    match aggregate(text) {
        Ok(map) => Ok(map),
        Err(failure) => {
            proof {
                lemma_bad_row_offset(text@);
            }
            Err(WorkerFailure { offset: chunk.start + failure.offset, reason: failure.reason })
        },
    }
}

/// The statistics of every key of `buffer`, ordered by key.
///
/// The text is cut into chunks for a target size of `chunk_size` bytes,
/// every chunk is folded into an aggregate, and the aggregates are merged.
/// The result does not depend on `chunk_size`: it is the summary of the rows
/// of `buffer`. If a row is malformed there is no result; the first such row
/// is reported, with its offset in `buffer`.
pub fn summarize<'a>(buffer: &'a [u8], chunk_size: usize) -> (r: Result<
    GlobalResult<'a>,
    WorkerFailure,
>)
    ensures
        match r {
            Ok(result) => {
                &&& rows_of(buffer@) is Ok
                &&& result.summary() == stats_of(rows_of(buffer@)->Ok_0)
                &&& result@ == ordered(result.summary())
            },
            Err(failure) => rows_of(buffer@) == Err::<Seq<RowView>, BadRow>(
                BadRow { offset: failure.offset as int, reason: failure.reason },
            ),
        },
{
    let ranges = chunk_ranges(buffer, chunk_size);
    let ghost text = buffer@;
    let ghost spans = chunks_of(text, chunk_size as int);
    let mut result = GlobalResult::new();
    let ghost mut done: Seq<RowView> = Seq::empty();
    let mut i: usize = 0;
    while i < ranges.len()
        invariant
            i <= ranges.len() == spans.len(),
            text == buffer@,
            chunk_views(ranges@) == spans,
            tiles(spans, 0, text.len() as int),
            line_aligned(text, spans),
            i < spans.len() ==> rows_of(text.take(spans[i as int].start)) == Ok::<
                Seq<RowView>,
                BadRow,
            >(done),
            i == spans.len() ==> rows_of(text) == Ok::<Seq<RowView>, BadRow>(done),
            result.summary() == stats_of(done),
            result@ == ordered(result.summary()),
        decreases ranges.len() - i,
    {
        let chunk = ranges[i];
        let ghost span = spans[i as int];
        let ghost head = text.take(span.start);
        let ghost body = text.subrange(span.start, span.end);
        let ghost tail = text.skip(span.end);
        proof {
            assert(head + body =~= text.take(span.end));
            assert(body + tail =~= text.skip(span.start));
            assert(head + text.skip(span.start) =~= text);
            if i > 0 {
                assert(spans[i - 1].end == span.start);
            }
            lemma_rows_of_concat(head, body);
            lemma_rows_of_concat(head, text.skip(span.start));
            if i + 1 < spans.len() {
                lemma_rows_of_concat(body, tail);
            }
        }
        match aggregate_range(buffer, chunk) {
            Err(failure) => {
                return Err(failure);
            },
            Ok(map) => {
                let ghost rows = rows_of(body)->Ok_0;
                proof {
                    lemma_rows_of(head);
                    lemma_rows_of(body);
                    lemma_mergeable(done, rows);
                    lemma_stats_of_concat(done, rows);
                    done = done + rows;
                }
                result.absorb(&map);
            },
        }
        i += 1;
    }
    Ok(result)
}

/// The text of the statistics of `buffer`: `{key=min/mean/max, ...}` with
/// the keys in ascending order, or the first malformed row of `buffer`.
pub fn report(buffer: &[u8], chunk_size: usize) -> (r: Result<Vec<u8>, WorkerFailure>)
    ensures
        match r {
            Ok(text) => rows_of(buffer@) is Ok && text@ == result_text(
                ordered(stats_of(rows_of(buffer@)->Ok_0)),
            ),
            Err(failure) => rows_of(buffer@) == Err::<Seq<RowView>, BadRow>(
                BadRow { offset: failure.offset as int, reason: failure.reason },
            ),
        },
{
    match summarize(buffer, chunk_size) {
        Ok(result) => Ok(render(&result)),
        Err(failure) => Err(failure),
    }
}

} // verus!
