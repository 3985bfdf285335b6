//! What holds of the parts of a run taken together.

use crate::chunk::{chunk_text, chunks_of, lemma_chunks_from, lemma_tiles_bounds, tiles};
use crate::chunk::ChunkView;
use crate::reduce::{lemma_ordered, ordered, summary_of, EntryView};
use crate::render::{result_text, CLOSE, OPEN};
use crate::row::{lemma_rows_of, lemma_rows_of_concat, rows_of, BadRow, RowView};
use crate::scan::NEWLINE;
use crate::stats::StatsView;
use crate::summary::{carries, lemma_stats_of, lemma_stats_of_concat, merge_maps, stats_of};
use crate::summary::Summary;
use vstd::prelude::*;

verus! {

/// The byte at offset `at` lies in one of the chunks.
pub open spec fn within(chunks: Seq<ChunkView>, at: int) -> bool {
    exists|i: int| 0 <= i < chunks.len() && (#[trigger] chunks[i]).start <= at < chunks[i].end
}

/// The chunks of a text do not overlap, every byte of the text lies in
/// exactly one of them, and every chunk but the last ends right after a
/// newline.
pub proof fn lemma_chunks_partition(text: Seq<u8>, size: int)
    requires
        size >= 0,
    ensures
        forall|i: int, j: int|
            0 <= i < j < chunks_of(text, size).len() ==> (#[trigger] chunks_of(text, size)[i]).end
                <= (#[trigger] chunks_of(text, size)[j]).start,
        forall|at: int| 0 <= at < text.len() ==> #[trigger] within(chunks_of(text, size), at),
        forall|i: int|
            0 <= i < chunks_of(text, size).len() ==> 0 <= (#[trigger] chunks_of(
                text,
                size,
            )[i]).start < chunks_of(text, size)[i].end <= text.len(),
        forall|i: int|
            0 <= i < chunks_of(text, size).len() - 1 ==> text[(#[trigger] chunks_of(
                text,
                size,
            )[i]).end - 1] == NEWLINE,
{
    let chunks = chunks_of(text, size);
    lemma_chunks_from(text, 0, size);
    assert forall|i: int, j: int| 0 <= i < j < chunks.len() implies (#[trigger] chunks[i]).end <= (
    #[trigger] chunks[j]).start by {
        lemma_tiles_bounds(chunks, 0, text.len() as int, i);
    }
    assert forall|at: int| 0 <= at < text.len() implies #[trigger] within(chunks, at) by {
        lemma_covered(chunks, text.len() as int, at, chunks.len() - 1);
    }
}

/// A byte that lies before the end of chunk `upto` of a tiling lies in that
/// chunk or in one before it.
proof fn lemma_covered(chunks: Seq<ChunkView>, len: int, at: int, upto: int)
    requires
        tiles(chunks, 0, len),
        0 <= upto < chunks.len(),
        0 <= at < chunks[upto].end,
    ensures
        within(chunks, at),
    decreases upto,
{
    if at < chunks[upto].start {
        lemma_covered(chunks, len, at, upto - 1);
    }
}

/// The texts of the chunks, one after the other.
pub open spec fn joined(text: Seq<u8>, chunks: Seq<ChunkView>) -> Seq<u8>
    decreases chunks.len(),
{
    if chunks.len() == 0 {
        Seq::empty()
    } else {
        joined(text, chunks.drop_last()) + chunk_text(text, chunks.last())
    }
}

/// The texts of the chunks of a text, one after the other, are the text:
/// no byte is left out and none comes twice.
pub proof fn lemma_chunks_join(text: Seq<u8>, size: int)
    requires
        size >= 0,
    ensures
        joined(text, chunks_of(text, size)) == text,
{
    let chunks = chunks_of(text, size);
    lemma_chunks_from(text, 0, size);
    lemma_joined_prefix(text, chunks, chunks.len() as int);
    assert(chunks.take(chunks.len() as int) =~= chunks);
    if chunks.len() > 0 {
        assert(text.take(text.len() as int) =~= text);
    }
}

/// The texts of the first `n` chunks of a tiling, one after the other, are
/// the text up to where chunk `n - 1` ends.
proof fn lemma_joined_prefix(text: Seq<u8>, chunks: Seq<ChunkView>, n: int)
    requires
        tiles(chunks, 0, text.len() as int),
        0 <= n <= chunks.len(),
    ensures
        joined(text, chunks.take(n)) == if n == 0 {
            Seq::<u8>::empty()
        } else {
            text.take(chunks[n - 1].end)
        },
    decreases n,
{
    if n > 0 {
        lemma_joined_prefix(text, chunks, n - 1);
        lemma_tiles_bounds(chunks, 0, text.len() as int, n - 1);
        let upto = chunks.take(n);
        assert(upto.drop_last() =~= chunks.take(n - 1));
        assert(upto.last() == chunks[n - 1]);
        if n > 1 {
            assert(chunks[n - 2].end == chunks[n - 1].start);
        }
        assert(joined(text, upto) =~= text.take(chunks[n - 1].end));
    }
}

/// Three summaries merge to the same whatever the order in which they
/// arrive.
pub proof fn lemma_merge_any_order(a: Summary, b: Summary, c: Summary)
    ensures
        merge_maps(merge_maps(a, b), c) == merge_maps(merge_maps(a, c), b),
        merge_maps(merge_maps(a, b), c) == merge_maps(merge_maps(b, a), c),
        merge_maps(merge_maps(a, b), c) == merge_maps(merge_maps(b, c), a),
        merge_maps(merge_maps(a, b), c) == merge_maps(merge_maps(c, a), b),
        merge_maps(merge_maps(a, b), c) == merge_maps(merge_maps(c, b), a),
{
}

/// Folding two pieces of text apart and merging gives what folding them as
/// one text gives, provided the first piece ends where a row ends.
pub proof fn lemma_fold_apart(a: Seq<u8>, b: Seq<u8>)
    requires
        a.len() == 0 || a.last() == NEWLINE,
        rows_of(a) is Ok,
        rows_of(b) is Ok,
    ensures
        rows_of(a + b) is Ok,
        stats_of(rows_of(a + b)->Ok_0) == merge_maps(
            stats_of(rows_of(a)->Ok_0),
            stats_of(rows_of(b)->Ok_0),
        ),
{
    lemma_rows_of_concat(a, b);
    lemma_rows_of(a);
    lemma_rows_of(b);
    lemma_stats_of_concat(rows_of(a)->Ok_0, rows_of(b)->Ok_0);
}

/// The summary of a text has an entry for exactly the keys of its rows, and
/// the count of an entry is the number of rows that carry its key.
pub proof fn lemma_counts_rows(text: Seq<u8>, key: Seq<u8>)
    requires
        rows_of(text) is Ok,
    ensures
        stats_of(rows_of(text)->Ok_0).contains_key(key) <==> (rows_of(text)->Ok_0).filter(
            carries(key),
        ).len() > 0,
        stats_of(rows_of(text)->Ok_0).contains_key(key) ==> stats_of(
            rows_of(text)->Ok_0,
        )[key].count == (rows_of(text)->Ok_0).filter(carries(key)).len(),
{
    lemma_rows_of(text);
    lemma_stats_of(rows_of(text)->Ok_0);
}

/// A text without rows has a summary without entries, which reads `{}`.
pub proof fn lemma_empty_text()
    ensures
        rows_of(Seq::<u8>::empty()) == Ok::<Seq<RowView>, BadRow>(Seq::empty()),
        stats_of(Seq::<RowView>::empty()) == Map::<Seq<u8>, StatsView>::empty(),
        ordered(Map::<Seq<u8>, StatsView>::empty()) == Seq::<EntryView>::empty(),
        result_text(Seq::<EntryView>::empty()) == seq![OPEN, CLOSE],
{
    let none = Seq::<EntryView>::empty();
    assert(summary_of(none) =~= Map::<Seq<u8>, StatsView>::empty());
    lemma_ordered(none);
}

} // verus!
