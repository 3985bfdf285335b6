//! Cutting a text into chunks that end where a row ends.

use crate::scan::{find_new_line_pos, first_offset, lemma_first_offset_is_first, NEWLINE};
use vstd::prelude::*;
use vstd::slice::slice_subrange;

verus! {

/// A chunk as the contracts see it: the bytes from `start` up to, not
/// including, `end`.
pub struct ChunkView {
    pub start: int,
    pub end: int,
}

/// A half-open range `[start, end)` of a text, assigned to one worker.
#[derive(Clone, Copy, Debug, PartialEq, Eq, Structural)]
pub struct Chunk {
    pub start: usize,
    pub end: usize,
}

impl View for Chunk {
    type V = ChunkView;

    open spec fn view(&self) -> ChunkView {
        ChunkView { start: self.start as int, end: self.end as int }
    }
}

/// The chunks as the contracts see them.
pub open spec fn chunk_views(chunks: Seq<Chunk>) -> Seq<ChunkView> {
    chunks.map_values(|c: Chunk| c@)
}

/// Where the chunk that starts at `start` ends: one byte past the first
/// newline at or after `start + size`, or at the end of `text` where no
/// newline is left.
pub open spec fn chunk_end(text: Seq<u8>, start: int, size: int) -> int {
    let candidate = if start + size < text.len() {
        start + size
    } else {
        text.len() as int
    };
    let newline = candidate + first_offset(text.skip(candidate), NEWLINE);
    if newline < text.len() {
        newline + 1
    } else {
        text.len() as int
    }
}

/// The chunks of `text` from `start` on, each of them reaching `size` bytes
/// and then running on to the end of its row.
pub open spec fn chunks_from(text: Seq<u8>, start: int, size: int) -> Seq<ChunkView>
    decreases text.len() - start,
    via chunks_from_decreases
{
    if 0 <= start < text.len() && size >= 0 {
        seq![ChunkView { start, end: chunk_end(text, start, size) }] + chunks_from(
            text,
            chunk_end(text, start, size),
            size,
        )
    } else {
        Seq::empty()
    }
}

#[via_fn]
proof fn chunks_from_decreases(text: Seq<u8>, start: int, size: int) {
    if 0 <= start < text.len() && size >= 0 {
        lemma_chunk_end(text, start, size);
    }
}

/// The chunks of the whole of `text` for a target size of `size` bytes.
pub open spec fn chunks_of(text: Seq<u8>, size: int) -> Seq<ChunkView> {
    chunks_from(text, 0, size)
}

/// The chunks lie one after the other and together make up `start .. len`:
/// none is empty, the first starts at `start`, each next one starts where the
/// one before it ends, and the last ends at `len`. There is no chunk where
/// `start` is `len`.
pub open spec fn tiles(chunks: Seq<ChunkView>, start: int, len: int) -> bool {
    &&& chunks.len() == 0 <==> start == len
    &&& chunks.len() > 0 ==> chunks[0].start == start && chunks.last().end == len
    &&& forall|i: int| 0 <= i < chunks.len() ==> (#[trigger] chunks[i]).start < chunks[i].end
    &&& forall|i: int|
        0 <= i < chunks.len() - 1 ==> (#[trigger] chunks[i]).end == chunks[i + 1].start
}

/// Every chunk but the last ends one byte after a newline.
pub open spec fn line_aligned(text: Seq<u8>, chunks: Seq<ChunkView>) -> bool {
    forall|i: int|
        0 <= i < chunks.len() - 1 ==> {
            &&& 0 < (#[trigger] chunks[i]).end <= text.len()
            &&& text[chunks[i].end - 1] == NEWLINE
        }
}

/// Every chunk but the last holds more than `size` bytes, and holds no
/// newline from its byte `size` on but the one that ends it.
pub open spec fn reaches_size(text: Seq<u8>, chunks: Seq<ChunkView>, size: int) -> bool {
    forall|i: int|
        0 <= i < chunks.len() - 1 ==> {
            &&& (#[trigger] chunks[i]).end - chunks[i].start > size
            &&& forall|j: int|
                chunks[i].start + size <= j < chunks[i].end - 1 ==> text[j] != NEWLINE
        }
}

/// A chunk that starts inside the text is not empty and ends inside the text
/// or at its end; it ends before the end of the text only after a newline,
/// with more than `size` bytes, and with no newline from its byte `size` on
/// but its last.
pub proof fn lemma_chunk_end(text: Seq<u8>, start: int, size: int)
    requires
        0 <= start < text.len(),
        size >= 0,
    ensures
        start < chunk_end(text, start, size) <= text.len(),
        chunk_end(text, start, size) < text.len() ==> {
            &&& text[chunk_end(text, start, size) - 1] == NEWLINE
            &&& chunk_end(text, start, size) - start > size
            &&& forall|j: int|
                start + size <= j < chunk_end(text, start, size) - 1 ==> text[j] != NEWLINE
        },
{
    let candidate = if start + size < text.len() {
        start + size
    } else {
        text.len() as int
    };
    let rest = text.skip(candidate);
    lemma_first_offset_is_first(rest, NEWLINE);
    let off = first_offset(rest, NEWLINE);
    if candidate + off < text.len() {
        assert forall|j: int| start + size <= j < candidate + off implies text[j] != NEWLINE by {
            assert(rest[j - candidate] == text[j]);
        }
    }
}

/// The chunks from `start` on tile `start .. len`, are line aligned, and
/// reach the target size.
pub proof fn lemma_chunks_from(text: Seq<u8>, start: int, size: int)
    requires
        0 <= start <= text.len(),
        size >= 0,
    ensures
        tiles(chunks_from(text, start, size), start, text.len() as int),
        line_aligned(text, chunks_from(text, start, size)),
        reaches_size(text, chunks_from(text, start, size), size),
    decreases text.len() - start,
{
    if start < text.len() {
        lemma_chunk_end(text, start, size);
        let end = chunk_end(text, start, size);
        lemma_chunks_from(text, end, size);
    }
}

/// Cuts `buffer` into chunks for a target size of `chunk_size` bytes.
///
/// A chunk starts where the one before it ends, the first at byte 0. It
/// reaches `chunk_size` bytes and then runs on to the first newline, which
/// it takes in; with no newline left it runs to the end of `buffer`. So the
/// chunks lie one after the other, cover `buffer` from end to end, and no row
/// lies across two of them. An empty `buffer` has no chunk; a `chunk_size` of
/// `buffer.len()` or more gives one chunk.
pub fn chunk_ranges(buffer: &[u8], chunk_size: usize) -> (ranges: Vec<Chunk>)
    ensures
        chunk_views(ranges@) == chunks_of(buffer@, chunk_size as int),
        tiles(chunks_of(buffer@, chunk_size as int), 0, buffer@.len() as int),
        line_aligned(buffer@, chunks_of(buffer@, chunk_size as int)),
        reaches_size(buffer@, chunks_of(buffer@, chunk_size as int), chunk_size as int),
        chunk_size >= buffer@.len() ==> ranges.len() <= 1,
{
    let len = buffer.len();
    let mut ranges: Vec<Chunk> = Vec::new();
    let mut start: usize = 0;
    proof {
        lemma_chunks_from(buffer@, 0, chunk_size as int);
    }
    while start < len
        invariant
            start <= len == buffer@.len(),
            chunks_of(buffer@, chunk_size as int) == chunk_views(ranges@)
                + chunks_from(buffer@, start as int, chunk_size as int),
        decreases len - start,
    {
        let candidate = if chunk_size < len - start {
            start + chunk_size
        } else {
            len
        };
        let rest = slice_subrange(buffer, candidate, len);
        proof {
            lemma_first_offset_is_first(rest@, NEWLINE);
        }
        let newline = candidate + find_new_line_pos(rest);
        let end = if newline < len {
            newline + 1
        } else {
            len
        };
        let chunk = Chunk { start, end };
        ranges.push(chunk);
        start = end;
    }
    ranges
}

/// Chunks that reach `size` bytes are few: with `k` of them from `start` on,
/// `k * (size + 1)` is at most the bytes left plus `size`.
pub proof fn lemma_chunk_count(text: Seq<u8>, start: int, size: int)
    requires
        0 <= start <= text.len(),
        size >= 0,
    ensures
        chunks_from(text, start, size).len() * (size + 1) <= (text.len() - start) + size,
    decreases text.len() - start,
{
    if start < text.len() {
        lemma_chunk_end(text, start, size);
        let end = chunk_end(text, start, size);
        lemma_chunk_count(text, end, size);
        let rest = chunks_from(text, end, size).len() as int;
        assert((1 + rest) * (size + 1) == (size + 1) + rest * (size + 1)) by (nonlinear_arith);
    }
}

/// Cuts `buffer` into at most `count` chunks.
///
/// The target size is `buffer.len() / count`; the chunks are those that
/// `chunk_ranges` makes for that size.
pub fn split_evenly(buffer: &[u8], count: usize) -> (ranges: Vec<Chunk>)
    requires
        count >= 1,
    ensures
        chunk_views(ranges@) == chunks_of(buffer@, buffer@.len() as int / count as int),
        tiles(chunk_views(ranges@), 0, buffer@.len() as int),
        line_aligned(buffer@, chunk_views(ranges@)),
        ranges.len() <= count,
{
    let size = buffer.len() / count;
    let ranges = chunk_ranges(buffer, size);
    proof {
        lemma_chunk_count(buffer@, 0, size as int);
        let k = ranges.len() as int;
        let n = buffer@.len() as int;
        let c = count as int;
        let s = size as int;
        assert(k <= c) by (nonlinear_arith)
            requires
                c >= 1,
                s == n / c,
                n >= 0,
                k >= 0,
                k * (s + 1) <= n + s,
        ;
    }
    ranges
}

/// The bytes of `text` that `chunk` spans.
pub open spec fn chunk_text(text: Seq<u8>, chunk: ChunkView) -> Seq<u8> {
    text.subrange(chunk.start, chunk.end)
}

/// Cuts `buffer` as `chunk_ranges` does and hands out the chunks as slices
/// of `buffer`.
///
/// Every slice holds the bytes of its chunk from end to end, the newline
/// that ends the chunk included. So the slices, one after the other, are
/// `buffer`, and every slice but the last ends in a newline.
pub fn chunks<'a>(buffer: &'a [u8], chunk_size: usize) -> (result: Vec<&'a [u8]>)
    ensures
        result.len() == chunks_of(buffer@, chunk_size as int).len(),
        forall|i: int|
            0 <= i < result.len() ==> (#[trigger] result[i])@ == chunk_text(
                buffer@,
                chunks_of(buffer@, chunk_size as int)[i],
            ),
        tiles(chunks_of(buffer@, chunk_size as int), 0, buffer@.len() as int),
        line_aligned(buffer@, chunks_of(buffer@, chunk_size as int)),
        forall|i: int|
            0 <= i < result.len() - 1 ==> (#[trigger] result[i])@.len() > 0 && result[i]@.last()
                == NEWLINE,
        chunk_size >= buffer@.len() && buffer@.len() > 0 ==> result.len() == 1 && result[0]@
            == buffer@,
{
    let ranges = chunk_ranges(buffer, chunk_size);
    let ghost spans = chunks_of(buffer@, chunk_size as int);
    let mut result: Vec<&'a [u8]> = Vec::new();
    let mut i: usize = 0;
    while i < ranges.len()
        invariant
            i <= ranges.len() == spans.len(),
            chunk_views(ranges@) == spans,
            tiles(spans, 0, buffer@.len() as int),
            line_aligned(buffer@, spans),
            result.len() == i,
            forall|k: int| 0 <= k < i ==> (#[trigger] result[k])@ == chunk_text(buffer@, spans[k]),
            forall|k: int|
                0 <= k < i && k < spans.len() - 1 ==> (#[trigger] result[k])@.len() > 0
                    && result[k]@.last() == NEWLINE,
        decreases ranges.len() - i,
    {
        let chunk = ranges[i];
        proof {
            lemma_tiles_bounds(spans, 0, buffer@.len() as int, i as int);
        }
        let slice = slice_subrange(buffer, chunk.start, chunk.end);
        proof {
            assert(spans[i as int] == chunk@);
            if i < spans.len() - 1 {
                assert(slice@.last() == buffer@[chunk.end - 1]);
            }
        }
        result.push(slice);
        i += 1;
    }
    proof {
        if chunk_size >= buffer@.len() && buffer@.len() > 0 {
            assert(spans.len() == 1);
            assert(spans[0].start == 0 && spans[0].end == buffer@.len());
            assert(buffer@.subrange(0, buffer@.len() as int) =~= buffer@);
        }
    }
    result
}

/// Chunks that tile `start .. len` lie within it, in ascending order.
pub proof fn lemma_tiles_bounds(chunks: Seq<ChunkView>, start: int, len: int, i: int)
    requires
        tiles(chunks, start, len),
        0 <= i < chunks.len(),
    ensures
        start <= chunks[i].start < chunks[i].end <= len,
        forall|j: int| i < j < chunks.len() ==> chunks[i].end <= (#[trigger] chunks[j]).start,
{
    lemma_tiles_ascending(chunks, start, len, 0, i);
    assert forall|j: int| i < j < chunks.len() implies chunks[i].end <= (#[trigger] chunks[j]).start
    by {
        lemma_tiles_ascending(chunks, start, len, i + 1, j);
    }
}

/// Of two chunks of a tiling, the earlier ends no later than the later
/// starts.
pub proof fn lemma_tiles_ascending(chunks: Seq<ChunkView>, start: int, len: int, i: int, j: int)
    requires
        tiles(chunks, start, len),
        0 <= i <= j < chunks.len(),
    ensures
        chunks[i].start <= chunks[j].start,
        chunks[i].end <= chunks[j].end,
        i < j ==> chunks[i].end <= chunks[j].start,
    decreases j - i,
{
    if i < j {
        lemma_tiles_ascending(chunks, start, len, i, j - 1);
    }
}

} // verus!
