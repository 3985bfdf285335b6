//! What a sequence of rows sums up to: one `StatsView` for every key.

use crate::row::{rows_in_range, RowView};
use crate::stats::{lemma_of_values, lemma_of_values_concat, values_in_range, StatsView};
use crate::stats::{VALUE_MAX, VALUE_MIN};
use vstd::prelude::*;

verus! {

/// A table of statistics as the contracts see it: from a key's bytes to the
/// statistics of the values that came with that key.
pub type Summary = Map<Seq<u8>, StatsView>;

/// The test "this row carries `key`".
pub open spec fn carries(key: Seq<u8>) -> spec_fn(RowView) -> bool {
    |row: RowView| row.key == key
}

/// The values of the rows that carry `key`, in the order of the rows.
pub open spec fn values_for(rows: Seq<RowView>, key: Seq<u8>) -> Seq<int> {
    rows.filter(carries(key)).map_values(|row: RowView| row.value)
}

/// The summary of `rows`: it has an entry for exactly the keys that some row
/// carries, and the entry holds the statistics of that key's values.
pub open spec fn stats_of(rows: Seq<RowView>) -> Summary {
    Map::new(
        |key: Seq<u8>| values_for(rows, key).len() > 0,
        |key: Seq<u8>| StatsView::of_values(values_for(rows, key)),
    )
}

/// The statistics kept under `key`, or those of no value where `summary` has
/// no such entry.
pub open spec fn stats_at(summary: Summary, key: Seq<u8>) -> StatsView {
    if summary.contains_key(key) {
        summary[key]
    } else {
        StatsView::empty()
    }
}

/// The summary that holds every key of `a` and of `b`: a key of both with
/// the merge of its two statistics, a key of one alone with its statistics
/// unchanged.
pub open spec fn merge_maps(a: Summary, b: Summary) -> Summary {
    Map::new(
        |key: Seq<u8>| a.contains_key(key) || b.contains_key(key),
        |key: Seq<u8>|
            if a.contains_key(key) && b.contains_key(key) {
                a[key].merge(b[key])
            } else if a.contains_key(key) {
                a[key]
            } else {
                b[key]
            },
    )
}

/// Every entry of `summary` is well formed.
pub open spec fn summary_wf(summary: Summary) -> bool {
    forall|key: Seq<u8>| summary.contains_key(key) ==> (#[trigger] summary[key]).wf()
}

/// The values picked for a key lie in range where all rows do, and there are
/// no more of them than rows.
pub proof fn lemma_values_for(rows: Seq<RowView>, key: Seq<u8>)
    requires
        rows_in_range(rows),
    ensures
        values_in_range(values_for(rows, key)),
        values_for(rows, key).len() <= rows.len(),
        values_for(rows, key).len() == rows.filter(carries(key)).len(),
{
    let picked = rows.filter(carries(key));
    assert forall|i: int| 0 <= i < picked.len() implies VALUE_MIN <= (#[trigger] picked[i]).value
        <= VALUE_MAX by {
        rows.lemma_filter_contains_rev(carries(key), picked[i]);
    }
}

/// One more row adds its value to the values of its key and to no other.
pub proof fn lemma_values_for_push(rows: Seq<RowView>, row: RowView, key: Seq<u8>)
    ensures
        values_for(rows.push(row), key) == if row.key == key {
            values_for(rows, key).push(row.value)
        } else {
            values_for(rows, key)
        },
{
    rows.lemma_filter_push(row, carries(key));
}

/// The values of a key in a concatenation are those of the first part
/// followed by those of the second.
pub proof fn lemma_values_for_concat(a: Seq<RowView>, b: Seq<RowView>, key: Seq<u8>)
    ensures
        values_for(a + b, key) == values_for(a, key) + values_for(b, key),
{
}

/// In the summary of rows, the count kept under a key is the number of rows
/// that carry the key, and every entry is well formed.
pub proof fn lemma_stats_of(rows: Seq<RowView>)
    requires
        rows_in_range(rows),
    ensures
        summary_wf(stats_of(rows)),
        forall|key: Seq<u8>| #[trigger]
            stats_of(rows).contains_key(key) <==> rows.filter(carries(key)).len() > 0,
        forall|key: Seq<u8>| #[trigger]
            stats_of(rows).contains_key(key) ==> stats_of(rows)[key].count == rows.filter(
                carries(key),
            ).len(),
{
    assert forall|key: Seq<u8>| #[trigger] stats_of(rows).contains_key(key) implies stats_of(
        rows,
    )[key].wf() && stats_of(rows)[key].count == rows.filter(carries(key)).len() by {
        lemma_values_for(rows, key);
        lemma_of_values(values_for(rows, key));
    }
}

/// One more row changes the entry of its key, by one `observe`, and no other.
pub proof fn lemma_stats_of_push(rows: Seq<RowView>, row: RowView)
    ensures
        stats_of(rows.push(row)) == stats_of(rows).insert(
            row.key,
            stats_at(stats_of(rows), row.key).observe(row.value),
        ),
{
    let before = stats_of(rows);
    let after = stats_of(rows.push(row));
    let expected = before.insert(row.key, stats_at(before, row.key).observe(row.value));
    assert forall|key: Seq<u8>| #[trigger]
        after.dom().contains(key) == expected.dom().contains(key) by {
        lemma_values_for_push(rows, row, key);
    }
    assert forall|key: Seq<u8>| #[trigger] after.dom().contains(key) implies after[key]
        == expected[key] by {
        lemma_values_for_push(rows, row, key);
        if row.key == key {
            let old_values = values_for(rows, key);
            let new_values = values_for(rows.push(row), key);
            assert(new_values.drop_last() =~= old_values);
            assert(StatsView::of_values(new_values) == StatsView::of_values(old_values).observe(
                row.value,
            ));
        }
    }
}

/// The summary of a concatenation of rows is the merge of the two summaries.
pub proof fn lemma_stats_of_concat(a: Seq<RowView>, b: Seq<RowView>)
    requires
        rows_in_range(a),
        rows_in_range(b),
    ensures
        stats_of(a + b) == merge_maps(stats_of(a), stats_of(b)),
{
    let whole = stats_of(a + b);
    let merged = merge_maps(stats_of(a), stats_of(b));
    assert forall|key: Seq<u8>| whole.contains_key(key) == merged.contains_key(key) && (
    whole.contains_key(key) ==> whole[key] == merged[key]) by {
        lemma_values_for_concat(a, b, key);
        lemma_values_for(a, key);
        lemma_values_for(b, key);
        lemma_of_values_concat(values_for(a, key), values_for(b, key));
    }
}

/// Merging summaries does not depend on the order of the two operands.
pub proof fn lemma_merge_maps_commutative(a: Summary, b: Summary)
    ensures
        merge_maps(a, b) == merge_maps(b, a),
{
}

/// Merging summaries does not depend on how three operands are grouped.
pub proof fn lemma_merge_maps_associative(a: Summary, b: Summary, c: Summary)
    ensures
        merge_maps(merge_maps(a, b), c) == merge_maps(a, merge_maps(b, c)),
{
}

} // verus!
