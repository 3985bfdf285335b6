//! Merging aggregates into one result that is ordered by key.

use crate::aggregate::AggregateMap;
use crate::key::{key_less, lemma_key_less_irreflexive, lemma_key_less_total};
use crate::key::{lemma_key_less_transitive, order_keys, KeyOrder};
use crate::stats::{lemma_merge_wf, lemma_wf_sum, Stats, StatsView};
use crate::summary::{merge_maps, stats_at, Summary};
use vstd::prelude::*;

verus! {

/// An entry as the contracts see it.
pub struct EntryView {
    pub key: Seq<u8>,
    pub stats: StatsView,
}

/// One key of the result with its merged statistics.
#[derive(Clone, Copy, Debug, PartialEq, Eq)]
pub struct Entry<'a> {
    pub key: &'a [u8],
    pub stats: Stats,
}

impl<'a> View for Entry<'a> {
    type V = EntryView;

    open spec fn view(&self) -> EntryView {
        EntryView { key: self.key@, stats: self.stats@ }
    }
}

/// The entries as the contracts see them.
pub open spec fn entry_views(entries: Seq<Entry>) -> Seq<EntryView> {
    entries.map_values(|e: Entry| e@)
}

/// The keys ascend strictly; so no key comes twice.
pub open spec fn ascending(entries: Seq<EntryView>) -> bool {
    forall|i: int, j: int|
        0 <= i < j < entries.len() ==> key_less(
            (#[trigger] entries[i]).key,
            (#[trigger] entries[j]).key,
        )
}

/// Every entry's statistics are well formed.
pub open spec fn entries_wf(entries: Seq<EntryView>) -> bool {
    forall|i: int| 0 <= i < entries.len() ==> (#[trigger] entries[i]).stats.wf()
}

/// Some entry has the key `key`.
pub open spec fn has_key(entries: Seq<EntryView>, key: Seq<u8>) -> bool {
    exists|i: int| 0 <= i < entries.len() && (#[trigger] entries[i]).key == key
}

/// The place of an entry that has the key `key`.
pub open spec fn place_of(entries: Seq<EntryView>, key: Seq<u8>) -> int {
    choose|i: int| 0 <= i < entries.len() && (#[trigger] entries[i]).key == key
}

/// The summary that the entries spell out.
pub open spec fn summary_of(entries: Seq<EntryView>) -> Summary {
    Map::new(
        |key: Seq<u8>| has_key(entries, key),
        |key: Seq<u8>| entries[place_of(entries, key)].stats,
    )
}

/// The summaries `a` and `b` can be merged within the limits of `Stats`: no
/// key of both has a combined count above `u64::MAX`.
pub open spec fn mergeable(a: Summary, b: Summary) -> bool {
    forall|key: Seq<u8>|
        a.contains_key(key) && b.contains_key(key) ==> (#[trigger] a[key]).count + b[key].count
            <= u64::MAX
}

/// Where keys ascend, an entry is the only one with its key, and the summary
/// holds under that key what the entry holds.
pub proof fn lemma_summary_of(entries: Seq<EntryView>, i: int)
    requires
        ascending(entries),
        0 <= i < entries.len(),
    ensures
        has_key(entries, entries[i].key),
        place_of(entries, entries[i].key) == i,
        summary_of(entries).contains_key(entries[i].key),
        summary_of(entries)[entries[i].key] == entries[i].stats,
{
    lemma_key_less_irreflexive(entries[i].key);
}

/// Putting a new key in its place adds one entry to the summary.
proof fn lemma_summary_insert(entries: Seq<EntryView>, at: int, entry: EntryView)
    requires
        0 <= at <= entries.len(),
        ascending(entries),
        ascending(entries.insert(at, entry)),
    ensures
        summary_of(entries.insert(at, entry)) == summary_of(entries).insert(entry.key, entry.stats),
{
    let grown = entries.insert(at, entry);
    let expected = summary_of(entries).insert(entry.key, entry.stats);
    assert forall|key: Seq<u8>| #[trigger]
        summary_of(grown).dom().contains(key) == expected.dom().contains(key) by {
        if has_key(grown, key) {
            let p = place_of(grown, key);
            assert(p == at || has_key(entries, key));
        }
        if has_key(entries, key) {
            let p = place_of(entries, key);
            if p < at {
                assert(grown[p] == entries[p]);
            } else {
                assert(grown[p + 1] == entries[p]);
            }
        }
        if key == entry.key {
            assert(grown[at] == entry);
        }
    }
    assert forall|key: Seq<u8>| #[trigger] summary_of(grown).dom().contains(key) implies summary_of(
        grown,
    )[key] == expected[key] by {
        let p = place_of(grown, key);
        if p < at {
            lemma_summary_of(entries, p);
            lemma_summary_of(grown, at);
        } else if p > at {
            lemma_summary_of(entries, p - 1);
            lemma_summary_of(grown, at);
        }
    }
}

/// Changing the statistics of one entry changes the summary under that
/// entry's key and nowhere else.
proof fn lemma_summary_update(entries: Seq<EntryView>, at: int, stats: StatsView)
    requires
        0 <= at < entries.len(),
        ascending(entries),
    ensures
        ascending(entries.update(at, EntryView { key: entries[at].key, stats })),
        summary_of(entries.update(at, EntryView { key: entries[at].key, stats })) == summary_of(
            entries,
        ).insert(entries[at].key, stats),
{
    let entry = EntryView { key: entries[at].key, stats };
    let changed = entries.update(at, entry);
    let expected = summary_of(entries).insert(entries[at].key, stats);
    assert forall|key: Seq<u8>| #[trigger]
        summary_of(changed).dom().contains(key) == expected.dom().contains(key) by {
        if has_key(changed, key) {
            let p = place_of(changed, key);
            assert(entries[p].key == key);
        }
        if has_key(entries, key) {
            let p = place_of(entries, key);
            assert(changed[p].key == key);
        }
    }
    assert forall|key: Seq<u8>| #[trigger] summary_of(changed).dom().contains(key) implies summary_of(
        changed,
    )[key] == expected[key] by {
        let p = place_of(changed, key);
        if p != at {
            lemma_summary_of(entries, p);
            lemma_summary_of(entries, at);
        }
    }
}

/// Entries whose keys ascend are fixed by the summary that they spell out:
/// two such sequences with one summary are one sequence.
pub proof fn lemma_ascending_unique(a: Seq<EntryView>, b: Seq<EntryView>)
    requires
        ascending(a),
        ascending(b),
        summary_of(a) == summary_of(b),
    ensures
        a == b,
    decreases a.len(),
{
    if a.len() == 0 {
        if b.len() > 0 {
            lemma_summary_of(b, 0);
        }
    } else {
        let last = a.last();
        lemma_summary_of(a, a.len() - 1);
        let p = place_of(b, last.key);
        if p < b.len() - 1 {
            let beyond = b[p + 1];
            lemma_summary_of(b, p + 1);
            let q = place_of(a, beyond.key);
            lemma_key_less_irreflexive(beyond.key);
            if q < a.len() - 1 {
                lemma_key_less_transitive(a[q].key, last.key, beyond.key);
            }
        }
        let a_init = a.drop_last();
        let b_init = b.drop_last();
        assert forall|key: Seq<u8>| #[trigger]
            summary_of(a_init).dom().contains(key) == summary_of(b_init).dom().contains(key) by {
            lemma_init_has_key(a, key);
            lemma_init_has_key(b, key);
            assert(has_key(b, key) == summary_of(b).contains_key(key));
        }
        assert forall|key: Seq<u8>| #[trigger]
            summary_of(a_init).dom().contains(key) implies summary_of(a_init)[key] == summary_of(
            b_init,
        )[key] by {
            let i = place_of(a_init, key);
            let j = place_of(b_init, key);
            lemma_summary_of(a, i);
            lemma_summary_of(b, j);
        }
        assert(summary_of(a_init) =~= summary_of(b_init));
        lemma_ascending_unique(a_init, b_init);
        assert(b =~= b_init.push(last));
    }
}

/// All entries but the last hold all keys but the last.
proof fn lemma_init_has_key(entries: Seq<EntryView>, key: Seq<u8>)
    requires
        ascending(entries),
        entries.len() > 0,
    ensures
        has_key(entries.drop_last(), key) <==> has_key(entries, key) && key != entries.last().key,
{
    let init = entries.drop_last();
    if has_key(init, key) {
        let i = place_of(init, key);
        assert(entries[i] == init[i]);
        lemma_key_less_irreflexive(key);
    }
    if has_key(entries, key) && key != entries.last().key {
        let i = place_of(entries, key);
        assert(init[i] == entries[i]);
    }
}

/// The entries of `summary` in ascending order of their keys.
pub open spec fn ordered(summary: Summary) -> Seq<EntryView> {
    choose|entries: Seq<EntryView>| ascending(entries) && summary_of(entries) == summary
}

/// Entries whose keys ascend are the ordered entries of their summary.
pub proof fn lemma_ordered(entries: Seq<EntryView>)
    requires
        ascending(entries),
    ensures
        ordered(summary_of(entries)) == entries,
{
    lemma_ascending_unique(ordered(summary_of(entries)), entries);
}

/// Finds `key` among entries whose keys ascend: whether it is there, and its
/// place, or else the place where it would have to stand.
fn locate(entries: &Vec<Entry>, key: &[u8]) -> (r: (bool, usize))
    requires
        ascending(entry_views(entries@)),
    ensures
        r.1 <= entries.len(),
        forall|i: int| 0 <= i < r.1 ==> key_less((#[trigger] entries[i]).key@, key@),
        r.0 ==> r.1 < entries.len() && entries[r.1 as int].key@ == key@,
        !r.0 ==> forall|i: int|
            r.1 <= i < entries.len() ==> key_less(key@, (#[trigger] entries[i]).key@),
        r.0 <==> has_key(entry_views(entries@), key@),
{
    let ghost views = entry_views(entries@);
    let mut lo: usize = 0;
    let mut hi: usize = entries.len();
    while lo < hi
        invariant
            lo <= hi <= entries.len(),
            views == entry_views(entries@),
            ascending(views),
            forall|i: int| 0 <= i < lo ==> key_less((#[trigger] entries[i]).key@, key@),
            forall|i: int| hi <= i < entries.len() ==> key_less(key@, (#[trigger] entries[i]).key@),
        decreases hi - lo,
    {
        let mid = lo + (hi - lo) / 2;
        let probe = entries[mid].key;
        match order_keys(probe, key) {
            KeyOrder::Before => {
                proof {
                    assert forall|i: int| 0 <= i < mid + 1 implies key_less(
                        (#[trigger] entries[i]).key@,
                        key@,
                    ) by {
                        if i < mid {
                            assert(key_less(views[i].key, views[mid as int].key));
                            lemma_key_less_transitive(entries[i].key@, probe@, key@);
                        }
                    }
                }
                lo = mid + 1;
            },
            KeyOrder::Same => {
                proof {
                    assert forall|i: int| 0 <= i < mid implies key_less(
                        (#[trigger] entries[i]).key@,
                        key@,
                    ) by {
                        assert(key_less(views[i].key, views[mid as int].key));
                    }
                    assert(views[mid as int].key == key@);
                }
                return (true, mid);
            },
            KeyOrder::After => {
                proof {
                    lemma_key_less_total(probe@, key@);
                    assert forall|i: int| mid <= i < entries.len() implies key_less(
                        key@,
                        (#[trigger] entries[i]).key@,
                    ) by {
                        if i > mid {
                            assert(key_less(views[mid as int].key, views[i].key));
                            lemma_key_less_transitive(key@, probe@, entries[i].key@);
                        }
                    }
                }
                hi = mid;
            },
        }
    }
    proof {
        if has_key(views, key@) {
            lemma_key_less_irreflexive(key@);
        }
    }
    (false, lo)
}

/// Merges `stats` into what `entries` keeps under `key`, or puts a new entry
/// in the place that keeps the keys ascending.
fn merge_entry<'a>(entries: &mut Vec<Entry<'a>>, key: &'a [u8], stats: Stats)
    requires
        ascending(entry_views(old(entries)@)),
        entries_wf(entry_views(old(entries)@)),
        stats@.wf(),
        stats_at(summary_of(entry_views(old(entries)@)), key@).count + stats.count <= u64::MAX,
    ensures
        ascending(entry_views(final(entries)@)),
        entries_wf(entry_views(final(entries)@)),
        summary_of(entry_views(final(entries)@)) == summary_of(entry_views(old(entries)@)).insert(
            key@,
            stats_at(summary_of(entry_views(old(entries)@)), key@).merge(stats@),
        ),
{
    let ghost before = entry_views(entries@);
    let (found, at) = locate(entries, key);
    if found {
        let kept = entries[at];
        proof {
            lemma_summary_of(before, at as int);
            lemma_wf_sum(kept.stats@);
            lemma_wf_sum(stats@);
            lemma_merge_wf(kept.stats@, stats@);
        }
        let merged = Entry { key: kept.key, stats: kept.stats.merge(stats) };
        entries.set(at, merged);
        proof {
            lemma_summary_update(before, at as int, merged.stats@);
            assert(entry_views(entries@) =~= before.update(at as int, merged@));
        }
    } else {
        let entry = Entry { key, stats };
        entries.insert(at, entry);
        proof {
            let grown = before.insert(at as int, entry@);
            assert(entry_views(entries@) =~= grown);
            lemma_summary_insert(before, at as int, entry@);
        }
    }
}

/// The items as entries, in the order of the items.
spec fn item_views(items: Seq<(&[u8], Stats)>) -> Seq<EntryView> {
    items.map_values(|item: (&[u8], Stats)| EntryView { key: item.0@, stats: item.1@ })
}

/// Items that list each entry of `summary` once spell out `summary`, whatever
/// their order; and as many of them as have been taken up hold no key of the
/// items still to come.
proof fn lemma_items_spell(items: Seq<EntryView>, summary: Summary, n: int)
    requires
        0 <= n <= items.len(),
        forall|i: int|
            0 <= i < items.len() ==> {
                &&& summary.contains_key((#[trigger] items[i]).key)
                &&& summary[items[i].key] == items[i].stats
            },
        forall|i: int, j: int|
            0 <= i < j < items.len() ==> (#[trigger] items[i]).key != (#[trigger] items[j]).key,
        forall|key: Seq<u8>| #[trigger]
            summary.contains_key(key) ==> exists|i: int|
                0 <= i < items.len() && (#[trigger] items[i]).key == key,
    ensures
        n < items.len() ==> !summary_of(items.take(n)).contains_key(items[n].key),
        n < items.len() ==> summary_of(items.take(n + 1)) == summary_of(items.take(n)).insert(
            items[n].key,
            items[n].stats,
        ),
        n == items.len() ==> summary_of(items.take(n)) == summary,
        n == 0 ==> summary_of(items.take(n)) == Map::<Seq<u8>, StatsView>::empty(),
{
    let taken = items.take(n);
    if n < items.len() {
        let more = items.take(n + 1);
        let expected = summary_of(taken).insert(items[n].key, items[n].stats);
        assert forall|key: Seq<u8>| #[trigger]
            summary_of(more).dom().contains(key) == expected.dom().contains(key) by {
            if key == items[n].key {
                assert(more[n] == items[n]);
            }
        }
    }
    if n == items.len() {
        assert forall|key: Seq<u8>| #[trigger]
            summary_of(taken).dom().contains(key) == summary.dom().contains(key) by {
            if summary.contains_key(key) {
                let i = choose|i: int| 0 <= i < items.len() && (#[trigger] items[i]).key == key;
                assert(taken[i].key == key);
            }
        }
    }
}

/// The merged statistics of every key, ordered by the bytes of the keys.
pub struct GlobalResult<'a> {
    entries: Vec<Entry<'a>>,
}

impl<'a> View for GlobalResult<'a> {
    type V = Seq<EntryView>;

    closed spec fn view(&self) -> Seq<EntryView> {
        entry_views(self.entries@)
    }
}

impl<'a> GlobalResult<'a> {
    #[verifier::type_invariant]
    spec fn inv(&self) -> bool {
        &&& ascending(entry_views(self.entries@))
        &&& entries_wf(entry_views(self.entries@))
    }

    /// The summary that the result spells out.
    pub open spec fn summary(&self) -> Summary {
        summary_of(self@)
    }

    /// A result without entries.
    pub fn new() -> (result: GlobalResult<'a>)
        ensures
            result@ == Seq::<EntryView>::empty(),
            result.summary() == Map::<Seq<u8>, StatsView>::empty(),
            result@ == ordered(result.summary()),
    {
        let result = GlobalResult { entries: Vec::new() };
        proof {
            lemma_ordered(result@);
        }
        result
    }

    /// The number of keys.
    pub fn len(&self) -> (n: usize)
        ensures
            n == self@.len(),
    {
        self.entries.len()
    }

    /// The entries in ascending order of their keys; every key once, with
    /// well-formed statistics.
    pub fn entries(&self) -> (entries: &[Entry<'a>])
        ensures
            entry_views(entries@) == self@,
            self@ == ordered(self.summary()),
            ascending(self@),
            entries_wf(self@),
    {
        proof {
            use_type_invariant(self);
            lemma_ordered(self@);
        }
        self.entries.as_slice()
    }

    /// The statistics kept under `key`, if there are any.
    pub fn get(&self, key: &[u8]) -> (found: Option<Stats>)
        ensures
            match found {
                Some(stats) => self.summary().contains_key(key@) && self.summary()[key@] == stats@,
                None => !self.summary().contains_key(key@),
            },
    {
        proof {
            use_type_invariant(self);
        }
        let (found, at) = locate(&self.entries, key);
        if found {
            proof {
                lemma_summary_of(self@, at as int);
            }
            Some(self.entries[at].stats)
        } else {
            None
        }
    }

    /// Tells whether `absorb` can take `map` in: whether every key that the
    /// result and `map` share has a combined count of at most `u64::MAX`.
    pub fn can_absorb(&self, map: &AggregateMap<'a>) -> (ok: bool)
        ensures
            ok == mergeable(self.summary(), map@),
    {
        proof {
            use_type_invariant(self);
        }
        let items = map.entries();
        let mut i: usize = 0;
        while i < items.len()
            invariant
                i <= items.len(),
                ascending(self@),
                self@ == entry_views(self.entries@),
                forall|k: int|
                    0 <= k < items.len() ==> {
                        &&& map@.contains_key((#[trigger] items[k]).0@)
                        &&& map@[items[k].0@] == items[k].1@
                    },
                forall|key: Seq<u8>| #[trigger]
                    map@.contains_key(key) ==> exists|k: int|
                        0 <= k < items.len() && (#[trigger] items[k]).0@ == key,
                forall|k: int|
                    0 <= k < i ==> stats_at(self.summary(), (#[trigger] items[k]).0@).count
                        + items[k].1.count <= u64::MAX,
            decreases items.len() - i,
        {
            let (key, stats) = items[i];
            let (found, at) = locate(&self.entries, key);
            if found {
                proof {
                    lemma_summary_of(self@, at as int);
                }
                if self.entries[at].stats.count.checked_add(stats.count).is_none() {
                    return false;
                }
            }
            i += 1;
        }
        true
    }

    /// Merges `map` into the result: a key of both gets the merge of its two
    /// statistics, a key of `map` alone comes in as it is, and a key of the
    /// result alone stays as it is.
    pub fn absorb(&mut self, map: &AggregateMap<'a>)
        requires
            mergeable(old(self).summary(), map@),
        ensures
            final(self).summary() == merge_maps(old(self).summary(), map@),
            final(self)@ == ordered(final(self).summary()),
    {
        proof {
            use_type_invariant(&*self);
        }
        let items = map.entries();
        let ghost before = self.summary();
        let ghost views = item_views(items@);
        proof {
            assert forall|key: Seq<u8>| #[trigger] map@.contains_key(key) implies exists|k: int|
                0 <= k < views.len() && (#[trigger] views[k]).key == key by {
                let k = choose|k: int| 0 <= k < items.len() && (#[trigger] items[k]).0@ == key;
                assert(views[k].key == key);
            }
        }
        let mut entries: Vec<Entry<'a>> = Vec::new();
        core::mem::swap(&mut self.entries, &mut entries);
        let mut i: usize = 0;
        while i < items.len()
            invariant
                i <= items.len(),
                views == item_views(items@),
                ascending(entry_views(entries@)),
                entries_wf(entry_views(entries@)),
                mergeable(before, map@),
                forall|k: int|
                    0 <= k < views.len() ==> {
                        &&& map@.contains_key((#[trigger] views[k]).key)
                        &&& map@[views[k].key] == views[k].stats
                        &&& views[k].stats.wf()
                    },
                forall|k: int, j: int|
                    0 <= k < j < views.len() ==> (#[trigger] views[k]).key != (
                    #[trigger] views[j]).key,
                forall|key: Seq<u8>| #[trigger]
                    map@.contains_key(key) ==> exists|k: int|
                        0 <= k < views.len() && (#[trigger] views[k]).key == key,
                summary_of(entry_views(entries@)) == merge_maps(
                    before,
                    summary_of(views.take(i as int)),
                ),
            decreases items.len() - i,
        {
            let (key, stats) = items[i];
            proof {
                lemma_items_spell(views, map@, i as int);
            }
            merge_entry(&mut entries, key, stats);
            i += 1;
        }
        proof {
            lemma_items_spell(views, map@, i as int);
            lemma_ordered(entry_views(entries@));
        }
        self.entries = entries;
    }
}

} // verus!
