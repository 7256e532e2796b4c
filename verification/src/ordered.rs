//! The ordered index of one column: its entries, kept sorted, for range
//! lookups.
//!
//! An entry pairs a value with the identifier of a record that holds it.
//! A value may have several entries, one per record, so a lookup returns
//! every record of a value and not a single representative.

use crate::sorted::ascending;
use vstd::prelude::*;

verus! {

/// The order of entries: by value, then by record identifier.
pub open spec fn entry_lt(a: (i64, usize), b: (i64, usize)) -> bool {
    a.0 < b.0 || (a.0 == b.0 && a.1 < b.1)
}

/// Strictly ascending in the order of entries, hence without repeats.
pub open spec fn strictly_sorted(entries: Seq<(i64, usize)>) -> bool {
    forall|i: int, j: int|
        0 <= i < j < entries.len() ==> entry_lt(#[trigger] entries[i], #[trigger] entries[j])
}

/// The entries whose value lies in `begin..=end`.
pub open spec fn in_range(begin: i64, end: i64) -> spec_fn((i64, usize)) -> bool {
    |entry: (i64, usize)| begin <= entry.0 <= end
}

/// The record identifiers of the entries whose value lies in `begin..=end`,
/// in the order of the entries.
pub open spec fn rids_in_range(entries: Seq<(i64, usize)>, begin: i64, end: i64) -> Seq<usize> {
    entries.filter(in_range(begin, end)).map_values(|entry: (i64, usize)| entry.1)
}

/// A record identifier is among those of a range exactly if some entry
/// pairs it with a value of the range.
pub proof fn lemma_rids_in_range_contains(
    entries: Seq<(i64, usize)>,
    begin: i64,
    end: i64,
    rid: usize,
)
    ensures
        rids_in_range(entries, begin, end).contains(rid) <==> exists|value: i64|
            begin <= value <= end && entries.contains((value, rid)),
{
    broadcast use vstd::seq_lib::group_filter_ensures;

    let kept = entries.filter(in_range(begin, end));
    let rids = rids_in_range(entries, begin, end);
    if rids.contains(rid) {
        let i = choose|i: int| 0 <= i < rids.len() && rids[i] == rid;
        let entry = kept[i];
        assert(kept.contains(entry));
        entries.lemma_filter_contains_rev(in_range(begin, end), entry);
        assert(in_range(begin, end)(entry));
        assert(entries.contains((entry.0, rid)));
    }
    if exists|value: i64| begin <= value <= end && entries.contains((value, rid)) {
        let value = choose|value: i64| begin <= value <= end && entries.contains((value, rid));
        let i = choose|i: int| 0 <= i < entries.len() && entries[i] == (value, rid);
        assert(in_range(begin, end)(entries[i]));
        assert(kept.contains(entries[i]));
        let j = choose|j: int| 0 <= j < kept.len() && kept[j] == (value, rid);
        assert(rids[j] == rid);
    }
}

/// Filtering keeps the order of a sorted sequence.
pub proof fn lemma_filter_sorted(entries: Seq<(i64, usize)>, keep: spec_fn((i64, usize)) -> bool)
    requires
        strictly_sorted(entries),
    ensures
        strictly_sorted(entries.filter(keep)),
        forall|i: int|
            0 <= i < entries.filter(keep).len() ==> entries.contains(
                #[trigger] entries.filter(keep)[i],
            ),
    decreases entries.len(),
{
    reveal(Seq::filter);
    if entries.len() > 0 {
        let rest = entries.drop_last();
        assert(strictly_sorted(rest)) by {
            assert forall|i: int, j: int| 0 <= i < j < rest.len() implies entry_lt(
                #[trigger] rest[i],
                #[trigger] rest[j],
            ) by {
                assert(entry_lt(entries[i], entries[j]));
            }
        }
        lemma_filter_sorted(rest, keep);
        let kept = entries.filter(keep);
        let kept_rest = rest.filter(keep);
        assert forall|i: int| 0 <= i < kept.len() implies entries.contains(#[trigger] kept[i]) by {
            if i < kept_rest.len() {
                assert(rest.contains(kept_rest[i]));
                let k = choose|k: int| 0 <= k < rest.len() && rest[k] == kept_rest[i];
                assert(entries[k] == kept[i]);
            } else {
                assert(entries[entries.len() - 1] == kept[i]);
            }
        }
        assert forall|i: int, j: int| 0 <= i < j < kept.len() implies entry_lt(
            #[trigger] kept[i],
            #[trigger] kept[j],
        ) by {
            if j < kept_rest.len() {
                assert(entry_lt(kept_rest[i], kept_rest[j]));
            } else {
                assert(rest.contains(kept_rest[i]));
                let k = choose|k: int| 0 <= k < rest.len() && rest[k] == kept_rest[i];
                assert(entry_lt(entries[k], entries[entries.len() - 1]));
            }
        }
    }
}

/// No entries, no records.
pub proof fn lemma_rids_of_nothing(begin: i64, end: i64)
    ensures
        rids_in_range(Seq::<(i64, usize)>::empty(), begin, end).len() == 0,
{
    Seq::<(i64, usize)>::empty().lemma_filter_len(in_range(begin, end));
}

/// The records of a single value come out in ascending order.
pub proof fn lemma_rids_of_value_ascending(entries: Seq<(i64, usize)>, value: i64)
    requires
        strictly_sorted(entries),
    ensures
        ascending(rids_in_range(entries, value, value)),
{
    broadcast use vstd::seq_lib::group_filter_ensures;

    lemma_filter_sorted(entries, in_range(value, value));
    let kept = entries.filter(in_range(value, value));
    let rids = rids_in_range(entries, value, value);
    assert forall|i: int, j: int| 0 <= i < j < rids.len() implies #[trigger] rids[i]
        < #[trigger] rids[j] by {
        assert(entry_lt(kept[i], kept[j]));
        assert(in_range(value, value)(kept[i]));
        assert(in_range(value, value)(kept[j]));
    }
}

/// The entries of one column in ascending order.
pub struct OrderedIndex {
    entries: Vec<(i64, usize)>,
}

impl View for OrderedIndex {
    type V = Seq<(i64, usize)>;

    closed spec fn view(&self) -> Seq<(i64, usize)> {
        self.entries@
    }
}

impl OrderedIndex {
    /// The entries are strictly sorted.
    pub open spec fn wf(&self) -> bool {
        strictly_sorted(self@)
    }

    /// An index without entries.
    pub fn new() -> (index: OrderedIndex)
        ensures
            index.wf(),
            index@.len() == 0,
    {
        OrderedIndex { entries: Vec::new() }
    }

    /// Number of entries.
    pub fn len(&self) -> (n: usize)
        ensures
            n == self@.len(),
    {
        self.entries.len()
    }

    /// The entry at `position`.
    pub fn entry(&self, position: usize) -> (entry: (i64, usize))
        requires
            position < self@.len(),
        ensures
            entry == self@[position as int],
    {
        self.entries[position]
    }

    /// The position of the first entry that is not below `(value, rid)`.
    fn lower_bound(&self, value: i64, rid: usize) -> (position: usize)
        requires
            self.wf(),
        ensures
            position <= self@.len(),
            forall|i: int| 0 <= i < position ==> entry_lt(#[trigger] self@[i], (value, rid)),
            forall|i: int|
                position <= i < self@.len() ==> !entry_lt(#[trigger] self@[i], (value, rid)),
    {
        let mut low: usize = 0;
        let mut high: usize = self.entries.len();
        while low < high
            invariant
                self.wf(),
                low <= high <= self@.len(),
                forall|i: int| 0 <= i < low ==> entry_lt(#[trigger] self@[i], (value, rid)),
                forall|i: int|
                    high <= i < self@.len() ==> !entry_lt(#[trigger] self@[i], (value, rid)),
            decreases high - low,
        {
            let middle = low + (high - low) / 2;
            let entry = self.entries[middle];
            if entry.0 < value || (entry.0 == value && entry.1 < rid) {
                assert forall|i: int| 0 <= i < middle + 1 implies entry_lt(
                    #[trigger] self@[i],
                    (value, rid),
                ) by {
                    if i < middle {
                        assert(entry_lt(self@[i], self@[middle as int]));
                    }
                }
                low = middle + 1;
            } else {
                assert forall|i: int| middle <= i < self@.len() implies !entry_lt(
                    #[trigger] self@[i],
                    (value, rid),
                ) by {
                    if middle < i {
                        assert(entry_lt(self@[middle as int], self@[i]));
                    }
                }
                high = middle;
            }
        }
        low
    }

    /// Whether the index holds the entry `(value, rid)`.
    pub fn contains(&self, value: i64, rid: usize) -> (found: bool)
        requires
            self.wf(),
        ensures
            found == self@.contains((value, rid)),
    {
        let position = self.lower_bound(value, rid);
        if position < self.entries.len() {
            let entry = self.entries[position];
            if entry.0 == value && entry.1 == rid {
                assert(self@[position as int] == (value, rid));
                return true;
            }
        }
        proof {
            self.lemma_absent(value, rid, position as int);
        }
        false
    }

    /// An entry that is not at its position is not in the index.
    proof fn lemma_absent(&self, value: i64, rid: usize, position: int)
        requires
            self.wf(),
            0 <= position <= self@.len(),
            forall|i: int| 0 <= i < position ==> entry_lt(#[trigger] self@[i], (value, rid)),
            forall|i: int|
                position <= i < self@.len() ==> !entry_lt(#[trigger] self@[i], (value, rid)),
            position < self@.len() ==> self@[position] != (value, rid),
        ensures
            !self@.contains((value, rid)),
            forall|i: int| position <= i < self@.len() ==> entry_lt((value, rid),
                #[trigger] self@[i]),
    {
        assert forall|i: int| position <= i < self@.len() implies entry_lt(
            (value, rid),
            #[trigger] self@[i],
        ) by {
            assert(!entry_lt(self@[position], (value, rid)));
            if position < i {
                assert(entry_lt(self@[position], self@[i]));
            }
        }
        if self@.contains((value, rid)) {
            let i = choose|i: int| 0 <= i < self@.len() && self@[i] == (value, rid);
            if i < position {
                assert(entry_lt(self@[i], (value, rid)));
            } else {
                assert(entry_lt((value, rid), self@[i]));
            }
        }
    }

    /// Adds the entry `(value, rid)` at its place and reports whether it was
    /// new; an entry that is present already is not added again.
    pub fn insert(&mut self, value: i64, rid: usize) -> (added: bool)
        requires
            old(self).wf(),
        ensures
            final(self).wf(),
            added == !old(self)@.contains((value, rid)),
            final(self)@.len() == old(self)@.len() + if added {
                1int
            } else {
                0int
            },
            forall|entry: (i64, usize)|
                #[trigger] final(self)@.contains(entry) <==> old(self)@.contains(entry) || entry
                    == (
                    value,
                    rid,
                ),
    {
        let position = self.lower_bound(value, rid);
        if position < self.entries.len() {
            let entry = self.entries[position];
            if entry.0 == value && entry.1 == rid {
                assert(self@[position as int] == (value, rid));
                return false;
            }
        }
        proof {
            self.lemma_absent(value, rid, position as int);
        }
        self.entries.insert(position, (value, rid));
        proof {
            let before = old(self)@;
            let after = self@;
            assert forall|i: int, j: int| 0 <= i < j < after.len() implies entry_lt(
                #[trigger] after[i],
                #[trigger] after[j],
            ) by {
                if j < position {
                    assert(entry_lt(before[i], before[j]));
                } else if j == position {
                    assert(entry_lt(before[i], (value, rid)));
                } else if i < position {
                    assert(entry_lt(before[i], before[j - 1]));
                } else if i == position {
                    assert(entry_lt((value, rid), before[j - 1]));
                } else {
                    assert(entry_lt(before[i - 1], before[j - 1]));
                }
            }
            assert forall|entry: (i64, usize)| #[trigger]
                after.contains(entry) <==> before.contains(entry) || entry == (value, rid) by {
                if after.contains(entry) {
                    let i = choose|i: int| 0 <= i < after.len() && after[i] == entry;
                    if i < position {
                        assert(before[i] == entry);
                    } else if i > position {
                        assert(before[i - 1] == entry);
                    }
                }
                if before.contains(entry) {
                    let i = choose|i: int| 0 <= i < before.len() && before[i] == entry;
                    if i < position {
                        assert(after[i] == entry);
                    } else {
                        assert(after[i + 1] == entry);
                    }
                }
                if entry == (value, rid) {
                    assert(after[position as int] == entry);
                }
            }
        }
        true
    }

    /// Removes the entry `(value, rid)` and reports whether it was there.
    pub fn remove(&mut self, value: i64, rid: usize) -> (removed: bool)
        requires
            old(self).wf(),
        ensures
            final(self).wf(),
            removed == old(self)@.contains((value, rid)),
            final(self)@.len() == old(self)@.len() - if removed {
                1int
            } else {
                0int
            },
            forall|entry: (i64, usize)|
                #[trigger] final(self)@.contains(entry) <==> old(self)@.contains(entry) && entry
                    != (
                    value,
                    rid,
                ),
    {
        let position = self.lower_bound(value, rid);
        if position < self.entries.len() {
            let entry = self.entries[position];
            if entry.0 == value && entry.1 == rid {
                assert(self@[position as int] == (value, rid));
                self.entries.remove(position);
                proof {
                    let before = old(self)@;
                    let after = self@;
                    assert forall|i: int, j: int| 0 <= i < j < after.len() implies entry_lt(
                        #[trigger] after[i],
                        #[trigger] after[j],
                    ) by {
                        let x = if i < position { i } else { i + 1 };
                        let y = if j < position { j } else { j + 1 };
                        assert(entry_lt(before[x], before[y]));
                    }
                    assert forall|entry: (i64, usize)| #[trigger]
                        after.contains(entry) <==> before.contains(entry) && entry != (
                            value,
                            rid,
                        ) by {
                        if after.contains(entry) {
                            let i = choose|i: int| 0 <= i < after.len() && after[i] == entry;
                            let x = if i < position { i } else { i + 1 };
                            assert(before[x] == entry);
                            if x < position {
                                assert(entry_lt(before[x], before[position as int]));
                            } else {
                                assert(entry_lt(before[position as int], before[x]));
                            }
                        }
                        if before.contains(entry) && entry != (value, rid) {
                            let i = choose|i: int| 0 <= i < before.len() && before[i] == entry;
                            if i < position {
                                assert(after[i] == entry);
                            } else {
                                assert(after[i - 1] == entry);
                            }
                        }
                    }
                }
                return true;
            }
        }
        proof {
            self.lemma_absent(value, rid, position as int);
        }
        false
    }

    /// The record identifiers of the entries whose value lies in
    /// `begin..=end`, both ends included, in the order of the entries.
    pub fn range(&self, begin: i64, end: i64) -> (rids: Vec<usize>)
        requires
            self.wf(),
        ensures
            rids@ == rids_in_range(self@, begin, end),
    {
        let ghost keep = in_range(begin, end);
        let ghost rid_of = |entry: (i64, usize)| entry.1;
        let start = self.lower_bound(begin, 0);
        let mut rids: Vec<usize> = Vec::new();
        let mut position = start;
        proof {
            let prefix = self@.take(start as int);
            assert(prefix.all(|entry: (i64, usize)| !keep(entry))) by {
                assert forall|i: int| 0 <= i < prefix.len() implies !keep(#[trigger] prefix[i]) by {
                    assert(entry_lt(self@[i], (begin, 0usize)));
                }
            }
            prefix.lemma_all_neg_filter_empty(keep);
            assert(rids@ =~= prefix.filter(keep).map_values(rid_of));
        }
        while position < self.entries.len() && self.entries[position].0 <= end
            invariant
                self.wf(),
                start <= position <= self@.len(),
                keep == in_range(begin, end),
                rid_of == |entry: (i64, usize)| entry.1,
                forall|i: int|
                    start <= i < self@.len() ==> !entry_lt(#[trigger] self@[i], (begin, 0usize)),
                rids@ == self@.take(position as int).filter(keep).map_values(rid_of),
            decreases self@.len() - position,
        {
            let entry = self.entries[position];
            proof {
                let shorter = self@.take(position as int);
                let longer = self@.take(position + 1);
                assert(!entry_lt(self@[position as int], (begin, 0usize)));
                assert(keep(entry));
                assert(longer.drop_last() =~= shorter);
                assert(longer.last() == entry);
                reveal(Seq::filter);
                assert(longer.filter(keep) == shorter.filter(keep).push(entry));
                assert(longer.filter(keep).map_values(rid_of) =~= shorter.filter(keep).map_values(
                    rid_of,
                ).push(entry.1));
            }
            rids.push(entry.1);
            position += 1;
        }
        proof {
            let prefix = self@.take(position as int);
            let suffix = self@.skip(position as int);
            assert(suffix.all(|entry: (i64, usize)| !keep(entry))) by {
                assert forall|i: int| 0 <= i < suffix.len() implies !keep(#[trigger] suffix[i]) by {
                    if i > 0 {
                        assert(entry_lt(self@[position as int], self@[position + i]));
                    }
                }
            }
            suffix.lemma_all_neg_filter_empty(keep);
            assert(self@ =~= prefix + suffix);
            Seq::filter_distributes_over_add(prefix, suffix, keep);
            assert(self@.filter(keep) =~= prefix.filter(keep));
        }
        rids
    }
}

} // verus!
