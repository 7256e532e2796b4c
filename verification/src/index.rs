//! The secondary index of a table: per column an optional hash index and an
//! optional ordered index over the current values of the live records.
//!
//! Both structures of a column are built together and dropped together, and
//! both hold the same entries: one for every record and value handed to the
//! index. Null values are not indexed. A lookup prefers the index and falls
//! back to a scan of the column where the index has no answer.

use crate::hashed::{resized, HashIndex, INITIAL_BUCKETS};
use crate::ordered::{
    lemma_rids_in_range_contains, lemma_rids_of_nothing, lemma_rids_of_value_ascending,
    rids_in_range, strictly_sorted, OrderedIndex,
};
use crate::sorted::lemma_ascending_unique;
use crate::storage::Storage;
use vstd::prelude::*;

verus! {

/// The two structures of a column are well formed and hold the same
/// entries, and the hash index counts them right.
pub open spec fn paired(hash: &HashIndex, ordered: &OrderedIndex) -> bool {
    &&& hash.wf()
    &&& ordered.wf()
    &&& hash.count() == ordered@.len()
    &&& forall|value: i64, rid: usize| #[trigger]
        hash.contains(value, rid) <==> ordered@.contains((value, rid))
}

/// Adds an entry to both structures of a column, and lets the hash index
/// grow where the entry takes it over the load factor.
fn add_entry(hash: &mut HashIndex, ordered: &mut OrderedIndex, value: i64, rid: usize)
    requires
        paired(old(hash), old(ordered)),
    ensures
        paired(final(hash), final(ordered)),
        forall|entry: (i64, usize)|
            #[trigger] final(ordered)@.contains(entry) <==> old(ordered)@.contains(entry) || entry
                == (value, rid),
        final(ordered)@.len() == old(ordered)@.len() + if old(ordered)@.contains((value, rid)) {
            0int
        } else {
            1int
        },
        final(hash).num_buckets() == if old(ordered)@.contains((value, rid)) {
            old(hash).num_buckets() as int
        } else {
            resized(final(ordered)@.len() as int, old(hash).num_buckets() as int)
        },
{
    if ordered.insert(value, rid) {
        let n = ordered.len();
        hash.insert(value, rid);
        hash.check_and_resize();
    }
}

/// Removes an entry from both structures of a column.
fn remove_entry(hash: &mut HashIndex, ordered: &mut OrderedIndex, value: i64, rid: usize)
    requires
        paired(old(hash), old(ordered)),
    ensures
        paired(final(hash), final(ordered)),
        final(hash).num_buckets() == old(hash).num_buckets(),
        forall|entry: (i64, usize)|
            #[trigger] final(ordered)@.contains(entry) <==> old(ordered)@.contains(entry) && entry
                != (value, rid),
        final(ordered)@.len() == old(ordered)@.len() - if old(ordered)@.contains((value, rid)) {
            1int
        } else {
            0int
        },
{
    if ordered.remove(value, rid) {
        hash.remove(value, rid);
    }
}

/// The bucket count of the hash index of a column of `count` entries and
/// `buckets` buckets after an entry was offered to it: where the entry is
/// `fresh` it is added and the load factor checked, else nothing changes.
pub open spec fn buckets_after_entry(buckets: int, count: int, fresh: bool) -> int {
    if fresh {
        resized(count + 1, buckets)
    } else {
        buckets
    }
}

/// The bucket count of a hash index that was built from nothing by adding
/// `count` entries one by one.
pub open spec fn buckets_when_built(count: int) -> int
    decreases count,
{
    if count <= 0 {
        INITIAL_BUCKETS as int
    } else {
        resized(count, buckets_when_built(count - 1))
    }
}

/// The bucket count of the hash index of a column after `steps` records,
/// one after the other, were moved in it from the value `from` to the value
/// `to`, where `buckets` and `count` are the numbers of buckets and of
/// entries before the first move. A move to null adds nothing, so the load
/// factor is not checked; a move from a proper value keeps the number of
/// entries; a move from null raises it by one.
pub open spec fn buckets_after_moves(
    buckets: int,
    count: int,
    steps: int,
    from: Option<i64>,
    to: Option<i64>,
) -> int
    decreases steps,
{
    if steps <= 0 || to is None {
        buckets
    } else {
        resized(
            if from is None {
                count + steps
            } else {
                count
            },
            buckets_after_moves(buckets, count, steps - 1, from, to),
        )
    }
}

/// The index of a table.
pub struct Index {
    num_columns: usize,
    key: usize,
    hash_indices: Vec<Option<HashIndex>>,
    ordered_indices: Vec<Option<OrderedIndex>>,
}

impl Index {
    /// Number of columns of the indexed table.
    pub closed spec fn num_columns(&self) -> nat {
        self.num_columns as nat
    }

    /// The key column of the indexed table.
    pub closed spec fn key(&self) -> nat {
        self.key as nat
    }

    /// Whether `column` has an index.
    pub closed spec fn is_indexed(&self, column: int) -> bool {
        0 <= column < self.ordered_indices@.len() && self.ordered_indices@[column] is Some
    }

    /// The entries of the index of `column`, in order; none where the
    /// column has no index.
    pub closed spec fn entries(&self, column: int) -> Seq<(i64, usize)> {
        if self.is_indexed(column) {
            self.ordered_indices@[column]->0@
        } else {
            Seq::empty()
        }
    }

    /// Number of buckets of the hash index of `column`; zero where the
    /// column has no index.
    pub closed spec fn num_buckets(&self, column: int) -> nat {
        if 0 <= column < self.hash_indices@.len() && self.hash_indices@[column] is Some {
            self.hash_indices@[column]->0.num_buckets()
        } else {
            0
        }
    }

    /// Every column has both structures or neither; where it has them, each
    /// is well formed and the two hold the same entries.
    pub closed spec fn wf(&self) -> bool {
        &&& self.hash_indices@.len() == self.num_columns
        &&& self.ordered_indices@.len() == self.num_columns
        &&& forall|c: int| 0 <= c < self.num_columns ==> self.column_wf(c)
    }

    spec fn column_wf(&self, c: int) -> bool {
        match (self.hash_indices@[c], self.ordered_indices@[c]) {
            (Some(hash), Some(ordered)) => paired(&hash, &ordered),
            (None, None) => true,
            _ => false,
        }
    }

    /// What a point lookup returns: the records that the index holds for
    /// the value and, where it holds none, what a scan of the column finds.
    pub open spec fn located(&self, column: int, value: i64, storage: &Storage) -> Seq<usize> {
        let hits = rids_in_range(self.entries(column), value, value);
        if hits.len() > 0 {
            hits
        } else {
            storage.matching(column, Some(value))
        }
    }

    /// What a range lookup returns, the ends given in either order: the
    /// records that the index holds for the values of the range and, where
    /// it holds none, what a scan of the column finds.
    pub open spec fn located_range(
        &self,
        begin: i64,
        end: i64,
        column: int,
        storage: &Storage,
    ) -> Seq<usize> {
        let low = if begin > end { end } else { begin };
        let high = if begin > end { begin } else { end };
        let hits = rids_in_range(self.entries(column), low, high);
        if hits.len() > 0 {
            hits
        } else {
            storage.matching_range(column, low, high)
        }
    }

    /// Whether the index of `column`, if there is one, holds exactly the
    /// current non-null values of the live records of `storage`.
    pub open spec fn consistent(&self, storage: &Storage, column: int) -> bool {
        self.is_indexed(column) ==> forall|value: i64, rid: usize| #[trigger]
            self.entries(column).contains((value, rid)) <==> storage.is_live(rid as int)
                && storage.current(rid as int, column) == Some(value)
    }

    /// An index stays well formed when one of its columns changes and the
    /// two structures of that column still go together.
    proof fn lemma_one_column_changed(&self, before: &Index, column: int)
        requires
            before.wf(),
            0 <= column < before.num_columns,
            self.num_columns == before.num_columns,
            self.hash_indices@.len() == before.hash_indices@.len(),
            self.ordered_indices@.len() == before.ordered_indices@.len(),
            forall|c: int|
                0 <= c < before.num_columns && c != column ==> self.hash_indices@[c]
                    == before.hash_indices@[c] && self.ordered_indices@[c]
                    == before.ordered_indices@[c],
            self.column_wf(column),
        ensures
            self.wf(),
    {
        assert forall|c: int| 0 <= c < self.num_columns implies self.column_wf(c) by {
            if c != column {
                assert(before.column_wf(c));
            }
        }
    }

    /// A column without an index has no entries and no buckets.
    pub proof fn lemma_unindexed_empty(&self, column: int)
        requires
            self.wf(),
        ensures
            !self.is_indexed(column) ==> self.entries(column) == Seq::<(i64, usize)>::empty()
                && self.num_buckets(column) == 0,
    {
        if 0 <= column < self.num_columns {
            assert(self.column_wf(column));
        }
    }

    /// The entries of a column are strictly sorted.
    pub proof fn lemma_entries_sorted(&self, column: int)
        requires
            self.wf(),
        ensures
            strictly_sorted(self.entries(column)),
    {
        if self.is_indexed(column) {
            assert(self.column_wf(column));
        }
    }

    /// An index for a table of `num_columns` columns with key column `key`;
    /// no column is indexed yet.
    pub fn new(num_columns: usize, key: usize) -> (index: Index)
        ensures
            index.wf(),
            index.num_columns() == num_columns,
            index.key() == key,
            forall|c: int| !index.is_indexed(c),
    {
        let mut hash_indices: Vec<Option<HashIndex>> = Vec::new();
        let mut ordered_indices: Vec<Option<OrderedIndex>> = Vec::new();
        let mut c: usize = 0;
        while c < num_columns
            invariant
                c <= num_columns,
                hash_indices@.len() == c,
                ordered_indices@.len() == c,
                forall|k: int| 0 <= k < c ==> #[trigger] hash_indices@[k] is None,
                forall|k: int| 0 <= k < c ==> #[trigger] ordered_indices@[k] is None,
            decreases num_columns - c,
        {
            hash_indices.push(None);
            ordered_indices.push(None);
            c += 1;
        }
        Index { num_columns, key, hash_indices, ordered_indices }
    }

    /// Number of columns of the indexed table.
    pub fn column_count(&self) -> (n: usize)
        ensures
            n == self.num_columns(),
    {
        self.num_columns
    }

    /// Whether `column` has an index.
    pub fn has_index(&self, column: usize) -> (indexed: bool)
        requires
            self.wf(),
        ensures
            indexed == self.is_indexed(column as int),
    {
        column < self.ordered_indices.len() && self.ordered_indices[column].is_some()
    }

    /// Number of buckets of the hash index of `column`; zero where the
    /// column has no index.
    pub fn bucket_count(&self, column: usize) -> (n: usize)
        requires
            self.wf(),
        ensures
            n == self.num_buckets(column as int),
    {
        if column < self.hash_indices.len() {
            match &self.hash_indices[column] {
                Some(hash) => hash.bucket_count(),
                None => 0,
            }
        } else {
            0
        }
    }

    /// Finds the records whose current value of `column` is `value`.
    ///
    /// The hash index is asked first; where the column has none or it knows
    /// no such record, the ordered index is asked for the range of that one
    /// value; where that gives nothing either, the column is scanned.
    pub fn locate(&self, column: usize, value: i64, storage: &Storage) -> (rids: Vec<usize>)
        requires
            self.wf(),
            storage.wf(),
            column < self.num_columns(),
            self.num_columns() == storage.num_columns(),
        ensures
            rids@ == self.located(column as int, value, storage),
    {
        let mut rids: Vec<usize> = Vec::new();
        assert(self.column_wf(column as int));
        proof {
            lemma_rids_of_nothing(value, value);
        }
        match &self.hash_indices[column] {
            Some(hash) => {
                rids = hash.lookup(value);
                proof {
                    let ordered = self.ordered_indices@[column as int]->0;
                    hash.lemma_hits(value);
                    lemma_rids_of_value_ascending(ordered@, value);
                    assert forall|rid: usize|
                        hash.hits(value).contains(rid) <==> rids_in_range(
                            ordered@,
                            value,
                            value,
                        ).contains(rid) by {
                        lemma_rids_in_range_contains(ordered@, value, value, rid);
                        assert(hash.contains(value, rid) <==> ordered@.contains((value, rid)));
                    }
                    lemma_ascending_unique(hash.hits(value), rids_in_range(ordered@, value, value));
                }
            },
            None => {},
        }
        if rids.len() == 0 {
            match &self.ordered_indices[column] {
                Some(ordered) => {
                    rids = ordered.range(value, value);
                },
                None => {},
            }
        }
        if rids.len() == 0 {
            rids = storage.scan(column, Some(value));
        }
        rids
    }

    /// Finds the records whose current value of `column` lies between
    /// `begin` and `end`, both included; the ends may come in either order.
    ///
    /// The ordered index is asked first; where the column has none or it
    /// knows no such record, the column is scanned.
    pub fn locate_range(&self, begin: i64, end: i64, column: usize, storage: &Storage) -> (rids:
        Vec<usize>)
        requires
            self.wf(),
            storage.wf(),
            column < self.num_columns(),
            self.num_columns() == storage.num_columns(),
        ensures
            rids@ == self.located_range(begin, end, column as int, storage),
    {
        let (low, high) = if begin > end {
            (end, begin)
        } else {
            (begin, end)
        };
        let mut rids: Vec<usize> = Vec::new();
        assert(self.column_wf(column as int));
        proof {
            lemma_rids_of_nothing(low, high);
        }
        match &self.ordered_indices[column] {
            Some(ordered) => {
                rids = ordered.range(low, high);
            },
            None => {},
        }
        if rids.len() == 0 {
            rids = storage.scan_range(column, low, high);
        }
        rids
    }

    /// Adds the entry of record `rid` and `value` to the index of `column`;
    /// an entry that is there already is not added again. The hash index
    /// grows where the entry takes it over its load factor. A column
    /// without an index is left alone.
    pub fn index_entry(&mut self, column: usize, rid: usize, value: i64)
        requires
            old(self).wf(),
            column < old(self).num_columns(),
        ensures
            final(self).wf(),
            final(self).num_columns() == old(self).num_columns(),
            final(self).key() == old(self).key(),
            forall|c: int| #[trigger] final(self).is_indexed(c) == old(self).is_indexed(c),
            forall|c: int|
                c != column ==> #[trigger] final(self).entries(c) == old(self).entries(c),
            forall|c: int|
                c != column ==> #[trigger] final(self).num_buckets(c) == old(self).num_buckets(c),
            old(self).is_indexed(column as int) ==> forall|entry: (i64, usize)|
                #[trigger] final(self).entries(column as int).contains(entry)
                    <==> old(self).entries(column as int).contains(entry) || entry == (value, rid),
            !old(self).is_indexed(column as int) ==> final(self).entries(column as int)
                == old(self).entries(column as int),
            final(self).entries(column as int).len() == old(self).entries(column as int).len()
                + if old(self).is_indexed(column as int) && !old(self).entries(
                column as int,
            ).contains((value, rid)) {
                1int
            } else {
                0int
            },
            final(self).num_buckets(column as int) == if old(self).is_indexed(column as int) {
                buckets_after_entry(
                    old(self).num_buckets(column as int) as int,
                    old(self).entries(column as int).len() as int,
                    !old(self).entries(column as int).contains((value, rid)),
                )
            } else {
                0
            },
    {
        assert(self.column_wf(column as int));
        match (&mut self.hash_indices[column], &mut self.ordered_indices[column]) {
            (Some(hash), Some(ordered)) => {
                add_entry(hash, ordered, value, rid);
            },
            _ => {},
        }
        proof {
            self.lemma_one_column_changed(old(self), column as int);
        }
    }

    /// Removes the entry of record `rid` and `value` from the index of
    /// `column`, if it is there. A column without an index is left alone.
    pub fn drop_entry(&mut self, column: usize, rid: usize, value: i64)
        requires
            old(self).wf(),
            column < old(self).num_columns(),
        ensures
            final(self).wf(),
            final(self).num_columns() == old(self).num_columns(),
            final(self).key() == old(self).key(),
            forall|c: int| #[trigger] final(self).is_indexed(c) == old(self).is_indexed(c),
            forall|c: int| #[trigger] final(self).num_buckets(c) == old(self).num_buckets(c),
            forall|c: int|
                c != column ==> #[trigger] final(self).entries(c) == old(self).entries(c),
            forall|entry: (i64, usize)|
                #[trigger] final(self).entries(column as int).contains(entry)
                    <==> old(self).entries(column as int).contains(entry) && entry != (value, rid),
            final(self).entries(column as int).len() == old(self).entries(column as int).len()
                - if old(self).entries(column as int).contains((value, rid)) {
                1int
            } else {
                0int
            },
    {
        assert(self.column_wf(column as int));
        match (&mut self.hash_indices[column], &mut self.ordered_indices[column]) {
            (Some(hash), Some(ordered)) => {
                remove_entry(hash, ordered, value, rid);
            },
            _ => {},
        }
        proof {
            self.lemma_one_column_changed(old(self), column as int);
        }
    }

    /// Moves record `rid` from `old_value` to `new_value` in the index of
    /// `column`: the old entry is dropped, then the new one is added.
    pub fn update_index(&mut self, column: usize, rid: usize, old_value: i64, new_value: i64)
        requires
            old(self).wf(),
            column < old(self).num_columns(),
        ensures
            final(self).wf(),
            final(self).num_columns() == old(self).num_columns(),
            final(self).key() == old(self).key(),
            forall|c: int| #[trigger] final(self).is_indexed(c) == old(self).is_indexed(c),
            forall|c: int|
                c != column ==> #[trigger] final(self).entries(c) == old(self).entries(c),
            forall|c: int|
                c != column ==> #[trigger] final(self).num_buckets(c) == old(self).num_buckets(c),
            old(self).is_indexed(column as int) ==> forall|entry: (i64, usize)|
                #[trigger] final(self).entries(column as int).contains(entry)
                    <==> (old(self).entries(column as int).contains(entry) && entry != (old_value,
                    rid)) || entry
                    == (new_value, rid),
            !old(self).is_indexed(column as int) ==> final(self).entries(column as int)
                == old(self).entries(column as int),
            final(self).entries(column as int).len() == old(self).entries(column as int).len()
                - (if old(self).entries(column as int).contains((old_value, rid)) {
                1int
            } else {
                0int
            }) + (if old(self).is_indexed(column as int) && !(old(self).entries(
                column as int,
            ).contains((new_value, rid)) && new_value != old_value) {
                1int
            } else {
                0int
            }),
            final(self).num_buckets(column as int) == if old(self).is_indexed(column as int) {
                buckets_after_entry(
                    old(self).num_buckets(column as int) as int,
                    old(self).entries(column as int).len() - if old(self).entries(
                        column as int,
                    ).contains((old_value, rid)) {
                        1int
                    } else {
                        0int
                    },
                    !(old(self).entries(column as int).contains((new_value, rid)) && new_value
                        != old_value),
                )
            } else {
                0
            },
    {
        self.drop_entry(column, rid, old_value);
        self.index_entry(column, rid, new_value);
    }

    /// Discards the index of `column`. Lookups on it fall back to a scan
    /// until the column is indexed again.
    pub fn drop_index(&mut self, column: usize)
        requires
            old(self).wf(),
            column < old(self).num_columns(),
        ensures
            final(self).wf(),
            final(self).num_columns() == old(self).num_columns(),
            final(self).key() == old(self).key(),
            !final(self).is_indexed(column as int),
            final(self).num_buckets(column as int) == 0,
            forall|c: int|
                c != column ==> #[trigger] final(self).is_indexed(c) == old(self).is_indexed(c),
            forall|c: int|
                c != column ==> #[trigger] final(self).entries(c) == old(self).entries(c),
            forall|c: int|
                c != column ==> #[trigger] final(self).num_buckets(c) == old(self).num_buckets(c),
    {
        self.hash_indices[column] = None;
        self.ordered_indices[column] = None;
        proof {
            self.lemma_one_column_changed(old(self), column as int);
        }
    }

    /// Builds the index of `column` from scratch, in place of whatever
    /// index the column had: one entry for every live record whose current
    /// value is not null.
    pub fn index_column(&mut self, column: usize, storage: &Storage)
        requires
            old(self).wf(),
            storage.wf(),
            column < old(self).num_columns(),
            old(self).num_columns() == storage.num_columns(),
        ensures
            final(self).wf(),
            final(self).num_columns() == old(self).num_columns(),
            final(self).key() == old(self).key(),
            final(self).is_indexed(column as int),
            final(self).consistent(storage, column as int),
            final(self).num_buckets(column as int) == buckets_when_built(
                final(self).entries(column as int).len() as int,
            ),
            forall|c: int|
                c != column ==> #[trigger] final(self).is_indexed(c) == old(self).is_indexed(c),
            forall|c: int|
                c != column ==> #[trigger] final(self).entries(c) == old(self).entries(c),
            forall|c: int|
                c != column ==> #[trigger] final(self).num_buckets(c) == old(self).num_buckets(c),
    {
        let mut hash = HashIndex::new(INITIAL_BUCKETS);
        let mut ordered = OrderedIndex::new();
        let n = storage.num_records();
        let mut rid: usize = 0;
        while rid < n
            invariant
                storage.wf(),
                column < storage.num_columns(),
                n == storage.len(),
                rid <= n,
                paired(&hash, &ordered),
                hash.num_buckets() == buckets_when_built(ordered@.len() as int),
                forall|value: i64, r: usize| #[trigger]
                    ordered@.contains((value, r)) <==> r < rid && storage.is_live(r as int)
                        && storage.current(r as int, column as int) == Some(value),
            decreases n - rid,
        {
            if storage.contains(rid) {
                match storage.read(rid, column, None) {
                    Some(value) => {
                        add_entry(&mut hash, &mut ordered, value, rid);
                    },
                    None => {},
                }
            }
            rid += 1;
        }
        self.hash_indices[column] = Some(hash);
        self.ordered_indices[column] = Some(ordered);
        proof {
            self.lemma_one_column_changed(old(self), column as int);
            assert(self.entries(column as int) == ordered@);
            assert forall|value: i64, r: usize| #[trigger]
                self.entries(column as int).contains((value, r)) <==> storage.is_live(r as int)
                    && storage.current(r as int, column as int) == Some(value) by {
                storage.lemma_live_in_range(r as int);
            }
        }
    }
}

} // verus!
