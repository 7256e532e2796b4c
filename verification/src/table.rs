//! Tables and records.

use crate::index::{buckets_when_built, Index};
use crate::ordered::{
    in_range, lemma_filter_sorted, lemma_rids_in_range_contains, lemma_rids_of_nothing,
    lemma_rids_of_value_ascending, rids_in_range,
};
use crate::sorted::{ascending, lemma_ascending_unique};
use crate::storage::Storage;
use vstd::prelude::*;

verus! {

/// One record as a read returns it: its identifier, its key, and the values
/// of all its columns, the key column among them.
#[derive(Debug)]
pub struct Record {
    pub rid: usize,
    pub key: Option<i64>,
    pub columns: Vec<Option<i64>>,
}

impl Record {
    /// A record of the given parts.
    pub fn new(rid: usize, key: Option<i64>, columns: Vec<Option<i64>>) -> (record: Record)
        ensures
            record.rid == rid,
            record.key == key,
            record.columns == columns,
    {
        Record { rid, key, columns }
    }
}

/// Whether two states of a table have the same name and shape and the same
/// columns indexed.
pub open spec fn same_shape(before: &Table, after: &Table) -> bool {
    &&& after.name() == before.name()
    &&& after.num_columns() == before.num_columns()
    &&& after.key() == before.key()
    &&& forall|c: int| #[trigger] after.index().is_indexed(c) == before.index().is_indexed(c)
}

/// A table: its name, its shape, its records and its index.
pub struct Table {
    pub(crate) name: String,
    pub(crate) num_columns: usize,
    pub(crate) key: usize,
    pub(crate) storage: Storage,
    pub(crate) index: Index,
}

impl Table {
    /// The table's name.
    pub open(crate) spec fn name(&self) -> Seq<char> {
        self.name@
    }

    /// Number of columns, the key column included.
    pub open(crate) spec fn num_columns(&self) -> nat {
        self.num_columns as nat
    }

    /// Position of the key column.
    pub open(crate) spec fn key(&self) -> nat {
        self.key as nat
    }

    /// The table's records.
    pub open(crate) spec fn storage(&self) -> Storage {
        self.storage
    }

    /// The table's index.
    pub open(crate) spec fn index(&self) -> Index {
        self.index
    }

    /// Records and index are well formed and of the table's shape, and
    /// every index reflects exactly the current values of the live records.
    pub open spec fn wf(&self) -> bool {
        &&& self.storage().wf()
        &&& self.index().wf()
        &&& self.storage().num_columns() == self.num_columns()
        &&& self.index().num_columns() == self.num_columns()
        &&& self.index().key() == self.key()
        &&& self.key() < self.num_columns()
        &&& forall|c: int|
            0 <= c < self.num_columns() ==> #[trigger] self.index().consistent(&self.storage(), c)
    }

    /// The records that a lookup of `value` in `column` resolves: through
    /// the index for a proper value, by a scan for null, which no index
    /// holds.
    pub open spec fn located(&self, column: int, value: Option<i64>) -> Seq<usize> {
        match value {
            Some(v) => self.index().located(column, v, &self.storage()),
            None => self.storage().matching(column, None),
        }
    }

    /// The records that a lookup of the range between `begin` and `end` in
    /// `column` resolves.
    pub open spec fn located_range(&self, begin: i64, end: i64, column: int) -> Seq<usize> {
        self.index().located_range(begin, end, column, &self.storage())
    }

    /// The values of all columns of record `rid`, as a read with the given
    /// version selector sees them.
    pub open spec fn row(&self, rid: int, version: Option<usize>) -> Seq<Option<i64>> {
        Seq::new(self.num_columns(), |c: int| self.storage().value(rid, c, version))
    }

    /// Whether `record` is record `rid` as a read with the given version
    /// selector sees it.
    pub open spec fn shows(&self, record: &Record, rid: usize, version: Option<usize>) -> bool {
        &&& record.rid == rid
        &&& record.key == self.storage().value(rid as int, self.key() as int, version)
        &&& record.columns@ == self.row(rid as int, version)
    }

    /// The sum of the values of `column` over the records `rids`, as a read
    /// with the given version selector sees them; null counts as nothing.
    pub open spec fn total(&self, rids: Seq<usize>, column: int, version: Option<usize>) -> int
        decreases rids.len(),
    {
        if rids.len() == 0 {
            0
        } else {
            self.total(rids.drop_last(), column, version) + match self.storage().value(
                rids.last() as int,
                column,
                version,
            ) {
                Some(v) => v as int,
                None => 0,
            }
        }
    }

    /// A point lookup returns what a scan of the column finds, whether the
    /// column has an index or not: the live records whose current value is
    /// the one looked for, by ascending identifier.
    pub proof fn lemma_located(&self, column: int, value: Option<i64>)
        requires
            self.wf(),
            0 <= column < self.num_columns(),
        ensures
            self.located(column, value) == self.storage().matching(column, value),
            ascending(self.located(column, value)),
            forall|rid: usize|
                #![trigger self.located(column, value).contains(rid)]
                self.located(column, value).contains(rid) <==> self.storage().is_live(rid as int)
                    && self.storage().current(rid as int, column) == value,
    {
        let storage = self.storage();
        let scan = storage.matching(column, value);
        storage.lemma_scan(storage.holds(column, value));
        assert forall|rid: usize|
            scan.contains(rid) <==> storage.is_live(rid as int) && storage.current(
                rid as int,
                column,
            ) == value by {
            storage.lemma_live_in_range(rid as int);
        }
        match value {
            Some(v) => {
                let entries = self.index().entries(column);
                let hits = rids_in_range(entries, v, v);
                if hits.len() > 0 {
                    self.index().lemma_unindexed_empty(column);
                    lemma_rids_of_nothing(v, v);
                    assert(self.index().is_indexed(column));
                    assert(self.index().consistent(&storage, column));
                    self.index().lemma_entries_sorted(column);
                    lemma_rids_of_value_ascending(entries, v);
                    assert forall|rid: usize| hits.contains(rid) <==> scan.contains(rid) by {
                        lemma_rids_in_range_contains(entries, v, v, rid);
                        assert(entries.contains((v, rid)) <==> storage.is_live(rid as int)
                            && storage.current(rid as int, column) == Some(v));
                    }
                    lemma_ascending_unique(hits, scan);
                }
            },
            None => {},
        }
    }

    /// A range lookup returns every live record whose current value lies
    /// in the range, the ends included, once each; with or without an
    /// index these are the records that a scan of the column finds.
    pub proof fn lemma_located_range(&self, begin: i64, end: i64, column: int)
        requires
            self.wf(),
            0 <= column < self.num_columns(),
        ensures
            self.located_range(begin, end, column).no_duplicates(),
            forall|rid: usize|
                #![trigger self.located_range(begin, end, column).contains(rid)]
                self.located_range(begin, end, column).contains(rid) <==> self.storage().is_live(
                    rid as int,
                ) && match self.storage().current(rid as int, column) {
                    Some(v) => (begin <= v <= end) || (end <= v <= begin),
                    None => false,
                },
            forall|rid: usize|
                self.located_range(begin, end, column).contains(rid)
                    <==> self.storage().matching_range(
                    column,
                    if begin > end { end } else { begin },
                    if begin > end { begin } else { end },
                ).contains(rid),
    {
        let storage = self.storage();
        let low = if begin > end { end } else { begin };
        let high = if begin > end { begin } else { end };
        let scan = storage.matching_range(column, low, high);
        storage.lemma_scan(storage.holds_within(column, low, high));
        assert forall|rid: usize|
            scan.contains(rid) <==> storage.is_live(rid as int) && match storage.current(
                rid as int,
                column,
            ) {
                Some(v) => low <= v <= high,
                None => false,
            } by {
            storage.lemma_live_in_range(rid as int);
        }
        assert(scan.no_duplicates()) by {
            assert forall|i: int, j: int| 0 <= i < scan.len() && 0 <= j < scan.len() && i
                != j implies scan[i] != scan[j] by {
                if i < j {
                    assert(scan[i] < scan[j]);
                } else {
                    assert(scan[j] < scan[i]);
                }
            }
        }
        let entries = self.index().entries(column);
        let kept = entries.filter(in_range(low, high));
        let hits = rids_in_range(entries, low, high);
        if hits.len() > 0 {
            self.index().lemma_unindexed_empty(column);
            lemma_rids_of_nothing(low, high);
            assert(self.index().is_indexed(column));
            assert(self.index().consistent(&storage, column));
            self.index().lemma_entries_sorted(column);
            lemma_filter_sorted(entries, in_range(low, high));
            assert forall|rid: usize| hits.contains(rid) <==> scan.contains(rid) by {
                lemma_rids_in_range_contains(entries, low, high, rid);
                if hits.contains(rid) {
                    let v = choose|v: i64| low <= v <= high && entries.contains((v, rid));
                    assert(entries.contains((v, rid)));
                }
                if scan.contains(rid) {
                    let v = storage.current(rid as int, column)->0;
                    assert(entries.contains((v, rid)));
                }
            }
            assert forall|i: int, j: int| 0 <= i < hits.len() && 0 <= j < hits.len() && i
                != j implies hits[i] != hits[j] by {
                if hits[i] == hits[j] {
                    assert(entries.contains(kept[i]));
                    assert(entries.contains(kept[j]));
                    assert(entries.contains((kept[i].0, hits[i])));
                    assert(entries.contains((kept[j].0, hits[j])));
                    assert(kept[i] == kept[j]);
                    if i < j {
                        assert(crate::ordered::entry_lt(kept[i], kept[j]));
                    } else {
                        assert(crate::ordered::entry_lt(kept[j], kept[i]));
                    }
                }
            }
        }
    }

    /// A table stays well formed when the index of one column is rebuilt
    /// from its records or dropped.
    proof fn lemma_one_index_changed(&self, before: &Table, column: int)
        requires
            before.wf(),
            self.storage() == before.storage(),
            self.num_columns() == before.num_columns(),
            self.key() == before.key(),
            self.index().wf(),
            self.index().num_columns() == before.index().num_columns(),
            self.index().key() == before.index().key(),
            self.index().consistent(&self.storage(), column),
            forall|c: int|
                c != column ==> #[trigger] self.index().is_indexed(c) == before.index().is_indexed(
                    c,
                ),
            forall|c: int|
                c != column ==> #[trigger] self.index().entries(c) == before.index().entries(c),
        ensures
            self.wf(),
    {
        assert forall|c: int| 0 <= c < self.num_columns()
            implies #[trigger] self.index().consistent(
            &self.storage(),
            c,
        ) by {
            if c != column {
                assert(before.index().consistent(&before.storage(), c));
            }
        }
    }

    /// An empty table of `num_columns` columns, of which column `key` is the
    /// key; no column is indexed.
    pub fn new(num_columns: usize, name: String, key: usize) -> (table: Table)
        requires
            key < num_columns,
        ensures
            table.wf(),
            table.name() == name@,
            table.num_columns() == num_columns,
            table.key() == key,
            table.storage().len() == 0,
            table.storage().clock() == 0,
            forall|c: int| !table.index().is_indexed(c),
    {
        Table {
            name,
            num_columns,
            key,
            storage: Storage::new(num_columns),
            index: Index::new(num_columns, key),
        }
    }

    /// The table's name.
    pub fn table_name(&self) -> (name: &String)
        ensures
            name@ == self.name(),
    {
        &self.name
    }

    /// Number of columns, the key column included.
    pub fn column_count(&self) -> (n: usize)
        ensures
            n == self.num_columns(),
    {
        self.num_columns
    }

    /// Position of the key column.
    pub fn key_column(&self) -> (key: usize)
        ensures
            key == self.key(),
    {
        self.key
    }

    /// Number of records ever inserted.
    pub fn num_records(&self) -> (n: usize)
        ensures
            n == self.storage().len(),
    {
        self.storage.num_records()
    }

    /// Whether `column` has an index.
    pub fn has_index(&self, column: usize) -> (indexed: bool)
        requires
            self.wf(),
        ensures
            indexed == self.index().is_indexed(column as int),
    {
        self.index.has_index(column)
    }

    /// Number of buckets of the hash index of `column`; zero where the
    /// column has no index.
    pub fn bucket_count(&self, column: usize) -> (n: usize)
        requires
            self.wf(),
        ensures
            n == self.index().num_buckets(column as int),
    {
        self.index.bucket_count(column)
    }

    /// Builds the index of `column` from the current values of the live
    /// records, in place of whatever index the column had.
    pub fn create_index(&mut self, column: usize)
        requires
            old(self).wf(),
            column < old(self).num_columns(),
        ensures
            final(self).wf(),
            final(self).name() == old(self).name(),
            final(self).num_columns() == old(self).num_columns(),
            final(self).key() == old(self).key(),
            final(self).storage() == old(self).storage(),
            final(self).index().is_indexed(column as int),
            final(self).index().num_buckets(column as int) == buckets_when_built(
                final(self).index().entries(column as int).len() as int,
            ),
            forall|c: int|
                c != column ==> #[trigger] final(self).index().is_indexed(c)
                    == old(self).index().is_indexed(c),
            forall|c: int|
                c != column ==> #[trigger] final(self).index().num_buckets(c)
                    == old(self).index().num_buckets(c),
    {
        self.index.index_column(column, &self.storage);
        proof {
            self.lemma_one_index_changed(old(self), column as int);
        }
    }

    /// Discards the index of `column`; lookups on it scan the column from
    /// now on.
    pub fn drop_index(&mut self, column: usize)
        requires
            old(self).wf(),
            column < old(self).num_columns(),
        ensures
            final(self).wf(),
            final(self).name() == old(self).name(),
            final(self).num_columns() == old(self).num_columns(),
            final(self).key() == old(self).key(),
            final(self).storage() == old(self).storage(),
            !final(self).index().is_indexed(column as int),
            final(self).index().num_buckets(column as int) == 0,
            forall|c: int|
                c != column ==> #[trigger] final(self).index().is_indexed(c)
                    == old(self).index().is_indexed(c),
            forall|c: int|
                c != column ==> #[trigger] final(self).index().num_buckets(c)
                    == old(self).index().num_buckets(c),
    {
        self.index.drop_index(column);
        proof {
            self.lemma_one_index_changed(old(self), column as int);
        }
    }
}

} // verus!
