//! The query layer: insert, select, update, delete, increment and sum.
//!
//! Every operation runs to its end on the table and its index together: a
//! change to a stored value is followed by the matching change to the index
//! of its column, so that the index never lags behind the records.

use crate::hashed::resized;
use crate::index::{buckets_after_entry, buckets_after_moves, Index};
use crate::page::PAGE_CAPACITY;
use crate::sorted::{ascending, lemma_ascending_next};
use crate::storage::{lemma_pages_for_next, pages_for, Change, Storage};
use crate::table::{same_shape, Record, Table};
use vstd::prelude::*;

verus! {

/// Why a query did nothing.
#[derive(Debug, Clone, Copy, PartialEq, Eq)]
pub enum QueryError {
    /// An insert came with the wrong number of values.
    InvalidArity,
    /// No live record matches.
    RecordNotFound,
    /// The value to increment is null.
    NullValue,
    /// The value to increment is the largest there is.
    Overflow,
}

/// Whether `after` is `before` once the records `rids`, one after the other,
/// have had `column` set to `value`: each gets a new version, stamped in
/// turn from the time `before` stood at; nothing else changes.
pub open spec fn rewritten(
    before: &Storage,
    after: &Storage,
    rids: Seq<usize>,
    column: int,
    value: Option<i64>,
) -> bool {
    &&& after.num_columns() == before.num_columns()
    &&& after.len() == before.len()
    &&& after.clock() == before.clock() + rids.len()
    &&& after.num_pages() == before.num_pages() + before.num_columns() * (pages_for(
        before.num_updates() + rids.len(),
    ) - pages_for(before.num_updates()))
    &&& forall|r: int| #[trigger] after.is_live(r) == before.is_live(r)
    &&& forall|r: usize, c: int|
        0 <= c < before.num_columns() ==> #[trigger] after.current(r as int, c) == if c == column
            && rids.contains(r) {
            value
        } else {
            before.current(r as int, c)
        }
    &&& forall|i: int, stamp: int|
        0 <= i < rids.len() ==> #[trigger] after.value_at(rids[i] as int, column, stamp)
            == if stamp >= before.clock() + i {
            value
        } else {
            before.value_at(rids[i] as int, column, stamp)
        }
    &&& forall|r: usize, c: int, stamp: int|
        0 <= c < before.num_columns() && !(c == column && rids.contains(r))
            ==> #[trigger] after.value_at(r as int, c, stamp) == before.value_at(r as int, c, stamp)
}

/// Whether the hash indexes of `after` have the bucket counts that follow
/// from `before` when `steps` records, one after the other, are moved in
/// the index of `column` from the value `from` to the value `to`: the
/// column's count follows the moves if the column is indexed, and every
/// other column keeps its count.
pub open spec fn buckets_moved(
    before: &Index,
    after: &Index,
    column: int,
    steps: int,
    from: Option<i64>,
    to: Option<i64>,
) -> bool {
    &&& forall|c: int| c != column ==> #[trigger] after.num_buckets(c) == before.num_buckets(c)
    &&& after.num_buckets(column) == if before.is_indexed(column) {
        buckets_after_moves(
            before.num_buckets(column) as int,
            before.entries(column).len() as int,
            steps,
            from,
            to,
        )
    } else {
        before.num_buckets(column) as int
    }
}

/// The number of entries of an index that had `count` of them after `steps`
/// records were moved in it from the value `from` to the value `to`.
pub open spec fn count_after_moves(
    count: int,
    steps: int,
    from: Option<i64>,
    to: Option<i64>,
) -> int {
    if from is None && to is Some {
        count + steps
    } else if from is Some && to is None {
        count - steps
    } else {
        count
    }
}

/// Whether `after` is `before` once the records `rids` have been deleted:
/// they are no longer live; nothing else changes, and the clock stands.
pub open spec fn removed(before: &Storage, after: &Storage, rids: Seq<usize>) -> bool {
    &&& after.num_columns() == before.num_columns()
    &&& after.len() == before.len()
    &&& after.clock() == before.clock()
    &&& after.num_pages() == before.num_pages()
    &&& forall|r: usize|
        #[trigger] after.is_live(r as int) == (before.is_live(r as int) && !rids.contains(r))
    &&& forall|r: usize, c: int|
        0 <= c < before.num_columns() && !rids.contains(r) ==> #[trigger] after.current(
            r as int,
            c,
        ) == before.current(r as int, c)
    &&& forall|r: usize, c: int, stamp: int|
        0 <= c < before.num_columns() && !rids.contains(r) ==> #[trigger] after.value_at(
            r as int,
            c,
            stamp,
        ) == before.value_at(r as int, c, stamp)
}

/// The values of all columns of a record that is inserted with `key` and
/// `values`: the key at the key column, the values around it in their order.
pub open spec fn full_row(values: Seq<Option<i64>>, key_column: int, key: i64) -> Seq<Option<i64>> {
    values.insert(key_column, Some(key))
}

/// Whether the index of `column`, if there is one, holds exactly the
/// current non-null values of the live records other than `rid`.
spec fn consistent_without(index: &Index, storage: &Storage, column: int, rid: usize) -> bool {
    index.is_indexed(column) ==> forall|value: i64, r: usize| #[trigger]
        index.entries(column).contains((value, r)) <==> r != rid && storage.is_live(r as int)
            && storage.current(r as int, column) == Some(value)
}

/// The operations on one table.
pub struct Query {
    table: Table,
}

impl View for Query {
    type V = Table;

    /// The table as it stands.
    closed spec fn view(&self) -> Table {
        self.table
    }
}

impl Query {
    /// The table is well formed.
    pub open spec fn wf(&self) -> bool {
        self@.wf()
    }

    /// Takes charge of `table`.
    pub fn new(table: Table) -> (query: Query)
        requires
            table.wf(),
        ensures
            query.wf(),
            query@ == table,
    {
        Query { table }
    }

    /// The table.
    pub fn table(&self) -> (table: &Table)
        ensures
            *table == self@,
    {
        &self.table
    }

    /// Hands the table back.
    pub fn into_table(self) -> (table: Table)
        ensures
            table == self@,
    {
        self.table
    }

    /// Resolves the records whose current value of `column` is `value`.
    fn resolve(&self, column: usize, value: Option<i64>) -> (rids: Vec<usize>)
        requires
            self.wf(),
            column < self@.num_columns(),
        ensures
            rids@ == self@.located(column as int, value),
    {
        match value {
            Some(v) => self.table.index.locate(column, v, &self.table.storage),
            None => self.table.storage.scan(column, None),
        }
    }

    /// Reads record `rid` with the given version selector.
    fn read_record(&self, rid: usize, version: Option<usize>) -> (record: Record)
        requires
            self.wf(),
        ensures
            self@.shows(&record, rid, version),
    {
        let n = self.table.num_columns;
        let mut columns: Vec<Option<i64>> = Vec::new();
        let mut c: usize = 0;
        while c < n
            invariant
                self.wf(),
                n == self@.num_columns(),
                c <= n,
                columns@.len() == c,
                forall|k: int|
                    0 <= k < c ==> #[trigger] columns@[k] == self@.storage().value(
                        rid as int,
                        k,
                        version,
                    ),
            decreases n - c,
        {
            columns.push(self.table.storage.read(rid, c, version));
            c += 1;
        }
        let key = self.table.storage.read(rid, self.table.key, version);
        assert(columns@ =~= self@.row(rid as int, version));
        Record::new(rid, key, columns)
    }

    /// Reads the records `rids` with the given version selector.
    fn fetch(&self, rids: &Vec<usize>, version: Option<usize>) -> (records: Vec<Record>)
        requires
            self.wf(),
        ensures
            records@.len() == rids@.len(),
            forall|i: int|
                0 <= i < rids@.len() ==> self@.shows(#[trigger] &records@[i], rids@[i], version),
    {
        let mut records: Vec<Record> = Vec::new();
        let mut i: usize = 0;
        while i < rids.len()
            invariant
                self.wf(),
                i <= rids@.len(),
                records@.len() == i,
                forall|k: int|
                    0 <= k < i ==> self@.shows(#[trigger] &records@[k], rids@[k], version),
            decreases rids@.len() - i,
        {
            records.push(self.read_record(rids[i], version));
            i += 1;
        }
        records
    }

    /// Adds up the values of `column` over the records `rids`.
    fn sum_over(&self, rids: &Vec<usize>, column: usize, version: Option<usize>) -> (total: i128)
        requires
            self.wf(),
            column < self@.num_columns(),
        ensures
            total == self@.total(rids@, column as int, version),
    {
        let mut total: i128 = 0;
        let mut i: usize = 0;
        while i < rids.len()
            invariant
                self.wf(),
                column < self@.num_columns(),
                i <= rids@.len(),
                total == self@.total(rids@.take(i as int), column as int, version),
                -(i as int) * 0x8000_0000_0000_0000 <= total <= (i as int) * 0x8000_0000_0000_0000,
            decreases rids@.len() - i,
        {
            proof {
                let longer = rids@.take(i + 1);
                assert(longer.drop_last() =~= rids@.take(i as int));
                assert(longer.last() == rids@[i as int]);
                assert(i < usize::MAX);
                assert(usize::MAX <= 0xffff_ffff_ffff_ffff);
            }
            match self.table.storage.read(rids[i], column, version) {
                Some(v) => {
                    total = total + v as i128;
                },
                None => {},
            }
            i += 1;
        }
        assert(rids@.take(rids@.len() as int) =~= rids@);
        total
    }

    /// The records whose current value of `column` is `value`, each as a
    /// read with the given version selector sees it.
    ///
    /// Without a selector a record shows its current values; with
    /// `Some(stamp)` it shows the values it had at logical time `stamp`.
    pub fn select(&self, column: usize, value: Option<i64>, version: Option<usize>) -> (records:
        Vec<Record>)
        requires
            self.wf(),
            column < self@.num_columns(),
        ensures
            records@.len() == self@.located(column as int, value).len(),
            forall|i: int|
                0 <= i < records@.len() ==> self@.shows(
                    #[trigger] &records@[i],
                    self@.located(column as int, value)[i],
                    version,
                ),
    {
        let rids = self.resolve(column, value);
        self.fetch(&rids, version)
    }

    /// The records whose current value of `column` lies between `begin` and
    /// `end`, both included and in either order, each as a read with the
    /// given version selector sees it.
    pub fn select_range(
        &self,
        column: usize,
        begin: i64,
        end: i64,
        version: Option<usize>,
    ) -> (records: Vec<Record>)
        requires
            self.wf(),
            column < self@.num_columns(),
        ensures
            records@.len() == self@.located_range(begin, end, column as int).len(),
            forall|i: int|
                0 <= i < records@.len() ==> self@.shows(
                    #[trigger] &records@[i],
                    self@.located_range(begin, end, column as int)[i],
                    version,
                ),
    {
        let rids = self.table.index.locate_range(begin, end, column, &self.table.storage);
        self.fetch(&rids, version)
    }

    /// The sum of the current values of `column` over the records whose key
    /// lies between `begin` and `end`; zero where there are none.
    pub fn sum(&self, begin: i64, end: i64, column: usize) -> (total: i128)
        requires
            self.wf(),
            column < self@.num_columns(),
        ensures
            total == self@.total(
                self@.located_range(begin, end, self@.key() as int),
                column as int,
                None,
            ),
    {
        let rids = self.table.index.locate_range(
            begin,
            end,
            self.table.key,
            &self.table.storage,
        );
        self.sum_over(&rids, column, None)
    }

    /// The sum of the values that `column` had at logical time `version`
    /// over the records whose key lies between `begin` and `end`; zero where
    /// there are none.
    pub fn sum_version(&self, begin: i64, end: i64, column: usize, version: usize) -> (total: i128)
        requires
            self.wf(),
            column < self@.num_columns(),
        ensures
            total == self@.total(
                self@.located_range(begin, end, self@.key() as int),
                column as int,
                Some(version),
            ),
    {
        let rids = self.table.index.locate_range(
            begin,
            end,
            self.table.key,
            &self.table.storage,
        );
        self.sum_over(&rids, column, Some(version))
    }

    /// Inserts a record with the given key and values, one value for every
    /// column but the key column, in the order of the columns, and enters
    /// it into the index of every column that has one. Returns the new
    /// record's identifier.
    ///
    /// Fails with `InvalidArity`, changing nothing, where the number of
    /// values is not one less than the number of columns.
    pub fn insert(&mut self, key: i64, values: Vec<Option<i64>>) -> (result: Result<
        usize,
        QueryError,
    >)
        requires
            old(self).wf(),
        ensures
            final(self).wf(),
            same_shape(&old(self)@, &final(self)@),
            values@.len() + 1 != old(self)@.num_columns() ==> result == Err::<usize, QueryError>(
                QueryError::InvalidArity,
            ) && final(self)@ == old(self)@,
            values@.len() + 1 == old(self)@.num_columns() ==> result == Ok::<usize, QueryError>(
                old(self)@.storage().len() as usize,
            ) && final(self)@.storage().follows_insert(
                &old(self)@.storage(),
                full_row(values@, old(self)@.key() as int, key),
            ),
            values@.len() + 1 == old(self)@.num_columns() ==> forall|c: int|
                0 <= c < old(self)@.num_columns() ==> #[trigger] final(self)@.index().num_buckets(c)
                    == buckets_after_entry(
                    old(self)@.index().num_buckets(c) as int,
                    old(self)@.index().entries(c).len() as int,
                    old(self)@.index().is_indexed(c) && full_row(
                        values@,
                        old(self)@.key() as int,
                        key,
                    )[c] is Some,
                ),
    {
        let n = self.table.num_columns;
        if values.len() != n - 1 {
            return Err(QueryError::InvalidArity);
        }
        let mut row = values;
        row.insert(self.table.key, Some(key));
        let rid = self.table.storage.insert(&row);
        let ghost stored = self.table.storage;
        let mut c: usize = 0;
        proof {
            old(self)@.storage().lemma_live_in_range(rid as int);
        }
        while c < n
            invariant
                old(self).wf(),
                c <= n,
                n == self.table.num_columns,
                row@.len() == n,
                self.table.name == old(self).table.name,
                self.table.num_columns == old(self).table.num_columns,
                self.table.key == old(self).table.key,
                self.table.storage == stored,
                stored.wf(),
                stored.follows_insert(&old(self).table.storage, row@),
                rid == old(self).table.storage.len(),
                !old(self).table.storage.is_live(rid as int),
                self.table.index.wf(),
                self.table.index.num_columns() == n,
                self.table.index.key() == self.table.key,
                forall|k: int| #[trigger]
                    self.table.index.is_indexed(k) == old(self).table.index.is_indexed(k),
                forall|k: int|
                    0 <= k < c ==> #[trigger] self.table.index.consistent(&stored, k),
                forall|k: int|
                    c <= k < n ==> #[trigger] self.table.index.entries(k)
                        == old(self).table.index.entries(k),
                forall|k: int|
                    c <= k < n ==> #[trigger] self.table.index.num_buckets(k)
                        == old(self).table.index.num_buckets(k),
                forall|k: int|
                    0 <= k < c ==> #[trigger] self.table.index.num_buckets(k)
                        == buckets_after_entry(
                        old(self).table.index.num_buckets(k) as int,
                        old(self).table.index.entries(k).len() as int,
                        old(self).table.index.is_indexed(k) && row@[k] is Some,
                    ),
            decreases n - c,
        {
            let ghost before = self.table.index;
            match row[c] {
                Some(v) => {
                    self.table.index.index_entry(c, rid, v);
                },
                None => {},
            }
            proof {
                let column = c as int;
                assert forall|k: int| 0 <= k < c implies #[trigger] self.table.index.consistent(
                    &stored,
                    k,
                ) by {
                    assert(before.consistent(&stored, k));
                    assert(self.table.index.entries(k) == before.entries(k));
                }
                assert(old(self)@.index().consistent(&old(self)@.storage(), column));
                old(self).table.index.lemma_unindexed_empty(column);
                assert forall|k: int| 0 <= k < c implies #[trigger] self.table.index.num_buckets(k)
                    == buckets_after_entry(
                    old(self).table.index.num_buckets(k) as int,
                    old(self).table.index.entries(k).len() as int,
                    old(self).table.index.is_indexed(k) && row@[k] is Some,
                ) by {
                    assert(self.table.index.num_buckets(k) == before.num_buckets(k));
                }
                if before.is_indexed(column) && row@[column] is Some {
                    assert(!before.entries(column).contains((row@[column]->0, rid)));
                }
                if self.table.index.is_indexed(column) {
                    assert forall|value: i64, r: usize| #[trigger]
                        self.table.index.entries(column).contains((value, r)) <==> stored.is_live(
                            r as int,
                        ) && stored.current(r as int, column) == Some(value) by {
                        assert(before.entries(column).contains((value, r))
                            <==> old(self).table.storage.is_live(r as int)
                            && old(self).table.storage.current(
                            r as int,
                            column,
                        ) == Some(value));
                    }
                }
            }
            c += 1;
        }
        Ok(rid)
    }

    /// Sets `column` of each of the records `rids` to `new_value` and moves
    /// each in the index of the column.
    fn rewrite(
        &mut self,
        rids: &Vec<usize>,
        column: usize,
        old_value: Option<i64>,
        new_value: Option<i64>,
    )
        requires
            old(self).wf(),
            column < old(self)@.num_columns(),
            rids@ == old(self)@.located(column as int, old_value),
        ensures
            final(self).wf(),
            same_shape(&old(self)@, &final(self)@),
            rewritten(
                &old(self)@.storage(),
                &final(self)@.storage(),
                rids@,
                column as int,
                new_value,
            ),
            buckets_moved(
                &old(self)@.index(),
                &final(self)@.index(),
                column as int,
                rids@.len() as int,
                old_value,
                new_value,
            ),
    {
        let n = self.table.num_columns;
        let mut changes: Vec<Change> = Vec::new();
        let mut c: usize = 0;
        while c < n
            invariant
                c <= n,
                column < n,
                changes@.len() == c,
                forall|k: int|
                    0 <= k < c ==> #[trigger] changes@[k] == if k == column {
                        Change::Write(new_value)
                    } else {
                        Change::Keep
                    },
            decreases n - c,
        {
            if c == column {
                changes.push(Change::Write(new_value));
            } else {
                changes.push(Change::Keep);
            }
            c += 1;
        }
        proof {
            old(self)@.lemma_located(column as int, old_value);
            let columns = old(self).table.storage.num_columns();
            assert(columns * 0 == 0) by (nonlinear_arith);
        }
        let mut i: usize = 0;
        while i < rids.len()
            invariant
                old(self).wf(),
                i <= rids@.len(),
                column < n,
                n == self.table.num_columns,
                changes@.len() == n,
                forall|k: int|
                    0 <= k < n ==> #[trigger] changes@[k] == if k == column {
                        Change::Write(new_value)
                    } else {
                        Change::Keep
                    },
                ascending(rids@),
                forall|rid: usize|
                    rids@.contains(rid) <==> old(self).table.storage.is_live(rid as int)
                        && old(self).table.storage.current(rid as int, column as int) == old_value,
                self.table.name == old(self).table.name,
                self.table.num_columns == old(self).table.num_columns,
                self.table.key == old(self).table.key,
                self.table.storage.wf(),
                self.table.index.wf(),
                self.table.index.num_columns() == n,
                self.table.index.key() == self.table.key,
                rewritten(
                    &old(self).table.storage,
                    &self.table.storage,
                    rids@.take(i as int),
                    column as int,
                    new_value,
                ),
                forall|k: int| #[trigger]
                    self.table.index.is_indexed(k) == old(self).table.index.is_indexed(k),
                forall|k: int|
                    0 <= k < n ==> #[trigger] self.table.index.consistent(&self.table.storage, k),
                buckets_moved(
                    &old(self).table.index,
                    &self.table.index,
                    column as int,
                    i as int,
                    old_value,
                    new_value,
                ),
                self.table.index.is_indexed(column as int) ==> self.table.index.entries(
                    column as int,
                ).len() == count_after_moves(
                    old(self).table.index.entries(column as int).len() as int,
                    i as int,
                    old_value,
                    new_value,
                ),
            decreases rids@.len() - i,
        {
            let rid = rids[i];
            let ghost before = self.table.storage;
            let ghost indexed = self.table.index;
            let ghost done = rids@.take(i as int);
            let ghost next = rids@.take(i + 1);
            proof {
                assert(rids@.contains(rid));
                lemma_ascending_next(rids@, i as int);
                assert(before.current(rid as int, column as int) == old_value);
            }
            let updated = self.table.storage.update(rid, &changes);
            match (old_value, new_value) {
                (Some(from), Some(to)) => {
                    self.table.index.update_index(column, rid, from, to);
                },
                (Some(from), None) => {
                    self.table.index.drop_entry(column, rid, from);
                },
                (None, Some(to)) => {
                    self.table.index.index_entry(column, rid, to);
                },
                (None, None) => {},
            }
            proof {
                let origin = old(self).table.storage;
                let after = self.table.storage;
                assert(updated is Ok);
                assert(next =~= done.push(rid));
                assert(after.num_pages() == origin.num_pages() + origin.num_columns() * (pages_for(
                    origin.num_updates() + next.len(),
                ) - pages_for(origin.num_updates()))) by {
                    let columns = origin.num_columns() as int;
                    let updates = origin.num_updates();
                    let so_far = pages_for(updates + done.len()) - pages_for(updates);
                    let step = pages_for(updates + done.len() + 1) - pages_for(updates
                        + done.len());
                    origin.lemma_updates_counted();
                    assert(before.num_updates() == updates + done.len());
                    lemma_pages_for_next(updates + done.len());
                    assert(step == if (updates + done.len()) % (PAGE_CAPACITY as int) == 0 {
                        1int
                    } else {
                        0int
                    });
                    assert(columns * (so_far + step) == columns * so_far + columns * step)
                        by (nonlinear_arith);
                    assert(columns * 1 == columns && columns * 0 == 0) by (nonlinear_arith);
                }
                assert forall|r: usize, col: int| 0 <= col < origin.num_columns() implies #[trigger]
                    after.current(r as int, col) == if col == column && next.contains(r) {
                    new_value
                } else {
                    origin.current(r as int, col)
                } by {
                    assert(before.current(r as int, col) == if col == column && done.contains(r) {
                        new_value
                    } else {
                        origin.current(r as int, col)
                    });
                }
                assert forall|k: int, stamp: int| 0 <= k < next.len() implies #[trigger]
                    after.value_at(next[k] as int, column as int, stamp) == if stamp
                    >= origin.clock() + k {
                    new_value
                } else {
                    origin.value_at(next[k] as int, column as int, stamp)
                } by {
                    if k < i {
                        assert(done[k] == next[k]);
                        assert(rids@[k] < rids@[i as int]);
                        assert(before.value_at(done[k] as int, column as int, stamp) == if stamp
                            >= origin.clock() + k {
                            new_value
                        } else {
                            origin.value_at(done[k] as int, column as int, stamp)
                        });
                    } else {
                        assert(before.value_at(rid as int, column as int, stamp)
                            == origin.value_at(rid as int, column as int, stamp));
                    }
                }
                assert forall|r: usize, col: int, stamp: int|
                    0 <= col < origin.num_columns() && !(col == column && next.contains(
                        r,
                    )) implies #[trigger] after.value_at(r as int, col, stamp) == origin.value_at(
                    r as int,
                    col,
                    stamp,
                ) by {
                    assert(before.value_at(r as int, col, stamp) == origin.value_at(
                        r as int,
                        col,
                        stamp,
                    ));
                    if r == rid {
                        if stamp >= before.clock() {
                            before.lemma_current_is_latest(rid as int, col, stamp);
                        }
                    }
                }
                assert(indexed.consistent(&before, column as int));
                if indexed.is_indexed(column as int) {
                    let held = indexed.entries(column as int);
                    if old_value is Some {
                        assert(held.contains((old_value->0, rid)));
                    }
                    if new_value is Some {
                        assert(held.contains((new_value->0, rid)) <==> new_value == old_value);
                    }
                    let buckets = old(self).table.index.num_buckets(column as int) as int;
                    let count = old(self).table.index.entries(column as int).len() as int;
                    let so_far = buckets_after_moves(buckets, count, i as int, old_value,
                        new_value);
                    assert(indexed.num_buckets(column as int) == so_far);
                    assert(held.len() == count_after_moves(count, i as int, old_value, new_value));
                    assert(buckets_after_moves(buckets, count, i + 1, old_value, new_value)
                        == if new_value is None {
                        buckets
                    } else {
                        resized(
                            if old_value is None {
                                count + i + 1
                            } else {
                                count
                            },
                            so_far,
                        )
                    });
                    assert(self.table.index.num_buckets(column as int) == buckets_after_moves(
                        buckets,
                        count,
                        i + 1,
                        old_value,
                        new_value,
                    ));
                } else {
                    indexed.lemma_unindexed_empty(column as int);
                    self.table.index.lemma_unindexed_empty(column as int);
                }
                assert forall|k: int| 0 <= k < n implies #[trigger] self.table.index.consistent(
                    &after,
                    k,
                ) by {
                    assert(indexed.consistent(&before, k));
                    if self.table.index.is_indexed(k) {
                        assert forall|value: i64, r: usize| #[trigger]
                            self.table.index.entries(k).contains((value, r)) <==> after.is_live(
                                r as int,
                            ) && after.current(r as int, k) == Some(value) by {
                            assert(indexed.entries(k).contains((value, r)) <==> before.is_live(
                                r as int,
                            ) && before.current(r as int, k) == Some(value));
                            assert(after.current(r as int, k) == if k == column
                                && next.contains(r) {
                                new_value
                            } else {
                                origin.current(r as int, k)
                            });
                            assert(before.current(r as int, k) == if k == column && done.contains(
                                r,
                            ) {
                                new_value
                            } else {
                                origin.current(r as int, k)
                            });
                        }
                    }
                }
            }
            i += 1;
        }
        proof {
            assert(rids@.take(rids@.len() as int) =~= rids@);
        }
    }

    /// Sets `column` to `new_value` in every record whose current value of
    /// `column` is `old_value`, and moves each of them in the index of the
    /// column. Returns the number of records changed.
    ///
    /// Fails with `RecordNotFound`, changing nothing, where no live record
    /// matches.
    pub fn update(&mut self, column: usize, old_value: Option<i64>,
        new_value: Option<i64>) -> (result:
        Result<usize, QueryError>)
        requires
            old(self).wf(),
            column < old(self)@.num_columns(),
        ensures
            final(self).wf(),
            same_shape(&old(self)@, &final(self)@),
            old(self)@.located(column as int, old_value).len() == 0 ==> result == Err::<
                usize,
                QueryError,
            >(QueryError::RecordNotFound) && final(self)@ == old(self)@,
            old(self)@.located(column as int, old_value).len() > 0 ==> result == Ok::<
                usize,
                QueryError,
            >(old(self)@.located(column as int, old_value).len() as usize) && rewritten(
                &old(self)@.storage(),
                &final(self)@.storage(),
                old(self)@.located(column as int, old_value),
                column as int,
                new_value,
            ) && buckets_moved(
                &old(self)@.index(),
                &final(self)@.index(),
                column as int,
                old(self)@.located(column as int, old_value).len() as int,
                old_value,
                new_value,
            ),
    {
        let rids = self.resolve(column, old_value);
        if rids.len() == 0 {
            return Err(QueryError::RecordNotFound);
        }
        self.rewrite(&rids, column, old_value, new_value);
        Ok(rids.len())
    }

    /// Adds one to `column` in every record whose current value of `column`
    /// is `value`, as an update from `value` to its successor does. Returns
    /// the number of records changed.
    ///
    /// Fails, changing nothing: with `RecordNotFound` where no live record
    /// matches; with `NullValue` where the matching records hold null,
    /// which has no successor; with `Overflow` where they hold the largest
    /// value.
    pub fn increment(&mut self, column: usize, value: Option<i64>) -> (result: Result<
        usize,
        QueryError,
    >)
        requires
            old(self).wf(),
            column < old(self)@.num_columns(),
        ensures
            final(self).wf(),
            same_shape(&old(self)@, &final(self)@),
            result is Err ==> final(self)@ == old(self)@,
            result == if old(self)@.located(column as int, value).len() == 0 {
                Err::<usize, QueryError>(QueryError::RecordNotFound)
            } else if value is None {
                Err::<usize, QueryError>(QueryError::NullValue)
            } else if value == Some(i64::MAX) {
                Err::<usize, QueryError>(QueryError::Overflow)
            } else {
                Ok::<usize, QueryError>(old(self)@.located(column as int, value).len() as usize)
            },
            result is Ok ==> rewritten(
                &old(self)@.storage(),
                &final(self)@.storage(),
                old(self)@.located(column as int, value),
                column as int,
                Some((value->0 + 1) as i64),
            ) && buckets_moved(
                &old(self)@.index(),
                &final(self)@.index(),
                column as int,
                old(self)@.located(column as int, value).len() as int,
                value,
                Some((value->0 + 1) as i64),
            ),
    {
        let rids = self.resolve(column, value);
        if rids.len() == 0 {
            return Err(QueryError::RecordNotFound);
        }
        match value {
            None => Err(QueryError::NullValue),
            Some(current) => {
                if current == i64::MAX {
                    return Err(QueryError::Overflow);
                }
                self.rewrite(&rids, column, value, Some(current + 1));
                Ok(rids.len())
            },
        }
    }

    /// Takes record `rid` out of the index of every column that has one.
    fn unindex(&mut self, rid: usize)
        requires
            old(self).wf(),
        ensures
            final(self).table.name == old(self).table.name,
            final(self).table.num_columns == old(self).table.num_columns,
            final(self).table.key == old(self).table.key,
            final(self).table.storage == old(self).table.storage,
            final(self).table.index.wf(),
            final(self).table.index.num_columns() == old(self).table.index.num_columns(),
            final(self).table.index.key() == old(self).table.index.key(),
            forall|k: int| #[trigger]
                final(self).table.index.is_indexed(k) == old(self).table.index.is_indexed(k),
            forall|k: int| #[trigger]
                final(self).table.index.num_buckets(k) == old(self).table.index.num_buckets(k),
            forall|k: int|
                0 <= k < old(self).table.num_columns ==> #[trigger] consistent_without(
                    &final(self).table.index,
                    &old(self).table.storage,
                    k,
                    rid,
                ),
    {
        let n = self.table.num_columns;
        let mut c: usize = 0;
        while c < n
            invariant
                old(self).wf(),
                c <= n,
                n == self.table.num_columns,
                self.table.name == old(self).table.name,
                self.table.num_columns == old(self).table.num_columns,
                self.table.key == old(self).table.key,
                self.table.storage == old(self).table.storage,
                self.table.index.wf(),
                self.table.index.num_columns() == n,
                self.table.index.key() == self.table.key,
                forall|k: int| #[trigger]
                    self.table.index.is_indexed(k) == old(self).table.index.is_indexed(k),
                forall|k: int| #[trigger]
                    self.table.index.num_buckets(k) == old(self).table.index.num_buckets(k),
                forall|k: int|
                    0 <= k < c ==> #[trigger] consistent_without(
                        &self.table.index,
                        &self.table.storage,
                        k,
                        rid,
                    ),
                forall|k: int|
                    c <= k < n ==> #[trigger] self.table.index.entries(k)
                        == old(self).table.index.entries(k),
            decreases n - c,
        {
            let ghost before = self.table.index;
            match self.table.storage.read(rid, c, None) {
                Some(v) => {
                    self.table.index.drop_entry(c, rid, v);
                },
                None => {},
            }
            proof {
                let column = c as int;
                let storage = self.table.storage;
                assert forall|k: int| 0 <= k < c implies #[trigger] consistent_without(
                    &self.table.index,
                    &storage,
                    k,
                    rid,
                ) by {
                    assert(consistent_without(&before, &storage, k, rid));
                    assert(self.table.index.entries(k) == before.entries(k));
                }
                assert(old(self)@.index().consistent(&old(self)@.storage(), column));
                if self.table.index.is_indexed(column) {
                    assert forall|value: i64, r: usize| #[trigger]
                        self.table.index.entries(column).contains((value, r)) <==> r != rid
                            && storage.is_live(r as int) && storage.current(r as int, column)
                            == Some(value) by {
                        assert(before.entries(column).contains((value, r)) <==> storage.is_live(
                            r as int,
                        ) && storage.current(r as int, column) == Some(value));
                    }
                }
            }
            c += 1;
        }
    }

    /// Deletes every record whose current value of `column` is `value`: the
    /// record is taken out of every index and retired from storage. Returns
    /// the number of records deleted.
    ///
    /// Fails with `RecordNotFound`, changing nothing, where no live record
    /// matches; so does a repeat of a delete that left none.
    pub fn delete(&mut self, column: usize, value: Option<i64>) -> (result: Result<
        usize,
        QueryError,
    >)
        requires
            old(self).wf(),
            column < old(self)@.num_columns(),
        ensures
            final(self).wf(),
            same_shape(&old(self)@, &final(self)@),
            old(self)@.located(column as int, value).len() == 0 ==> result == Err::<
                usize,
                QueryError,
            >(QueryError::RecordNotFound) && final(self)@ == old(self)@,
            old(self)@.located(column as int, value).len() > 0 ==> result == Ok::<
                usize,
                QueryError,
            >(old(self)@.located(column as int, value).len() as usize) && removed(
                &old(self)@.storage(),
                &final(self)@.storage(),
                old(self)@.located(column as int, value),
            ),
            forall|c: int| #[trigger]
                final(self)@.index().num_buckets(c) == old(self)@.index().num_buckets(c),
    {
        let rids = self.resolve(column, value);
        if rids.len() == 0 {
            return Err(QueryError::RecordNotFound);
        }
        proof {
            old(self)@.lemma_located(column as int, value);
        }
        let n = self.table.num_columns;
        let mut i: usize = 0;
        while i < rids.len()
            invariant
                old(self).wf(),
                i <= rids@.len(),
                n == self.table.num_columns,
                ascending(rids@),
                forall|rid: usize|
                    rids@.contains(rid) ==> old(self).table.storage.is_live(rid as int),
                self.table.name == old(self).table.name,
                self.table.num_columns == old(self).table.num_columns,
                self.table.key == old(self).table.key,
                self.wf(),
                removed(&old(self).table.storage, &self.table.storage, rids@.take(i as int)),
                forall|k: int| #[trigger]
                    self.table.index.is_indexed(k) == old(self).table.index.is_indexed(k),
                forall|k: int| #[trigger]
                    self.table.index.num_buckets(k) == old(self).table.index.num_buckets(k),
            decreases rids@.len() - i,
        {
            let rid = rids[i];
            let ghost before = self.table.storage;
            let ghost done = rids@.take(i as int);
            let ghost next = rids@.take(i + 1);
            proof {
                assert(rids@.contains(rid));
                lemma_ascending_next(rids@, i as int);
                assert(before.is_live(rid as int));
            }
            self.unindex(rid);
            let ghost unindexed = self.table.index;
            let deleted = self.table.storage.delete(rid);
            proof {
                let after = self.table.storage;
                assert(deleted is Ok);
                lemma_ascending_next(rids@, i as int);
                assert forall|k: int| 0 <= k < n implies #[trigger] self.table.index.consistent(
                    &after,
                    k,
                ) by {
                    assert(consistent_without(&unindexed, &before, k, rid));
                    if self.table.index.is_indexed(k) {
                        assert forall|v: i64, r: usize| #[trigger]
                            self.table.index.entries(k).contains((v, r)) <==> after.is_live(
                                r as int,
                            ) && after.current(r as int, k) == Some(v) by {
                            assert(unindexed.entries(k).contains((v, r)) <==> r != rid
                                && before.is_live(r as int) && before.current(r as int, k)
                                == Some(v));
                        }
                    }
                }
            }
            i += 1;
        }
        proof {
            assert(rids@.take(rids@.len() as int) =~= rids@);
        }
        Ok(rids.len())
    }
}

} // verus!
