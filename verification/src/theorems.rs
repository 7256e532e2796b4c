//! What holds of a table across its operations.
//!
//! Each statement relates the state of a table before an operation of the
//! query layer to its state after it, as the operation's contract describes
//! the two, and says what lookups and reads then return.

use crate::ordered::{
    entry_lt, in_range, lemma_filter_sorted, lemma_rids_in_range_contains, lemma_rids_of_nothing,
    rids_in_range,
};
use crate::query::{full_row, removed, rewritten};
use crate::sorted::{
    ascending, by_number, lemma_ascending_unique, lemma_filter_sorted_by, lemma_sorted_unique,
    sorted_by, strict,
};
use crate::storage::Storage;
use crate::table::{same_shape, Table};
use vstd::prelude::*;

verus! {

/// Whether every read at a time before the clock of `before` gives the same
/// in `after` as in `before`, and the clock has not gone back.
pub open spec fn keeps_history(before: &Storage, after: &Storage) -> bool {
    &&& after.clock() >= before.clock()
    &&& forall|rid: usize, c: int, stamp: int|
        0 <= c < before.num_columns() && stamp < before.clock() ==> #[trigger] after.value_at(
            rid as int,
            c,
            stamp,
        ) == before.value_at(rid as int, c, stamp)
}

/// Whether every record that is not live in `before` is not live in `after`
/// either, unless it did not exist yet.
pub open spec fn keeps_dead(before: &Storage, after: &Storage) -> bool {
    forall|rid: usize|
        rid < before.len() && !before.is_live(rid as int) ==> !#[trigger] after.is_live(rid as int)
}

/// Insert and select round trip: right after the insert of a record, a
/// select of its key returns the records that it returned before and then
/// the new record, whose row is the key and the values inserted. Where no
/// live record had the key, the new record is the only one returned.
pub proof fn theorem_insert_then_select(
    before: Table,
    after: Table,
    key: i64,
    values: Seq<Option<i64>>,
)
    requires
        before.wf(),
        after.wf(),
        same_shape(&before, &after),
        values.len() + 1 == before.num_columns(),
        after.storage().follows_insert(
            &before.storage(),
            full_row(values, before.key() as int, key),
        ),
    ensures
        before.storage().len() <= usize::MAX,
        after.located(after.key() as int, Some(key)) == before.located(
            before.key() as int,
            Some(key),
        ).push(before.storage().len() as usize),
        after.row(before.storage().len() as int, None) == full_row(
            values,
            before.key() as int,
            key,
        ),
        after.storage().current(before.storage().len() as int, after.key() as int) == Some(key),
{
    let column = before.key() as int;
    let row = full_row(values, column, key);
    assert(row[column] == Some(key));
    theorem_insert_keeps_lookups(before, after, row, column, Some(key));
    assert(after.row(before.storage().len() as int, None) =~= row);
}

/// Update visibility: after an update of a column from one value to a
/// different one, a lookup of the old value finds nothing, and a lookup of
/// the new value finds every record that was changed, beside those that
/// held the new value before; each changed record shows the new value and,
/// in every other column, the value it had.
pub proof fn theorem_update_visible(
    before: Table,
    after: Table,
    column: int,
    old_value: Option<i64>,
    new_value: Option<i64>,
)
    requires
        before.wf(),
        after.wf(),
        same_shape(&before, &after),
        0 <= column < before.num_columns(),
        old_value != new_value,
        rewritten(
            &before.storage(),
            &after.storage(),
            before.located(column, old_value),
            column,
            new_value,
        ),
    ensures
        after.located(column, old_value).len() == 0,
        forall|rid: usize|
            after.located(column, new_value).contains(rid) <==> before.located(
                column,
                old_value,
            ).contains(rid) || before.located(column, new_value).contains(rid),
        forall|rid: usize, c: int|
            before.located(column, old_value).contains(rid) && 0 <= c < before.num_columns()
                ==> #[trigger] after.row(rid as int, None)[c] == if c == column {
                new_value
            } else {
                before.row(rid as int, None)[c]
            },
{
    let changed = before.located(column, old_value);
    before.lemma_located(column, old_value);
    before.lemma_located(column, new_value);
    after.lemma_located(column, old_value);
    after.lemma_located(column, new_value);
    let gone = after.located(column, old_value);
    if gone.len() > 0 {
        let rid = gone[0];
        assert(gone.contains(rid));
        assert(after.storage().current(rid as int, column) == old_value);
    }
    assert forall|rid: usize|
        after.located(column, new_value).contains(rid) <==> changed.contains(rid)
            || before.located(column, new_value).contains(rid) by {
        assert(after.storage().current(rid as int, column) == if changed.contains(rid) {
            new_value
        } else {
            before.storage().current(rid as int, column)
        });
    }
    assert forall|rid: usize, c: int|
        changed.contains(rid) && 0 <= c < before.num_columns() implies #[trigger] after.row(
        rid as int,
        None,
    )[c] == if c == column {
        new_value
    } else {
        before.row(rid as int, None)[c]
    } by {
        assert(after.storage().current(rid as int, c) == if c == column && changed.contains(rid) {
            new_value
        } else {
            before.storage().current(rid as int, c)
        });
    }
}

/// Versioned reads, at the write: the version that an insert writes is
/// stamped with the time at which the table stood, and a read of the new
/// record at that time or later returns the row inserted.
pub proof fn theorem_insert_is_stamped(
    before: &Storage,
    after: &Storage,
    row: Seq<Option<i64>>,
    c: int,
    stamp: int,
)
    requires
        after.follows_insert(before, row),
        0 <= c < row.len(),
        stamp >= before.clock(),
    ensures
        after.value_at(before.len() as int, c, stamp) == row[c],
        after.clock() == before.clock() + 1,
{
}

/// Versioned reads, at the write: the `i`-th record that an update changes
/// gets a version stamped `i` past the time at which the table stood, and
/// a read of the record at that time or later returns the new value.
pub proof fn theorem_update_is_stamped(
    before: &Storage,
    after: &Storage,
    rids: Seq<usize>,
    column: int,
    value: Option<i64>,
    i: int,
    stamp: int,
)
    requires
        rewritten(before, after, rids, column, value),
        0 <= i < rids.len(),
        stamp >= before.clock() + i,
    ensures
        after.value_at(rids[i] as int, column, stamp) == value,
        after.clock() == before.clock() + rids.len(),
{
}

/// Versioned reads, after the write: an insert leaves every read at a time
/// before it as it was.
pub proof fn theorem_insert_keeps_history(before: &Storage, after: &Storage, row: Seq<Option<i64>>)
    requires
        before.wf(),
        row.len() == before.num_columns(),
        after.follows_insert(before, row),
    ensures
        keeps_history(before, after),
        keeps_dead(before, after),
{
    assert forall|rid: usize, c: int, stamp: int|
        0 <= c < before.num_columns() && stamp < before.clock() implies #[trigger] after.value_at(
        rid as int,
        c,
        stamp,
    ) == before.value_at(rid as int, c, stamp) by {
        if rid == before.len() {
            before.lemma_live_in_range(rid as int);
            before.lemma_dead_reads_null(rid as int, c, stamp);
        }
    }
}

/// Versioned reads, after the write: an update leaves every read at a time
/// before it as it was.
pub proof fn theorem_update_keeps_history(
    before: &Storage,
    after: &Storage,
    rids: Seq<usize>,
    column: int,
    value: Option<i64>,
)
    requires
        rewritten(before, after, rids, column, value),
    ensures
        keeps_history(before, after),
        keeps_dead(before, after),
{
    assert forall|rid: usize, c: int, stamp: int|
        0 <= c < before.num_columns() && stamp < before.clock() implies #[trigger] after.value_at(
        rid as int,
        c,
        stamp,
    ) == before.value_at(rid as int, c, stamp) by {
        if c == column && rids.contains(rid) {
            let i = choose|i: int| 0 <= i < rids.len() && rids[i] == rid;
            assert(after.value_at(rids[i] as int, column, stamp) == before.value_at(
                rids[i] as int,
                column,
                stamp,
            ));
        }
    }
}

/// Versioned reads, over any number of writes: what one step keeps and the
/// next keeps, the two together keep.
pub proof fn theorem_history_is_kept_on(first: &Storage, second: &Storage, third: &Storage)
    requires
        first.num_columns() == second.num_columns(),
        first.len() <= second.len(),
        keeps_history(first, second),
        keeps_history(second, third),
        keeps_dead(first, second),
        keeps_dead(second, third),
    ensures
        keeps_history(first, third),
        keeps_dead(first, third),
{
    assert forall|rid: usize, c: int, stamp: int|
        0 <= c < first.num_columns() && stamp < first.clock() implies #[trigger] third.value_at(
        rid as int,
        c,
        stamp,
    ) == first.value_at(rid as int, c, stamp) by {
        assert(second.value_at(rid as int, c, stamp) == first.value_at(rid as int, c, stamp));
    }
    assert forall|rid: usize| rid < first.len() && !first.is_live(rid as int) implies !#[trigger]
        third.is_live(rid as int) by {
        assert(!second.is_live(rid as int));
    }
}

/// Range lookups: the two ends may be given in either order, with the same
/// result, and a live record whose value is one of the ends is found.
pub proof fn theorem_range_inclusive(table: Table, begin: i64, end: i64, column: int, rid: usize)
    requires
        table.wf(),
        0 <= column < table.num_columns(),
        table.storage().is_live(rid as int),
        table.storage().current(rid as int, column) == Some(begin) || table.storage().current(
            rid as int,
            column,
        ) == Some(end),
    ensures
        table.located_range(begin, end, column) == table.located_range(end, begin, column),
        table.located_range(begin, end, column).contains(rid),
{
    table.lemma_located_range(begin, end, column);
}

/// Delete is final: after a delete, no lookup in any column, of a value or
/// of a range, returns a deleted record; a lookup of the deleted value
/// finds nothing, so that a repeat of the delete reports that no record was
/// found; and the deleted records stay out of every later state that
/// keeps the dead dead.
pub proof fn theorem_delete_is_final(
    before: Table,
    after: Table,
    column: int,
    value: Option<i64>,
    rid: usize,
    c: int,
)
    requires
        before.wf(),
        after.wf(),
        same_shape(&before, &after),
        0 <= column < before.num_columns(),
        0 <= c < before.num_columns(),
        removed(&before.storage(), &after.storage(), before.located(column, value)),
        before.located(column, value).contains(rid),
    ensures
        after.located(column, value).len() == 0,
        !after.storage().is_live(rid as int),
        forall|v: Option<i64>| !(#[trigger] after.located(c, v)).contains(rid),
        forall|begin: i64, end: i64| !(#[trigger] after.located_range(begin, end, c)).contains(rid),
        keeps_dead(&before.storage(), &after.storage()),
{
    before.lemma_located(column, value);
    after.lemma_located(column, value);
    let gone = after.located(column, value);
    if gone.len() > 0 {
        let r = gone[0];
        assert(gone.contains(r));
        assert(after.storage().is_live(r as int));
        assert(before.storage().is_live(r as int));
        assert(!before.located(column, value).contains(r));
    }
    assert forall|v: Option<i64>| !(#[trigger] after.located(c, v)).contains(rid) by {
        after.lemma_located(c, v);
    }
    assert forall|begin: i64, end: i64| !(#[trigger] after.located_range(begin, end, c)).contains(
        rid,
    ) by {
        after.lemma_located_range(begin, end, c);
    }
}

/// A record that is not live is found by no lookup.
pub proof fn theorem_dead_records_are_not_found(table: Table, rid: usize, c: int)
    requires
        table.wf(),
        0 <= c < table.num_columns(),
        !table.storage().is_live(rid as int),
    ensures
        forall|v: Option<i64>| !(#[trigger] table.located(c, v)).contains(rid),
        forall|begin: i64, end: i64| !(#[trigger] table.located_range(begin, end, c)).contains(rid),
{
    assert forall|v: Option<i64>| !(#[trigger] table.located(c, v)).contains(rid) by {
        table.lemma_located(c, v);
    }
    assert forall|begin: i64, end: i64| !(#[trigger] table.located_range(begin, end, c)).contains(
        rid,
    ) by {
        table.lemma_located_range(begin, end, c);
    }
}

/// No entry is lost when the index grows: right after the insert of a
/// record, a lookup of any value in any column, indexed or not and
/// whatever the hash index did to its buckets, returns the records that it
/// returned before, and then the new record if it holds that value there.
pub proof fn theorem_insert_keeps_lookups(
    before: Table,
    after: Table,
    row: Seq<Option<i64>>,
    column: int,
    value: Option<i64>,
)
    requires
        before.wf(),
        after.wf(),
        same_shape(&before, &after),
        row.len() == before.num_columns(),
        0 <= column < before.num_columns(),
        after.storage().follows_insert(&before.storage(), row),
    ensures
        before.storage().len() <= usize::MAX,
        after.located(column, value) == if row[column] == value {
            before.located(column, value).push(before.storage().len() as usize)
        } else {
            before.located(column, value)
        },
{
    let new = before.storage().len() as usize;
    before.storage().lemma_live_in_range(new as int);
    before.lemma_located(column, value);
    after.lemma_located(column, value);
    let earlier = before.located(column, value);
    let later = after.located(column, value);
    let expected = if row[column] == value {
        earlier.push(new)
    } else {
        earlier
    };
    assert(ascending(expected)) by {
        assert forall|i: int, j: int| 0 <= i < j < expected.len() implies #[trigger] expected[i]
            < #[trigger] expected[j] by {
            if j < earlier.len() {
                assert(earlier[i] < earlier[j]);
            } else {
                assert(earlier.contains(earlier[i]));
                before.storage().lemma_live_in_range(earlier[i] as int);
            }
        }
    }
    assert forall|rid: usize| later.contains(rid) <==> expected.contains(rid) by {
        if expected.contains(rid) {
            let i = choose|i: int| 0 <= i < expected.len() && expected[i] == rid;
            if i < earlier.len() {
                assert(earlier[i] == rid);
                assert(earlier.contains(rid));
                before.storage().lemma_live_in_range(rid as int);
            }
        }
        if later.contains(rid) {
            if rid == new {
                assert(expected[earlier.len() as int] == rid);
            } else {
                assert(earlier.contains(rid));
                let i = choose|i: int| 0 <= i < earlier.len() && earlier[i] == rid;
                assert(expected[i] == rid);
            }
        }
    }
    lemma_ascending_unique(later, expected);
}

/// Sums leave deleted records out: after a delete, the records that a sum
/// over any range of keys adds up are live, so none of them is a deleted
/// record, and each of them counts with the value it had before the delete.
pub proof fn theorem_sum_skips_deleted(
    before: Table,
    after: Table,
    deleted: Seq<usize>,
    begin: i64,
    end: i64,
    column: int,
)
    requires
        before.wf(),
        after.wf(),
        same_shape(&before, &after),
        0 <= column < before.num_columns(),
        removed(&before.storage(), &after.storage(), deleted),
    ensures
        forall|rid: usize|
            deleted.contains(rid) ==> !(#[trigger] after.located_range(
                begin,
                end,
                after.key() as int,
            ).contains(rid)),
        forall|rid: usize|
            #[trigger] after.located_range(begin, end, after.key() as int).contains(rid)
                ==> before.located_range(begin, end, before.key() as int).contains(rid)
                && after.storage().value(rid as int, column, None) == before.storage().value(
                rid as int,
                column,
                None,
            ),
{
    before.lemma_located_range(begin, end, before.key() as int);
    after.lemma_located_range(begin, end, after.key() as int);
}

/// The records that are not among `deleted`.
pub open spec fn spared(deleted: Seq<usize>) -> spec_fn(usize) -> bool {
    |rid: usize| !deleted.contains(rid)
}

/// The records that are among `deleted`.
pub open spec fn struck(deleted: Seq<usize>) -> spec_fn(usize) -> bool {
    |rid: usize| deleted.contains(rid)
}

/// The order of records by their current value of `column` in `storage`,
/// then by their number: the order in which an index of the column holds
/// them.
pub open spec fn by_value(storage: &Storage, column: int) -> spec_fn(usize, usize) -> bool {
    |a: usize, b: usize|
        entry_lt(
            (storage.current(a as int, column).unwrap_or(0), a),
            (storage.current(b as int, column).unwrap_or(0), b),
        )
}

/// A sum over some records is the sum over those of them that meet a
/// condition and the sum over those that do not.
pub proof fn lemma_total_split(
    table: Table,
    rids: Seq<usize>,
    keep: spec_fn(usize) -> bool,
    drop: spec_fn(usize) -> bool,
    column: int,
    version: Option<usize>,
)
    requires
        forall|rid: usize| #[trigger] drop(rid) == !keep(rid),
    ensures
        table.total(rids, column, version) == table.total(rids.filter(keep), column, version)
            + table.total(rids.filter(drop), column, version),
    decreases rids.len(),
{
    reveal(Seq::filter);
    if rids.len() > 0 {
        let rest = rids.drop_last();
        let last = rids.last();
        lemma_total_split(table, rest, keep, drop, column, version);
        assert(drop(last) == !keep(last));
        if keep(last) {
            assert(rids.filter(keep).drop_last() =~= rest.filter(keep));
        } else {
            assert(rids.filter(drop).drop_last() =~= rest.filter(drop));
        }
    }
}

/// Two tables that agree on the values of some records agree on the sum
/// over them.
pub proof fn lemma_total_agrees(
    before: Table,
    after: Table,
    rids: Seq<usize>,
    column: int,
    version: Option<usize>,
)
    requires
        forall|i: int|
            0 <= i < rids.len() ==> after.storage().value(#[trigger] rids[i] as int, column,
                version)
                == before.storage().value(rids[i] as int, column, version),
    ensures
        after.total(rids, column, version) == before.total(rids, column, version),
    decreases rids.len(),
{
    if rids.len() > 0 {
        let rest = rids.drop_last();
        assert forall|i: int| 0 <= i < rest.len() implies after.storage().value(
            #[trigger] rest[i] as int,
            column,
            version,
        ) == before.storage().value(rest[i] as int, column, version) by {
            assert(rest[i] == rids[i]);
        }
        lemma_total_agrees(before, after, rest, column, version);
        assert(rids.last() == rids[rids.len() - 1]);
    }
}

/// What the index of a column holds for a range of values comes in the
/// order of the values that the records hold, as `reference` has them.
proof fn lemma_hits_by_value(table: Table, reference: &Storage, low: i64, high: i64, column: int)
    requires
        table.wf(),
        0 <= column < table.num_columns(),
        table.index().is_indexed(column),
        forall|rid: usize|
            table.storage().is_live(rid as int) ==> #[trigger] reference.current(rid as int, column)
                == table.storage().current(rid as int, column),
    ensures
        sorted_by(rids_in_range(table.index().entries(column), low, high), by_value(reference,
            column)),
{
    let entries = table.index().entries(column);
    let kept = entries.filter(in_range(low, high));
    let hits = rids_in_range(entries, low, high);
    let below = by_value(reference, column);
    table.index().lemma_entries_sorted(column);
    lemma_filter_sorted(entries, in_range(low, high));
    assert(table.index().consistent(&table.storage(), column));
    assert forall|i: int, j: int| 0 <= i < j < hits.len() implies below(
        #[trigger] hits[i],
        #[trigger] hits[j],
    ) by {
        assert(entries.contains(kept[i]));
        assert(entries.contains(kept[j]));
        assert(entries.contains((kept[i].0, hits[i])));
        assert(entries.contains((kept[j].0, hits[j])));
        assert(entry_lt(kept[i], kept[j]));
    }
}

/// The order of records by value is a strict order.
proof fn lemma_by_value_strict(storage: &Storage, column: int)
    ensures
        strict(by_value(storage, column)),
{
    let below = by_value(storage, column);
    assert forall|a: usize| !#[trigger] below(a, a) by {}
    assert forall|a: usize, b: usize, c: usize|
        #![trigger below(a, b), below(b, c)]
        below(a, b) && below(b, c) implies below(a, c) by {}
}

/// After a delete, a range lookup returns what it returned before without
/// the deleted records, in the same order.
pub proof fn theorem_delete_keeps_the_rest(
    before: Table,
    after: Table,
    deleted: Seq<usize>,
    begin: i64,
    end: i64,
    column: int,
)
    requires
        before.wf(),
        after.wf(),
        same_shape(&before, &after),
        0 <= column < before.num_columns(),
        removed(&before.storage(), &after.storage(), deleted),
    ensures
        after.located_range(begin, end, column) == before.located_range(begin, end, column).filter(
            spared(deleted),
        ),
{
    let low = if begin > end { end } else { begin };
    let high = if begin > end { begin } else { end };
    let keep = spared(deleted);
    let earlier = before.located_range(begin, end, column);
    let later = after.located_range(begin, end, column);
    before.lemma_located_range(begin, end, column);
    after.lemma_located_range(begin, end, column);
    let old_hits = rids_in_range(before.index().entries(column), low, high);
    let new_hits = rids_in_range(after.index().entries(column), low, high);
    let old_scan = before.storage().matching_range(column, low, high);
    let new_scan = after.storage().matching_range(column, low, high);
    before.index().lemma_unindexed_empty(column);
    after.index().lemma_unindexed_empty(column);
    lemma_rids_of_nothing(low, high);
    let below = if old_hits.len() > 0 {
        by_value(&before.storage(), column)
    } else {
        by_number()
    };
    assert(strict(below)) by {
        lemma_by_value_strict(&before.storage(), column);
    }
    assert(sorted_by(earlier, below)) by {
        if old_hits.len() > 0 {
            lemma_hits_by_value(before, &before.storage(), low, high, column);
        } else {
            before.storage().lemma_scan(before.storage().holds_within(column, low, high));
            assert forall|i: int, j: int| 0 <= i < j < earlier.len() implies below(
                #[trigger] earlier[i],
                #[trigger] earlier[j],
            ) by {
                assert(earlier[i] < earlier[j]);
            }
        }
    }
    lemma_filter_sorted_by(earlier, keep, below);
    let expected = earlier.filter(keep);
    assert forall|rid: usize| later.contains(rid) <==> expected.contains(rid) by {
        assert(keep(rid) == !deleted.contains(rid));
    }
    if later.len() == 0 {
        if expected.len() > 0 {
            assert(expected.contains(expected[0]));
        }
        assert(later =~= expected);
    } else {
        assert(later.contains(later[0]));
        assert(earlier.contains(later[0]));
        assert(sorted_by(later, below)) by {
            if new_hits.len() > 0 {
                assert(old_hits.len() > 0) by {
                    if old_hits.len() == 0 {
                        assert(new_hits.contains(new_hits[0]));
                        lemma_rids_in_range_contains(
                            after.index().entries(column),
                            low,
                            high,
                            new_hits[0],
                        );
                        assert(old_scan.contains(later[0]));
                        lemma_rids_in_range_contains(
                            before.index().entries(column),
                            low,
                            high,
                            later[0],
                        );
                        let v = before.storage().current(later[0] as int, column)->0;
                        assert(before.index().is_indexed(column));
                        assert(before.index().consistent(&before.storage(), column));
                        assert(before.index().entries(column).contains((v, later[0])));
                    }
                }
                lemma_hits_by_value(after, &before.storage(), low, high, column);
            } else {
                assert(old_hits.len() == 0) by {
                    if old_hits.len() > 0 {
                        let v = after.storage().current(later[0] as int, column)->0;
                        assert(after.index().is_indexed(column));
                        assert(after.index().consistent(&after.storage(), column));
                        assert(after.index().entries(column).contains((v, later[0])));
                        lemma_rids_in_range_contains(
                            after.index().entries(column),
                            low,
                            high,
                            later[0],
                        );
                        assert(new_hits.contains(later[0]));
                    }
                }
                after.storage().lemma_scan(after.storage().holds_within(column, low, high));
                assert forall|i: int, j: int| 0 <= i < j < later.len() implies below(
                    #[trigger] later[i],
                    #[trigger] later[j],
                ) by {
                    assert(later[i] < later[j]);
                }
            }
        }
        lemma_sorted_unique(later, expected, below);
    }
}

/// Sums leave deleted records out, to the value: the sum over a range of
/// keys after a delete is the sum before it less the values of the deleted
/// records whose key lay in the range.
pub proof fn theorem_sum_after_delete(
    before: Table,
    after: Table,
    deleted: Seq<usize>,
    begin: i64,
    end: i64,
    column: int,
)
    requires
        before.wf(),
        after.wf(),
        same_shape(&before, &after),
        0 <= column < before.num_columns(),
        removed(&before.storage(), &after.storage(), deleted),
    ensures
        after.total(after.located_range(begin, end, after.key() as int), column, None)
            == before.total(before.located_range(begin, end, before.key() as int), column, None)
            - before.total(
            before.located_range(begin, end, before.key() as int).filter(struck(deleted)),
            column,
            None,
        ),
{
    let key = before.key() as int;
    let earlier = before.located_range(begin, end, key);
    let later = after.located_range(begin, end, key);
    theorem_delete_keeps_the_rest(before, after, deleted, begin, end, key);
    lemma_total_split(before, earlier, spared(deleted), struck(deleted), column, None);
    assert forall|i: int| 0 <= i < later.len() implies after.storage().value(
        #[trigger] later[i] as int,
        column,
        None,
    ) == before.storage().value(later[i] as int, column, None) by {
        assert(later.contains(later[i]));
        earlier.lemma_filter_contains_rev(spared(deleted), later[i]);
        broadcast use vstd::seq_lib::group_filter_ensures;

        assert(spared(deleted)(later[i]));
    }
    lemma_total_agrees(before, after, later, column, None);
}

/// Whether `after` is `before` after one write: the insert of a record or
/// an update of some records.
pub open spec fn written(before: &Storage, after: &Storage) -> bool {
    ||| exists|row: Seq<Option<i64>>|
        row.len() == before.num_columns() && #[trigger] after.follows_insert(before, row)
    ||| exists|rids: Seq<usize>, column: int, value: Option<i64>| #[trigger]
        rewritten(before, after, rids, column, value)
}

/// Versioned reads over any number of writes: in a run of states of a
/// table, each of which follows from the one before it by a write, a read
/// at a time before the clock of one state gives the same in every later
/// state.
pub proof fn theorem_history_over_writes(states: Seq<Storage>, i: int, j: int)
    requires
        forall|k: int| 0 <= k < states.len() ==> (#[trigger] states[k]).wf(),
        forall|k: int|
            #![trigger states[k]]
            0 <= k < states.len() - 1 ==> written(&states[k], &states[k + 1]),
        0 <= i <= j < states.len(),
    ensures
        states[j].num_columns() == states[i].num_columns(),
        states[j].len() >= states[i].len(),
        keeps_history(&states[i], &states[j]),
        keeps_dead(&states[i], &states[j]),
    decreases j - i,
{
    if i < j {
        let first = &states[i];
        let second = &states[j - 1];
        let third = &states[j];
        theorem_history_over_writes(states, i, j - 1);
        assert(written(second, &states[j - 1 + 1]));
        if exists|row: Seq<Option<i64>>|
            row.len() == second.num_columns() && #[trigger] third.follows_insert(second, row) {
            let row = choose|row: Seq<Option<i64>>|
                row.len() == second.num_columns() && #[trigger] third.follows_insert(second, row);
            theorem_insert_keeps_history(second, third, row);
        } else {
            let (rids, column, value) = choose|
                rids: Seq<usize>,
                column: int,
                value: Option<i64>,
            | #[trigger] rewritten(second, third, rids, column, value);
            theorem_update_keeps_history(second, third, rids, column, value);
        }
        theorem_history_is_kept_on(first, second, third);
    }
}

/// A select at a past time is stable: where a later state of a table keeps
/// the history of an earlier one and a lookup resolves the same records in
/// both, every one of these records shows, at a time before the clock of the
/// earlier state, the same in both.
pub proof fn theorem_versioned_select_is_stable(
    before: Table,
    after: Table,
    column: int,
    value: Option<i64>,
    version: usize,
)
    requires
        before.wf(),
        after.num_columns() == before.num_columns(),
        after.key() == before.key(),
        keeps_history(&before.storage(), &after.storage()),
        version < before.storage().clock(),
        after.located(column, value) == before.located(column, value),
    ensures
        forall|rid: usize| #[trigger]
            after.row(rid as int, Some(version)) == before.row(rid as int, Some(version)),
        forall|rid: usize, record: crate::table::Record|
            #![trigger after.shows(&record, rid, Some(version))]
            after.shows(&record, rid, Some(version)) <==> before.shows(
                &record,
                rid,
                Some(version),
            ),
{
    assert forall|rid: usize| #[trigger]
        after.row(rid as int, Some(version)) == before.row(rid as int, Some(version)) by {
        assert(after.row(rid as int, Some(version)) =~= before.row(rid as int, Some(version)));
    }
}

/// An update of one column leaves the lookups in every other column as
/// they were.
pub proof fn theorem_update_elsewhere_keeps_lookups(
    before: Table,
    after: Table,
    rids: Seq<usize>,
    column: int,
    value: Option<i64>,
    other: int,
    looked_for: Option<i64>,
)
    requires
        before.wf(),
        after.wf(),
        same_shape(&before, &after),
        0 <= other < before.num_columns(),
        other != column,
        rewritten(&before.storage(), &after.storage(), rids, column, value),
    ensures
        after.located(other, looked_for) == before.located(other, looked_for),
{
    before.lemma_located(other, looked_for);
    after.lemma_located(other, looked_for);
    let earlier = before.located(other, looked_for);
    let later = after.located(other, looked_for);
    assert forall|rid: usize| later.contains(rid) <==> earlier.contains(rid) by {
        assert(after.storage().current(rid as int, other) == before.storage().current(
            rid as int,
            other,
        ));
    }
    lemma_ascending_unique(later, earlier);
}

/// Whether `after` is `before` after an update of some records in a column
/// other than `column`.
pub open spec fn updated_elsewhere(before: &Table, after: &Table, column: int) -> bool {
    &&& same_shape(before, after)
    &&& exists|rids: Seq<usize>, other: int, value: Option<i64>|
        other != column && #[trigger] rewritten(
            &before.storage(),
            &after.storage(),
            rids,
            other,
            value,
        )
}

/// A select at a past time is stable over any number of updates: in a run
/// of states of a table, each of which follows from the one before it by an
/// update or an increment of a column other than the one looked up, a
/// select with a version before the clock of one state returns the same
/// records, each with the same row, in every later state.
pub proof fn theorem_select_is_stable_over_updates(
    tables: Seq<Table>,
    column: int,
    value: Option<i64>,
    version: usize,
    i: int,
    j: int,
)
    requires
        forall|k: int| 0 <= k < tables.len() ==> (#[trigger] tables[k]).wf(),
        forall|k: int|
            #![trigger tables[k]]
            0 <= k < tables.len() - 1 ==> updated_elsewhere(&tables[k], &tables[k + 1], column),
        0 <= i <= j < tables.len(),
        0 <= column < tables[i].num_columns(),
        version < tables[i].storage().clock(),
    ensures
        same_shape(&tables[i], &tables[j]),
        keeps_history(&tables[i].storage(), &tables[j].storage()),
        keeps_dead(&tables[i].storage(), &tables[j].storage()),
        tables[j].storage().len() == tables[i].storage().len(),
        tables[j].located(column, value) == tables[i].located(column, value),
        forall|rid: usize| #[trigger]
            tables[j].row(rid as int, Some(version)) == tables[i].row(rid as int, Some(version)),
        forall|rid: usize, record: crate::table::Record|
            #![trigger tables[j].shows(&record, rid, Some(version))]
            tables[j].shows(&record, rid, Some(version)) <==> tables[i].shows(
                &record,
                rid,
                Some(version),
            ),
    decreases j - i,
{
    let first = tables[i];
    if i < j {
        let second = tables[j - 1];
        let third = tables[j];
        theorem_select_is_stable_over_updates(tables, column, value, version, i, j - 1);
        assert(updated_elsewhere(&second, &tables[j - 1 + 1], column));
        let (rids, other, new_value) = choose|rids: Seq<usize>, other: int, new_value: Option<i64>|
            other != column && #[trigger] rewritten(
                &second.storage(),
                &third.storage(),
                rids,
                other,
                new_value,
            );
        theorem_update_keeps_history(&second.storage(), &third.storage(), rids, other, new_value);
        theorem_history_is_kept_on(&first.storage(), &second.storage(), &third.storage());
        theorem_update_elsewhere_keeps_lookups(second, third, rids, other, new_value, column, value);
    }
    theorem_versioned_select_is_stable(first, tables[j], column, value, version);
}

} // verus!
