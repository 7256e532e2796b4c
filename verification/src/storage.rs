//! Record storage with lineage: base values, tail versions, indirection,
//! schema encoding and timestamps.
//!
//! A record keeps its identifier for life. The values it was inserted with
//! are its base version; every update appends a tail version that holds
//! fresh values for the columns it changes and points back at the version
//! it supersedes.
//! Versions live in an arena and are numbered in the order of their creation;
//! that number is the version's timestamp on the table's logical clock.

use crate::columns::ColumnStore;
use crate::page::PAGE_CAPACITY;
use crate::sorted::{ascending, lemma_filter_ascending};
use vstd::prelude::*;

verus! {

/// The outcome of an update or a delete that names no live record.
#[derive(Debug, Clone, Copy, PartialEq, Eq)]
pub struct RecordNotFound;

/// What an update does to one column.
#[derive(Debug, Clone, Copy, PartialEq, Eq)]
pub enum Change {
    /// The column keeps its value.
    Keep,
    /// The column takes this value, which may be null.
    Write(Option<i64>),
}

impl Change {
    /// The value a column has after the change, given the value before it.
    pub open spec fn apply(self, before: Option<i64>) -> Option<i64> {
        match self {
            Change::Keep => before,
            Change::Write(value) => value,
        }
    }
}

/// One version of a record.
struct Version {
    /// The record that this is a version of.
    rid: usize,
    /// The version that this one supersedes; `None` for a base version.
    predecessor: Option<usize>,
    /// Position of the version's values: among the base values for a base
    /// version, among the tail values otherwise.
    slot: usize,
    /// A bitmap of the columns, sixty-four to a word: bit `c` is set where
    /// a tail version holds a fresh value for column `c`.
    schema_encoding: Vec<u64>,
    /// Logical time of the version's creation.
    timestamp: usize,
}

/// Bookkeeping of one record.
#[derive(Clone, Copy)]
struct Lineage {
    /// The record's newest version.
    indirection: usize,
    /// Cleared by a delete.
    live: bool,
}

/// Number of pages that `n` values of one column take.
pub open spec fn pages_for(n: int) -> int {
    (n + PAGE_CAPACITY - 1) / (PAGE_CAPACITY as int)
}

/// One more value takes one more page exactly when the pages so far are
/// full.
pub proof fn lemma_pages_for_next(n: int)
    requires
        n >= 0,
    ensures
        pages_for(n + 1) - pages_for(n) == if n % (PAGE_CAPACITY as int) == 0 {
            1int
        } else {
            0int
        },
{
    assert(PAGE_CAPACITY == 256);
    assert((n + 256) / 256 - (n + 255) / 256 == if n % 256 == 0 {
        1int
    } else {
        0int
    });
}

/// Whether bit `c` of a schema encoding is set.
spec fn schema_bit(encoding: Seq<u64>, c: int) -> bool {
    0 <= c && c / 64 < encoding.len() && (encoding[c / 64] >> ((c % 64) as u64)) & 1 == 1
}

proof fn lemma_word_bit_set(word: u64, c: u64, k: u64)
    by (bit_vector)
    requires
        c < 64,
        k < 64,
    ensures
        ((word | (1u64 << c)) >> k) & 1 == (if k == c {
            1u64
        } else {
            (word >> k) & 1
        }),
{
}

proof fn lemma_word_bit_zero(k: u64)
    by (bit_vector)
    requires
        k < 64,
    ensures
        (0u64 >> k) & 1 == 0,
{
}

/// A schema encoding for `n` columns with no bit set.
fn zero_encoding(n: usize) -> (encoding: Vec<u64>)
    ensures
        encoding@.len() == n / 64 + 1,
        forall|k: int| !#[trigger] schema_bit(encoding@, k),
{
    let words = n / 64 + 1;
    let mut encoding: Vec<u64> = Vec::new();
    let mut w: usize = 0;
    while w < words
        invariant
            w <= words,
            encoding@.len() == w,
            forall|i: int| 0 <= i < w ==> #[trigger] encoding@[i] == 0,
        decreases words - w,
    {
        encoding.push(0);
        w += 1;
    }
    proof {
        assert forall|k: int| !#[trigger] schema_bit(encoding@, k) by {
            if 0 <= k && k / 64 < encoding@.len() {
                lemma_word_bit_zero((k % 64) as u64);
            }
        }
    }
    encoding
}

/// Sets bit `c` of a schema encoding.
fn set_schema_bit(encoding: &mut Vec<u64>, c: usize)
    requires
        c / 64 < old(encoding)@.len(),
    ensures
        final(encoding)@.len() == old(encoding)@.len(),
        forall|k: int|
            #[trigger] schema_bit(final(encoding)@, k) <==> k == c || schema_bit(old(encoding)@, k),
{
    let word = encoding[c / 64];
    encoding[c / 64] = word | (1u64 << ((c % 64) as u64));
    proof {
        assert forall|k: int| #[trigger]
            schema_bit(encoding@, k) <==> k == c || schema_bit(old(encoding)@, k) by {
            if 0 <= k && k / 64 < encoding@.len() {
                if k / 64 == c / 64 {
                    lemma_word_bit_set(word, (c % 64) as u64, (k % 64) as u64);
                }
            }
        }
    }
}

/// Whether bit `c` of a schema encoding is set.
fn has_schema_bit(encoding: &Vec<u64>, c: usize) -> (set: bool)
    requires
        c / 64 < encoding@.len(),
    ensures
        set == schema_bit(encoding@, c as int),
{
    (encoding[c / 64] >> ((c % 64) as u64)) & 1 == 1
}

/// The records of one table.
pub struct Storage {
    columns: ColumnStore,
    records: Vec<Lineage>,
    versions: Vec<Version>,
    num_tails: usize,
}

impl Storage {
    /// Number of columns.
    pub closed spec fn num_columns(&self) -> nat {
        self.columns.num_columns()
    }

    /// Number of records ever inserted, which is also the next record
    /// identifier.
    pub closed spec fn len(&self) -> nat {
        self.records@.len()
    }

    /// The logical clock: the number of versions written so far, and the
    /// timestamp that the next version gets.
    pub closed spec fn clock(&self) -> nat {
        self.versions@.len()
    }

    /// Number of pages allocated so far.
    pub closed spec fn num_pages(&self) -> nat {
        self.columns.num_pages()
    }

    /// Number of updates so far: every version but the base versions.
    pub open spec fn num_updates(&self) -> int {
        self.clock() - self.len()
    }

    /// Whether `rid` names a record that was inserted and not deleted.
    pub closed spec fn is_live(&self, rid: int) -> bool {
        0 <= rid < self.records@.len() && self.records@[rid].live
    }

    spec fn base_at(&self, c: int, i: int) -> Option<i64> {
        if 0 <= i < self.columns.base(c).len() {
            self.columns.base(c)[i]
        } else {
            None
        }
    }

    spec fn tail_at(&self, c: int, i: int) -> Option<i64> {
        if 0 <= i < self.columns.tail(c).len() {
            self.columns.tail(c)[i]
        } else {
            None
        }
    }

    /// The value of column `c` as of version `id`: the version's own value
    /// where it has one, else that of the nearest older version that has.
    spec fn version_value(&self, id: int, c: int) -> Option<i64>
        decreases id,
    {
        if id < 0 || id >= self.versions@.len() {
            None
        } else {
            let v = self.versions@[id];
            match v.predecessor {
                None => self.base_at(c, v.slot as int),
                Some(p) => if schema_bit(v.schema_encoding@, c) {
                    self.tail_at(c, v.slot as int)
                } else if p < id {
                    self.version_value(p as int, c)
                } else {
                    None
                },
            }
        }
    }

    /// The newest version at or before `stamp` on the chain that ends in `id`.
    spec fn version_as_of(&self, id: int, stamp: int) -> Option<int>
        decreases id,
    {
        if id < 0 || id >= self.versions@.len() {
            None
        } else {
            let v = self.versions@[id];
            if v.timestamp <= stamp {
                Some(id)
            } else {
                match v.predecessor {
                    None => None,
                    Some(p) => if p < id {
                        self.version_as_of(p as int, stamp)
                    } else {
                        None
                    },
                }
            }
        }
    }

    /// The current value of column `c` of record `rid`; `None` where the
    /// value is null or the record is not live.
    pub closed spec fn current(&self, rid: int, c: int) -> Option<i64> {
        if self.is_live(rid) {
            self.version_value(self.records@[rid].indirection as int, c)
        } else {
            None
        }
    }

    /// The value that column `c` of record `rid` had at logical time `stamp`;
    /// `None` where that value was null, the record did not exist yet, or
    /// the record is not live.
    pub closed spec fn value_at(&self, rid: int, c: int, stamp: int) -> Option<i64> {
        if self.is_live(rid) {
            match self.version_as_of(self.records@[rid].indirection as int, stamp) {
                Some(id) => self.version_value(id, c),
                None => None,
            }
        } else {
            None
        }
    }

    /// The value that a read with the given version selector returns.
    pub open spec fn value(&self, rid: int, c: int, version: Option<usize>) -> Option<i64> {
        match version {
            None => self.current(rid, c),
            Some(stamp) => self.value_at(rid, c, stamp as int),
        }
    }

    /// Whether `self` is `before` after the insert of a record that holds
    /// `row`: the record gets the next identifier and a base version
    /// stamped with the time of the insert; nothing else changes.
    pub open spec fn follows_insert(&self, before: &Storage, row: Seq<Option<i64>>) -> bool {
        let rid = before.len() as int;
        &&& self.num_columns() == before.num_columns()
        &&& self.len() == before.len() + 1
        &&& self.clock() == before.clock() + 1
        &&& self.num_pages() == before.num_pages() + if before.len() % (PAGE_CAPACITY as nat)
            == 0 {
            before.num_columns()
        } else {
            0
        }
        &&& self.is_live(rid)
        &&& forall|c: int| 0 <= c < row.len() ==> #[trigger] self.current(rid, c) == row[c]
        &&& forall|c: int, stamp: int|
            0 <= c < row.len() ==> #[trigger] self.value_at(rid, c, stamp) == if stamp
                >= before.clock() {
                row[c]
            } else {
                None
            }
        &&& forall|r: int| r != rid ==> #[trigger] self.is_live(r) == before.is_live(r)
        &&& forall|r: int, c: int|
            r != rid && 0 <= c < row.len() ==> #[trigger] self.current(r, c) == before.current(
                r,
                c,
            )
        &&& forall|r: int, c: int, stamp: int|
            r != rid && 0 <= c < row.len() ==> #[trigger] self.value_at(r, c, stamp)
                == before.value_at(r, c, stamp)
    }

    /// Whether `self` is `before` after an update of the live record `rid`
    /// by `changes`: the record gets a new version stamped with the time of
    /// the update; what was readable before that time reads the same, and
    /// nothing else changes.
    pub open spec fn follows_update(&self, before: &Storage, rid: int,
        changes: Seq<Change>) -> bool {
        &&& self.num_columns() == before.num_columns()
        &&& self.len() == before.len()
        &&& self.clock() == before.clock() + 1
        &&& self.num_pages() == before.num_pages() + if before.num_updates()
            % (PAGE_CAPACITY as int) == 0 {
            before.num_columns()
        } else {
            0
        }
        &&& forall|r: int| #[trigger] self.is_live(r) == before.is_live(r)
        &&& forall|c: int|
            0 <= c < changes.len() ==> #[trigger] self.current(rid, c) == changes[c].apply(
                before.current(rid, c),
            )
        &&& forall|c: int, stamp: int|
            0 <= c < changes.len() ==> #[trigger] self.value_at(rid, c, stamp) == if stamp
                >= before.clock() {
                changes[c].apply(before.current(rid, c))
            } else {
                before.value_at(rid, c, stamp)
            }
        &&& forall|r: int, c: int|
            r != rid && 0 <= c < changes.len() ==> #[trigger] self.current(r, c)
                == before.current(r, c)
        &&& forall|r: int, c: int, stamp: int|
            r != rid && 0 <= c < changes.len() ==> #[trigger] self.value_at(r, c, stamp)
                == before.value_at(r, c, stamp)
    }

    /// Whether `self` is `before` after the delete of the live record
    /// `rid`: the record is no longer live; nothing else changes, and the
    /// clock stands.
    pub open spec fn follows_delete(&self, before: &Storage, rid: int) -> bool {
        &&& self.num_columns() == before.num_columns()
        &&& self.len() == before.len()
        &&& self.clock() == before.clock()
        &&& self.num_pages() == before.num_pages()
        &&& !self.is_live(rid)
        &&& forall|r: int| r != rid ==> #[trigger] self.is_live(r) == before.is_live(r)
        &&& forall|r: int, c: int|
            r != rid && 0 <= c < before.num_columns() ==> #[trigger] self.current(r, c)
                == before.current(r, c)
        &&& forall|r: int, c: int, stamp: int|
            r != rid && 0 <= c < before.num_columns() ==> #[trigger] self.value_at(r, c, stamp)
                == before.value_at(r, c, stamp)
    }

    /// A record that is not live reads as null.
    pub proof fn lemma_dead_reads_null(&self, rid: int, c: int, stamp: int)
        requires
            !self.is_live(rid),
        ensures
            self.current(rid, c) == None::<i64>,
            self.value_at(rid, c, stamp) == None::<i64>,
    {
    }

    /// Every record identifier handed out so far, in ascending order.
    pub open spec fn all_rids(&self) -> Seq<usize> {
        Seq::new(self.len(), |i: int| i as usize)
    }

    /// The live records whose current value of `column` is `value`.
    pub open spec fn holds(&self, column: int, value: Option<i64>) -> spec_fn(usize) -> bool {
        |rid: usize| self.is_live(rid as int) && self.current(rid as int, column) == value
    }

    /// The live records whose current value of `column` lies in `low..=high`.
    pub open spec fn holds_within(&self, column: int, low: i64, high: i64) -> spec_fn(
        usize,
    ) -> bool {
        |rid: usize|
            self.is_live(rid as int) && match self.current(rid as int, column) {
                Some(value) => low <= value <= high,
                None => false,
            }
    }

    /// What a full scan of `column` for `value` finds: the matching live
    /// records by ascending identifier.
    pub open spec fn matching(&self, column: int, value: Option<i64>) -> Seq<usize> {
        self.all_rids().filter(self.holds(column, value))
    }

    /// What a full scan of `column` for the values in `low..=high` finds:
    /// the matching live records by ascending identifier.
    pub open spec fn matching_range(&self, column: int, low: i64, high: i64) -> Seq<usize> {
        self.all_rids().filter(self.holds_within(column, low, high))
    }

    /// The layout is coherent: every column holds one base value per record
    /// and one tail value per update, every version belongs to a record and
    /// supersedes an older version of the same record, and every record's
    /// indirection points at one of its own versions.
    pub closed spec fn wf(&self) -> bool {
        &&& self.columns.wf()
        &&& forall|c: int|
            0 <= c < self.columns.num_columns() ==> (#[trigger] self.columns.base(c)).len()
                == self.records@.len()
        &&& forall|c: int|
            0 <= c < self.columns.num_columns() ==> (#[trigger] self.columns.tail(c)).len()
                == self.num_tails
        &&& self.num_tails + self.records@.len() == self.versions@.len()
        &&& forall|id: int| 0 <= id < self.versions@.len() ==> self.version_wf(id)
        &&& forall|rid: int|
            0 <= rid < self.records@.len() ==> {
                &&& (#[trigger] self.records@[rid]).indirection < self.versions@.len()
                &&& self.versions@[self.records@[rid].indirection as int].rid == rid
            }
    }

    spec fn version_wf(&self, id: int) -> bool {
        let v = self.versions@[id];
        &&& v.timestamp == id
        &&& v.rid < self.records@.len()
        &&& v.schema_encoding@.len() == self.columns.num_columns() / 64 + 1
        &&& match v.predecessor {
            None => v.slot == v.rid,
            Some(p) => p < id && self.versions@[p as int].rid == v.rid && v.slot < self.num_tails,
        }
    }

    /// Versions read the same after a change that keeps the existing
    /// versions and tail values and touches no base value but that of
    /// record `skip`.
    proof fn lemma_frame(&self, after: &Storage, skip: int, id: int, c: int)
        requires
            self.wf(),
            0 <= id < self.versions@.len(),
            0 <= c < self.columns.num_columns(),
            after.versions@.len() >= self.versions@.len(),
            forall|k: int|
                0 <= k < self.versions@.len() ==> #[trigger] after.versions@[k]
                    == self.versions@[k],
            after.columns.base(c).len() >= self.columns.base(c).len(),
            forall|i: int|
                0 <= i < self.columns.base(c).len() && i != skip ==> #[trigger] after.columns.base(
                    c,
                )[i] == self.columns.base(c)[i],
            after.columns.tail(c).len() >= self.columns.tail(c).len(),
            forall|i: int|
                0 <= i < self.columns.tail(c).len() ==> #[trigger] after.columns.tail(c)[i]
                    == self.columns.tail(c)[i],
        ensures
            self.versions@[id].rid != skip ==> after.version_value(id, c) == self.version_value(
                id,
                c,
            ),
        decreases id,
    {
        let v = self.versions@[id];
        assert(after.versions@[id] == v);
        assert(self.version_wf(id));
        match v.predecessor {
            None => {},
            Some(p) => {
                self.lemma_frame(after, skip, p as int, c);
            },
        }
    }

    /// Every record has a base version, so the clock is not behind the
    /// number of records.
    pub proof fn lemma_updates_counted(&self)
        requires
            self.wf(),
        ensures
            self.num_updates() >= 0,
    {
    }

    /// A live record has an identifier that was handed out.
    pub proof fn lemma_live_in_range(&self, rid: int)
        ensures
            self.is_live(rid) ==> 0 <= rid < self.len(),
            self.len() <= usize::MAX,
    {
        assert(self.records.len() == self.records@.len());
    }

    /// The search for the version of a time goes the same way after a
    /// change that keeps the existing versions.
    proof fn lemma_frame_as_of(&self, after: &Storage, id: int, stamp: int)
        requires
            self.wf(),
            0 <= id < self.versions@.len(),
            after.versions@.len() >= self.versions@.len(),
            forall|k: int|
                0 <= k < self.versions@.len() ==> #[trigger] after.versions@[k]
                    == self.versions@[k],
        ensures
            after.version_as_of(id, stamp) == self.version_as_of(id, stamp),
        decreases id,
    {
        let v = self.versions@[id];
        assert(after.versions@[id] == v);
        assert(self.version_wf(id));
        match v.predecessor {
            None => {},
            Some(p) => {
                self.lemma_frame_as_of(after, p as int, stamp);
            },
        }
    }

    /// The version found for a time lies on the chain searched.
    proof fn lemma_as_of_range(&self, id: int, stamp: int)
        requires
            self.wf(),
            0 <= id < self.versions@.len(),
        ensures
            match self.version_as_of(id, stamp) {
                Some(k) => 0 <= k <= id && self.versions@[k].rid == self.versions@[id].rid,
                None => true,
            },
        decreases id,
    {
        let v = self.versions@[id];
        assert(self.version_wf(id));
        if v.timestamp > stamp {
            match v.predecessor {
                None => {},
                Some(p) => {
                    self.lemma_as_of_range(p as int, stamp);
                },
            }
        }
    }

    /// A change that keeps the existing versions and tail values, and
    /// touches no record and no base value but those of record `rid`,
    /// leaves every other record reading as it did.
    proof fn lemma_others_read_the_same(&self, after: &Storage, rid: int)
        requires
            self.wf(),
            after.columns.num_columns() == self.columns.num_columns(),
            after.versions@.len() >= self.versions@.len(),
            forall|k: int|
                0 <= k < self.versions@.len() ==> #[trigger] after.versions@[k]
                    == self.versions@[k],
            after.records@.len() == self.records@.len() || (after.records@.len()
                == self.records@.len() + 1 && rid == self.records@.len()),
            forall|r: int|
                0 <= r < self.records@.len() && r != rid ==> #[trigger] after.records@[r]
                    == self.records@[r],
            forall|c: int|
                0 <= c < self.columns.num_columns() ==> (#[trigger] after.columns.base(c)).len()
                    >= self.columns.base(c).len(),
            forall|c: int, i: int|
                0 <= c < self.columns.num_columns() && 0 <= i < self.columns.base(c).len() && i
                    != rid ==> #[trigger] after.columns.base(c)[i] == self.columns.base(c)[i],
            forall|c: int|
                0 <= c < self.columns.num_columns() ==> (#[trigger] after.columns.tail(c)).len()
                    >= self.columns.tail(c).len(),
            forall|c: int, i: int|
                0 <= c < self.columns.num_columns() && 0 <= i < self.columns.tail(c).len()
                    ==> #[trigger] after.columns.tail(c)[i] == self.columns.tail(c)[i],
        ensures
            forall|r: int| r != rid ==> #[trigger] after.is_live(r) == self.is_live(r),
            forall|r: int, c: int|
                r != rid && 0 <= c < self.columns.num_columns() ==> #[trigger] after.current(r, c)
                    == self.current(r, c),
            forall|r: int, c: int, stamp: int|
                r != rid && 0 <= c < self.columns.num_columns() ==> #[trigger] after.value_at(
                    r,
                    c,
                    stamp,
                ) == self.value_at(r, c, stamp),
    {
        assert forall|r: int, c: int, stamp: int|
            r != rid && 0 <= c < self.columns.num_columns() implies #[trigger] after.value_at(
            r,
            c,
            stamp,
        ) == self.value_at(r, c, stamp) && after.current(r, c) == self.current(r, c) by {
            if self.is_live(r) {
                assert(after.records@[r] == self.records@[r]);
                let head = self.records@[r].indirection as int;
                self.lemma_frame(after, rid, head, c);
                self.lemma_frame_as_of(after, head, stamp);
                match self.version_as_of(head, stamp) {
                    Some(k) => {
                        self.lemma_as_of_range(head, stamp);
                        self.lemma_frame(after, rid, k, c);
                    },
                    None => {},
                }
            }
        }
        assert forall|r: int, c: int|
            r != rid && 0 <= c < self.columns.num_columns() implies #[trigger] after.current(r, c)
            == self.current(r, c) by {
            assert(after.value_at(r, c, 0) == self.value_at(r, c, 0));
        }
    }

    /// Once the clock has passed a record's newest version, a read at that
    /// time sees the current values.
    pub proof fn lemma_current_is_latest(&self, rid: int, c: int, stamp: int)
        requires
            self.wf(),
            stamp + 1 >= self.clock(),
        ensures
            self.value_at(rid, c, stamp) == self.current(rid, c),
    {
        if self.is_live(rid) {
            let head = self.records@[rid].indirection as int;
            assert(self.version_wf(head));
        }
    }

    /// A store of `num_columns` columns without records.
    pub fn new(num_columns: usize) -> (storage: Storage)
        ensures
            storage.wf(),
            storage.num_columns() == num_columns,
            storage.len() == 0,
            storage.clock() == 0,
            storage.num_pages() == 0,
    {
        Storage {
            columns: ColumnStore::new(num_columns),
            records: Vec::new(),
            versions: Vec::new(),
            num_tails: 0,
        }
    }

    /// Number of columns.
    pub fn column_count(&self) -> (n: usize)
        ensures
            n == self.num_columns(),
    {
        self.columns.column_count()
    }

    /// Number of pages allocated so far.
    pub fn page_count(&self) -> (n: usize)
        ensures
            n == self.num_pages(),
    {
        self.columns.page_count()
    }

    /// Number of records ever inserted.
    pub fn num_records(&self) -> (n: usize)
        ensures
            n == self.len(),
    {
        self.records.len()
    }

    /// The logical clock.
    pub fn now(&self) -> (n: usize)
        ensures
            n == self.clock(),
    {
        self.versions.len()
    }

    /// Whether `rid` names a live record.
    pub fn contains(&self, rid: usize) -> (live: bool)
        ensures
            live == self.is_live(rid as int),
    {
        rid < self.records.len() && self.records[rid].live
    }

    /// Reads column `c` of record `rid`.
    ///
    /// Without a version selector the result is the current value. With
    /// `Some(stamp)` the lineage is followed back from the newest version to
    /// the newest one written at or before `stamp`, and from there to the
    /// nearest version that holds a value for the column, the base version
    /// at the latest.
    pub fn read(&self, rid: usize, c: usize, version: Option<usize>) -> (value: Option<i64>)
        requires
            self.wf(),
            c < self.num_columns(),
        ensures
            value == self.value(rid as int, c as int, version),
    {
        if rid >= self.records.len() || !self.records[rid].live {
            return None;
        }
        let head = self.records[rid].indirection;
        let mut id = head;
        if let Some(stamp) = version {
            loop
                invariant
                    self.wf(),
                    self.is_live(rid as int),
                    version == Some(stamp),
                    head == self.records@[rid as int].indirection,
                    id < self.versions@.len(),
                    self.version_as_of(id as int, stamp as int) == self.version_as_of(
                        head as int,
                        stamp as int,
                    ),
                ensures
                    self.version_as_of(head as int, stamp as int) == Some(id as int),
                decreases id,
            {
                let v = &self.versions[id];
                assert(self.version_wf(id as int));
                if v.timestamp <= stamp {
                    break ;
                }
                match v.predecessor {
                    None => {
                        return None;
                    },
                    Some(p) => {
                        id = p;
                    },
                }
            }
        }
        let ghost start = id;
        loop
            invariant
                self.wf(),
                c < self.num_columns(),
                self.is_live(rid as int),
                head == self.records@[rid as int].indirection,
                version is None ==> start == head,
                version is Some ==> self.version_as_of(head as int, version->0 as int) == Some(
                    start as int,
                ),
                id < self.versions@.len(),
                self.version_value(id as int, c as int) == self.version_value(
                    start as int,
                    c as int,
                ),
            decreases id,
        {
            let v = &self.versions[id];
            assert(self.version_wf(id as int));
            match v.predecessor {
                None => {
                    return self.columns.read_base(c, v.slot);
                },
                Some(p) => {
                    if has_schema_bit(&v.schema_encoding, c) {
                        return self.columns.read_tail(c, v.slot);
                    }
                    id = p;
                },
            }
        }
    }

    /// Stores a new record with the given values, one per column, and
    /// returns its identifier.
    ///
    /// Each value goes to the column's current base page, or to a fresh page
    /// when that one is full. The record starts without tail versions: its
    /// indirection points at its base version, which is stamped with the
    /// current logical time and has an all-zero schema encoding.
    pub fn insert(&mut self, values: &Vec<Option<i64>>) -> (rid: usize)
        requires
            old(self).wf(),
            values@.len() == old(self).num_columns(),
        ensures
            final(self).wf(),
            rid == old(self).len(),
            final(self).follows_insert(old(self), values@),
    {
        let rid = self.records.len();
        let id = self.versions.len();
        let n = self.columns.column_count();
        let mut c: usize = 0;
        while c < n
            invariant
                c <= n,
                n == values@.len(),
                self.columns.wf(),
                self.columns.num_columns() == n,
                self.records == old(self).records,
                self.versions == old(self).versions,
                self.num_tails == old(self).num_tails,
                old(self).wf(),
                old(self).columns.num_columns() == n,
                self.columns.num_pages() == old(self).columns.num_pages()
                    + if old(self).records@.len() % (PAGE_CAPACITY as nat) == 0 {
                    c as int
                } else {
                    0
                },
                forall|k: int|
                    0 <= k < c ==> #[trigger] self.columns.base(k) == old(self).columns.base(
                        k,
                    ).push(values@[k]),
                forall|k: int|
                    c <= k < n ==> #[trigger] self.columns.base(k) == old(self).columns.base(k),
                forall|k: int|
                    0 <= k < n ==> #[trigger] self.columns.tail(k) == old(self).columns.tail(k),
            decreases n - c,
        {
            assert(old(self).columns.base(c as int).len() == old(self).records@.len());
            self.columns.append_base(c, values[c]);
            c += 1;
        }
        let schema_encoding = zero_encoding(n);
        self.versions.push(
            Version { rid, predecessor: None, slot: rid, schema_encoding, timestamp: id },
        );
        self.records.push(Lineage { indirection: id, live: true });
        proof {
            assert(self.records.len() == rid + 1);
            assert forall|k: int| 0 <= k < self.versions@.len() implies self.version_wf(k) by {
                if k < id {
                    assert(old(self).version_wf(k));
                }
            }
            old(self).lemma_others_read_the_same(self, rid as int);
            assert forall|col: int| 0 <= col < n implies #[trigger] self.current(rid as int, col)
                == values@[col] by {
                assert(self.columns.base(col) == old(self).columns.base(col).push(values@[col]));
            }
            assert forall|col: int, stamp: int| 0 <= col < n implies #[trigger] self.value_at(
                rid as int,
                col,
                stamp,
            ) == if stamp >= old(self).clock() {
                values@[col]
            } else {
                None
            } by {
                assert(self.columns.base(col) == old(self).columns.base(col).push(values@[col]));
            }
        }
        rid
    }

    /// Appends a new version of record `rid` that applies `changes`, one
    /// entry per column.
    ///
    /// The version takes one position in every column's tail values: the
    /// fresh value where the column changes, a placeholder where it does
    /// not, with the schema encoding telling the two apart. Its predecessor
    /// is the record's newest version so far, and the record's indirection
    /// is repointed to it. Fails, changing nothing, where `rid` names no
    /// live record.
    pub fn update(&mut self, rid: usize, changes: &Vec<Change>) -> (result: Result<
        (),
        RecordNotFound,
    >)
        requires
            old(self).wf(),
            changes@.len() == old(self).num_columns(),
        ensures
            final(self).wf(),
            result is Ok <==> old(self).is_live(rid as int),
            result is Err ==> *final(self) == *old(self),
            result is Ok ==> final(self).follows_update(old(self), rid as int, changes@),
    {
        if rid >= self.records.len() || !self.records[rid].live {
            return Err(RecordNotFound);
        }
        let id = self.versions.len();
        let slot = self.num_tails;
        let predecessor = self.records[rid].indirection;
        let n = self.columns.column_count();
        let mut schema_encoding = zero_encoding(n);
        let mut c: usize = 0;
        while c < n
            invariant
                c <= n,
                n == changes@.len(),
                schema_encoding@.len() == n / 64 + 1,
                self.columns.wf(),
                self.columns.num_columns() == n,
                self.records == old(self).records,
                self.versions == old(self).versions,
                self.num_tails == old(self).num_tails,
                forall|k: int|
                    #[trigger] schema_bit(schema_encoding@, k) <==> 0 <= k < c
                        && changes@[k] is Write,
                old(self).wf(),
                old(self).columns.num_columns() == n,
                self.columns.num_pages() == old(self).columns.num_pages()
                    + if old(self).num_tails % PAGE_CAPACITY == 0 {
                    c as int
                } else {
                    0
                },
                forall|k: int|
                    0 <= k < c ==> #[trigger] self.columns.tail(k) == old(self).columns.tail(
                        k,
                    ).push(changes@[k].apply(None)),
                forall|k: int|
                    c <= k < n ==> #[trigger] self.columns.tail(k) == old(self).columns.tail(k),
                forall|k: int|
                    0 <= k < n ==> #[trigger] self.columns.base(k) == old(self).columns.base(k),
            decreases n - c,
        {
            assert(old(self).columns.tail(c as int).len() == old(self).num_tails);
            match changes[c] {
                Change::Keep => {
                    self.columns.append_tail(c, None);
                },
                Change::Write(value) => {
                    self.columns.append_tail(c, value);
                    set_schema_bit(&mut schema_encoding, c);
                },
            }
            c += 1;
        }
        self.versions.push(
            Version { rid, predecessor: Some(predecessor), slot, schema_encoding, timestamp: id },
        );
        self.records[rid] = Lineage { indirection: id, live: true };
        self.num_tails = slot + 1;
        proof {
            assert(self.versions.len() == id + 1);
            assert forall|k: int| 0 <= k < self.versions@.len() implies self.version_wf(k) by {
                if k < id {
                    assert(old(self).version_wf(k));
                }
            }
            assert forall|k: int, col: int|
                0 <= k < id && 0 <= col < n implies #[trigger] self.version_value(k, col)
                    == old(self).version_value(k, col) by {
                assert(old(self).version_wf(k));
                old(self).lemma_frame(self, old(self).records@.len() as int, k, col);
            }
            assert forall|k: int, stamp: int| 0 <= k < id implies #[trigger] self.version_as_of(
                k,
                stamp,
            ) == old(self).version_as_of(k, stamp) by {
                old(self).lemma_frame_as_of(self, k, stamp);
            }
            old(self).lemma_others_read_the_same(self, rid as int);
            assert forall|col: int| 0 <= col < n implies #[trigger] self.current(rid as int, col)
                == changes@[col].apply(old(self).current(rid as int, col)) by {
                assert(self.columns.tail(col) == old(self).columns.tail(col).push(
                    changes@[col].apply(None),
                ));
                assert(schema_bit(self.versions@[id as int].schema_encoding@, col)
                    <==> changes@[col] is Write);
                assert(self.version_value(predecessor as int, col) == old(self).version_value(
                    predecessor as int,
                    col,
                ));
            }
            assert forall|col: int, stamp: int| 0 <= col < n implies #[trigger] self.value_at(
                rid as int,
                col,
                stamp,
            ) == if stamp >= old(self).clock() {
                changes@[col].apply(old(self).current(rid as int, col))
            } else {
                old(self).value_at(rid as int, col, stamp)
            } by {
                assert(self.current(rid as int, col) == changes@[col].apply(
                    old(self).current(rid as int, col),
                ));
                if stamp < old(self).clock() {
                    let head = predecessor as int;
                    assert(self.version_as_of(head, stamp) == old(self).version_as_of(head, stamp));
                    match old(self).version_as_of(head, stamp) {
                        Some(k) => {
                            old(self).lemma_as_of_range(head, stamp);
                            assert(self.version_value(k, col) == old(self).version_value(k, col));
                        },
                        None => {},
                    }
                }
            }
        }
        Ok(())
    }

    /// Removes record `rid`: the record is retired and its base values are
    /// cleared in place. Page space is not reclaimed and the identifier is
    /// not reused. Fails, changing nothing, where `rid` names no live
    /// record.
    pub fn delete(&mut self, rid: usize) -> (result: Result<(), RecordNotFound>)
        requires
            old(self).wf(),
        ensures
            final(self).wf(),
            result is Ok <==> old(self).is_live(rid as int),
            result is Err ==> *final(self) == *old(self),
            result is Ok ==> final(self).follows_delete(old(self), rid as int),
    {
        if rid >= self.records.len() || !self.records[rid].live {
            return Err(RecordNotFound);
        }
        let indirection = self.records[rid].indirection;
        self.records[rid] = Lineage { indirection, live: false };
        let n = self.columns.column_count();
        let mut c: usize = 0;
        while c < n
            invariant
                c <= n,
                self.columns.wf(),
                self.columns.num_columns() == n,
                self.records@ == old(self).records@.update(
                    rid as int,
                    Lineage { indirection, live: false },
                ),
                self.versions == old(self).versions,
                self.num_tails == old(self).num_tails,
                rid < old(self).records@.len(),
                self.columns.num_pages() == old(self).columns.num_pages(),
                forall|k: int|
                    0 <= k < n ==> (#[trigger] old(self).columns.base(k)).len()
                        == old(self).records@.len(),
                forall|k: int|
                    0 <= k < c ==> #[trigger] self.columns.base(k) == old(self).columns.base(
                        k,
                    ).update(rid as int, None),
                forall|k: int|
                    c <= k < n ==> #[trigger] self.columns.base(k) == old(self).columns.base(k),
                forall|k: int|
                    0 <= k < n ==> #[trigger] self.columns.tail(k) == old(self).columns.tail(k),
            decreases n - c,
        {
            self.columns.clear_base(c, rid);
            c += 1;
        }
        proof {
            assert forall|k: int| 0 <= k < self.versions@.len() implies self.version_wf(k) by {
                assert(old(self).version_wf(k));
            }
            old(self).lemma_others_read_the_same(self, rid as int);
        }
        Ok(())
    }

    /// What a scan keeps is ascending, and it is exactly the records that
    /// meet the condition.
    pub proof fn lemma_scan(&self, keep: spec_fn(usize) -> bool)
        ensures
            ascending(self.all_rids().filter(keep)),
            forall|rid: usize|
                self.all_rids().filter(keep).contains(rid) <==> rid < self.len() && keep(rid),
    {
        assert(self.records.len() == self.records@.len());
        let all = self.all_rids();
        assert(ascending(all));
        lemma_filter_ascending(all, keep);
        assert forall|rid: usize| all.filter(keep).contains(rid) <==> rid < self.len() && keep(
            rid,
        ) by {
            if rid < self.len() {
                assert(all[rid as int] == rid);
                assert(all.contains(rid));
            }
            if all.contains(rid) {
                let i = choose|i: int| 0 <= i < all.len() && all[i] == rid;
                assert(rid < self.len());
            }
        }
    }

    /// Scans `column` for `value`: the live records whose current value is
    /// `value`, by ascending identifier.
    pub fn scan(&self, column: usize, value: Option<i64>) -> (rids: Vec<usize>)
        requires
            self.wf(),
            column < self.num_columns(),
        ensures
            rids@ == self.matching(column as int, value),
    {
        let ghost keep = self.holds(column as int, value);
        let n = self.records.len();
        let mut rids: Vec<usize> = Vec::new();
        let mut rid: usize = 0;
        proof {
            reveal(Seq::filter);
            assert(self.all_rids().take(0) =~= Seq::<usize>::empty());
        }
        while rid < n
            invariant
                self.wf(),
                column < self.num_columns(),
                n == self.len(),
                rid <= n,
                keep == self.holds(column as int, value),
                rids@ == self.all_rids().take(rid as int).filter(keep),
            decreases n - rid,
        {
            let found = self.read(rid, column, None);
            let matches = self.contains(rid) && match (found, value) {
                (Some(a), Some(b)) => a == b,
                (None, None) => true,
                _ => false,
            };
            proof {
                reveal(Seq::filter);
                let longer = self.all_rids().take(rid + 1);
                assert(longer.drop_last() =~= self.all_rids().take(rid as int));
                assert(longer.last() == rid);
                assert(matches == keep(rid));
            }
            if matches {
                rids.push(rid);
            }
            rid += 1;
        }
        assert(self.all_rids().take(n as int) =~= self.all_rids());
        rids
    }

    /// Scans `column` for the values in `low..=high`: the live records
    /// whose current value lies in the range, by ascending identifier.
    pub fn scan_range(&self, column: usize, low: i64, high: i64) -> (rids: Vec<usize>)
        requires
            self.wf(),
            column < self.num_columns(),
        ensures
            rids@ == self.matching_range(column as int, low, high),
    {
        let ghost keep = self.holds_within(column as int, low, high);
        let n = self.records.len();
        let mut rids: Vec<usize> = Vec::new();
        let mut rid: usize = 0;
        proof {
            reveal(Seq::filter);
            assert(self.all_rids().take(0) =~= Seq::<usize>::empty());
        }
        while rid < n
            invariant
                self.wf(),
                column < self.num_columns(),
                n == self.len(),
                rid <= n,
                keep == self.holds_within(column as int, low, high),
                rids@ == self.all_rids().take(rid as int).filter(keep),
            decreases n - rid,
        {
            let matches = self.contains(rid) && match self.read(rid, column, None) {
                Some(value) => low <= value && value <= high,
                None => false,
            };
            proof {
                reveal(Seq::filter);
                let longer = self.all_rids().take(rid + 1);
                assert(longer.drop_last() =~= self.all_rids().take(rid as int));
                assert(longer.last() == rid);
                assert(matches == keep(rid));
            }
            if matches {
                rids.push(rid);
            }
            rid += 1;
        }
        assert(self.all_rids().take(n as int) =~= self.all_rids());
        rids
    }
}

} // verus!
