//! The hash index of one column: entries spread over buckets by the hash of
//! their value, with a bucket count that grows with the number of entries.

use crate::hash::{bucket_of, generate_hash};
use crate::ordered::{
    entry_lt, lemma_rids_in_range_contains, lemma_rids_of_nothing, lemma_rids_of_value_ascending,
    rids_in_range, strictly_sorted, OrderedIndex,
};
use crate::prime::{find_prime, least_prime};
use crate::sorted::ascending;
use std::collections::HashMap;
use vstd::prelude::*;

verus! {

broadcast use vstd::std_specs::hash::group_hash_axioms;

/// Number of buckets of a new hash index.
pub const INITIAL_BUCKETS: usize = 101;

/// Whether `count` entries in `buckets` buckets exceed the load factor of
/// three quarters.
pub open spec fn overloaded(count: int, buckets: int) -> bool {
    4 * count > 3 * buckets
}

/// The bucket count that follows `buckets` when the table grows: the
/// smallest prime from twice `buckets` upwards, or `buckets` itself where no
/// such prime fits the machine word.
pub open spec fn grow(buckets: int) -> int {
    match least_prime(2 * buckets) {
        Some(p) => p,
        None => buckets,
    }
}

/// The bucket count of a table of `count` entries after the check of its
/// load factor, which found it with `buckets` buckets: grown where the
/// entries exceed the load factor, else as it was.
pub open spec fn resized(count: int, buckets: int) -> int {
    if overloaded(count, buckets) {
        grow(buckets)
    } else {
        buckets
    }
}

/// Number of entries in all buckets of `table`.
spec fn entries_in(table: Seq<Seq<(i64, usize)>>) -> nat
    decreases table.len(),
{
    if table.len() == 0 {
        0
    } else {
        entries_in(table.drop_last()) + table.last().len()
    }
}

/// Whether every entry of `table` lies in the bucket of its value.
spec fn homed(table: Seq<Seq<(i64, usize)>>) -> bool {
    forall|b: int, i: int|
        0 <= b < table.len() && 0 <= i < table[b].len() ==> bucket_of(
            (#[trigger] table[b][i]).0,
            table.len() as int,
        ) == b
}

/// A change to one bucket changes the number of entries by as much as it
/// changes the bucket.
proof fn lemma_entries_after_change(
    before: Seq<Seq<(i64, usize)>>,
    after: Seq<Seq<(i64, usize)>>,
    b: int,
)
    requires
        0 <= b < before.len(),
        after.len() == before.len(),
        forall|x: int| 0 <= x < before.len() && x != b ==> after[x] == before[x],
    ensures
        entries_in(after) + before[b].len() == entries_in(before) + after[b].len(),
    decreases before.len(),
{
    let last = before.len() - 1;
    if b == last {
        assert(after.drop_last() =~= before.drop_last());
    } else {
        lemma_entries_after_change(before.drop_last(), after.drop_last(), b);
        assert(after.last() == before.last());
    }
}

/// A bucket that took only entries of its own, or gave some away, leaves
/// every entry in the bucket of its value.
proof fn lemma_homed_after_change(
    before: Seq<Seq<(i64, usize)>>,
    after: Seq<Seq<(i64, usize)>>,
    b: int,
    value: i64,
)
    requires
        homed(before),
        0 <= b < before.len(),
        after.len() == before.len(),
        forall|x: int| 0 <= x < before.len() && x != b ==> after[x] == before[x],
        bucket_of(value, before.len() as int) == b,
        forall|entry: (i64, usize)|
            after[b].contains(entry) ==> before[b].contains(entry) || entry.0 == value,
    ensures
        homed(after),
{
    assert forall|x: int, i: int| 0 <= x < after.len() && 0 <= i < after[x].len() implies bucket_of(
        (#[trigger] after[x][i]).0,
        after.len() as int,
    ) == x by {
        let entry = after[x][i];
        if x == b {
            assert(after[x].contains(entry));
            if before[x].contains(entry) {
                let k = choose|k: int| 0 <= k < before[x].len() && before[x][k] == entry;
                assert(bucket_of(before[x][k].0, before.len() as int) == x);
            }
        } else {
            assert(before[x][i] == entry);
        }
    }
}

/// The first buckets hold no more entries than all of them, and one bucket
/// more holds its own entries more.
proof fn lemma_entries_in_prefix(table: Seq<Seq<(i64, usize)>>, b: int)
    requires
        0 <= b < table.len(),
    ensures
        entries_in(table.take(b + 1)) == entries_in(table.take(b)) + table[b].len(),
        entries_in(table.take(b + 1)) <= entries_in(table),
    decreases table.len() - b,
{
    assert(table.take(b + 1).drop_last() =~= table.take(b));
    if b + 1 < table.len() {
        lemma_entries_in_prefix(table, b + 1);
    } else {
        assert(table.take(b + 1) =~= table);
    }
}

/// Buckets without entries hold none.
proof fn lemma_entries_in_empty(table: Seq<Seq<(i64, usize)>>)
    requires
        forall|b: int| 0 <= b < table.len() ==> (#[trigger] table[b]).len() == 0,
    ensures
        entries_in(table) == 0,
    decreases table.len(),
{
    if table.len() > 0 {
        assert forall|b: int| 0 <= b < table.drop_last().len() implies (
        #[trigger] table.drop_last()[b]).len() == 0 by {
            assert(table[b].len() == 0);
        }
        lemma_entries_in_empty(table.drop_last());
        assert(table[table.len() - 1].len() == 0);
    }
}

/// A hash table from values to the records that hold them.
///
/// The buckets are numbered from zero and kept in a map by their number; a
/// bucket that never took an entry is not in the map. A bucket keeps its
/// entries in order, so that the records of one value come out by ascending
/// identifier.
pub struct HashIndex {
    buckets: HashMap<usize, OrderedIndex>,
    num_buckets: usize,
    num_records: usize,
}

impl HashIndex {
    /// Number of buckets.
    pub closed spec fn num_buckets(&self) -> nat {
        self.num_buckets as nat
    }

    /// Number of entries, which the load factor is taken from.
    pub closed spec fn count(&self) -> nat {
        self.num_records as nat
    }

    /// The entries of bucket `b`.
    spec fn bucket(&self, b: int) -> Seq<(i64, usize)> {
        if 0 <= b <= usize::MAX && self.buckets@.contains_key(b as usize) {
            self.buckets@[b as usize]@
        } else {
            Seq::empty()
        }
    }

    /// The entries of every bucket, by bucket number.
    spec fn table(&self) -> Seq<Seq<(i64, usize)>> {
        Seq::new(self.num_buckets as nat, |b: int| self.bucket(b))
    }

    /// Whether the index holds the entry `(value, rid)`.
    pub closed spec fn contains(&self, value: i64, rid: usize) -> bool {
        self.table()[bucket_of(value, self.num_buckets as int)].contains((value, rid))
    }

    /// The records of `value`, by ascending identifier.
    pub closed spec fn hits(&self, value: i64) -> Seq<usize> {
        rids_in_range(self.table()[bucket_of(value, self.num_buckets as int)], value, value)
    }

    /// There is at least one bucket, every bucket in the map has one of the
    /// bucket numbers and is in order, every entry lies in the bucket of its
    /// value, and the counter is the number of entries.
    pub closed spec fn wf(&self) -> bool {
        &&& self.num_buckets > 0
        &&& forall|b: usize| #[trigger]
            self.buckets@.contains_key(b) ==> b < self.num_buckets && self.buckets@[b].wf()
        &&& homed(self.table())
        &&& self.num_records == entries_in(self.table())
    }

    /// Every bucket is in order.
    proof fn lemma_buckets_sorted(&self, b: int)
        requires
            self.wf(),
        ensures
            strictly_sorted(self.bucket(b)),
    {
        if 0 <= b <= usize::MAX && self.buckets@.contains_key(b as usize) {
            assert(self.buckets@[b as usize].wf());
        }
    }

    /// The records of a value are exactly those that the index holds for
    /// it, without repeats.
    pub proof fn lemma_hits(&self, value: i64)
        requires
            self.wf(),
        ensures
            self.num_buckets() > 0,
            ascending(self.hits(value)),
            forall|rid: usize| self.hits(value).contains(rid) <==> self.contains(value, rid),
    {
        let b = bucket_of(value, self.num_buckets as int);
        lemma_bucket_in_range(value, self.num_buckets as int);
        self.lemma_buckets_sorted(b);
        lemma_rids_of_value_ascending(self.table()[b], value);
        assert forall|rid: usize| self.hits(value).contains(rid) <==> self.contains(
            value,
            rid,
        ) by {
            lemma_rids_in_range_contains(self.table()[b], value, value, rid);
        }
    }

    /// A hash index of `num_buckets` empty buckets.
    pub fn new(num_buckets: usize) -> (index: HashIndex)
        requires
            num_buckets > 0,
        ensures
            index.wf(),
            index.num_buckets() == num_buckets,
            index.count() == 0,
            forall|value: i64, rid: usize| !index.contains(value, rid),
    {
        let index = HashIndex { buckets: HashMap::new(), num_buckets, num_records: 0 };
        proof {
            lemma_entries_in_empty(index.table());
            assert forall|value: i64, rid: usize| !index.contains(value, rid) by {
                lemma_bucket_in_range(value, num_buckets as int);
            }
        }
        index
    }

    /// Number of buckets.
    pub fn bucket_count(&self) -> (n: usize)
        ensures
            n == self.num_buckets(),
    {
        self.num_buckets
    }

    /// The entry counter.
    pub fn record_count(&self) -> (n: usize)
        ensures
            n == self.count(),
    {
        self.num_records
    }

    /// The records of `value`, by ascending identifier.
    pub fn lookup(&self, value: i64) -> (rids: Vec<usize>)
        requires
            self.wf(),
        ensures
            rids@ == self.hits(value),
    {
        let b = generate_hash(value, self.num_buckets);
        match self.buckets.get(&b) {
            Some(bucket) => bucket.range(value, value),
            None => {
                proof {
                    lemma_rids_of_nothing(value, value);
                }
                let rids: Vec<usize> = Vec::new();
                assert(rids@ =~= self.hits(value));
                rids
            },
        }
    }

    /// Takes the bucket with number `b` out of the map, or makes an empty
    /// one where the map has none.
    fn take_bucket(&mut self, b: usize) -> (bucket: OrderedIndex)
        requires
            old(self).wf(),
            b < old(self).num_buckets,
        ensures
            bucket.wf(),
            bucket@ == old(self).table()[b as int],
            final(self).buckets@ == old(self).buckets@.remove(b),
            final(self).num_buckets == old(self).num_buckets,
            final(self).num_records == old(self).num_records,
    {
        match self.buckets.remove(&b) {
            Some(bucket) => bucket,
            None => OrderedIndex::new(),
        }
    }

    /// A bucket that is put back changes its own entry of the table and no
    /// other.
    proof fn lemma_bucket_put_back(&self, before: &HashIndex, b: usize, bucket: OrderedIndex)
        requires
            before.wf(),
            b < before.num_buckets,
            self.num_buckets == before.num_buckets,
            self.buckets@ == before.buckets@.remove(b).insert(b, bucket),
            bucket.wf(),
        ensures
            self.table() == before.table().update(b as int, bucket@),
            forall|k: usize| #[trigger]
                self.buckets@.contains_key(k) ==> k < self.num_buckets && self.buckets@[k].wf(),
    {
        assert forall|x: int| 0 <= x < self.num_buckets implies #[trigger] self.table()[x]
            == before.table().update(b as int, bucket@)[x] by {
            if x != b {
                assert(self.buckets@.contains_key(x as usize) == before.buckets@.contains_key(
                    x as usize,
                ));
            }
        }
        assert(self.table() =~= before.table().update(b as int, bucket@));
        assert forall|k: usize| #[trigger]
            self.buckets@.contains_key(k) implies k < self.num_buckets && self.buckets@[k].wf() by {
            if k != b {
                assert(before.buckets@.contains_key(k));
            }
        }
    }

    /// Adds the entry `(value, rid)` to the bucket of its value and counts
    /// it, unless it is there already, and reports whether it was new.
    pub fn insert(&mut self, value: i64, rid: usize) -> (added: bool)
        requires
            old(self).wf(),
            old(self).count() < usize::MAX,
        ensures
            final(self).wf(),
            final(self).num_buckets() == old(self).num_buckets(),
            added == !old(self).contains(value, rid),
            final(self).count() == old(self).count() + if added {
                1int
            } else {
                0int
            },
            forall|v: i64, r: usize|
                #[trigger] final(self).contains(v, r) <==> old(self).contains(v, r) || (v == value
                    && r == rid),
    {
        let b = generate_hash(value, self.num_buckets);
        let mut bucket = self.take_bucket(b);
        let added = bucket.insert(value, rid);
        let ghost filled = bucket;
        self.buckets.insert(b, bucket);
        if added {
            self.num_records = self.num_records + 1;
        }
        proof {
            self.lemma_bucket_put_back(old(self), b, filled);
            lemma_homed_after_change(old(self).table(), self.table(), b as int, value);
            lemma_entries_after_change(old(self).table(), self.table(), b as int);
            assert forall|v: i64, r: usize| #[trigger]
                self.contains(v, r) <==> old(self).contains(v, r) || (v == value && r == rid) by {
                lemma_bucket_in_range(v, self.num_buckets as int);
            }
        }
        added
    }

    /// Removes the entry `(value, rid)` and discounts it, if it is there,
    /// and reports whether it was.
    pub fn remove(&mut self, value: i64, rid: usize) -> (removed: bool)
        requires
            old(self).wf(),
        ensures
            final(self).wf(),
            final(self).num_buckets() == old(self).num_buckets(),
            removed == old(self).contains(value, rid),
            final(self).count() == old(self).count() - if removed {
                1int
            } else {
                0int
            },
            forall|v: i64, r: usize|
                #[trigger] final(self).contains(v, r) <==> old(self).contains(v, r) && !(v == value
                    && r == rid),
    {
        let b = generate_hash(value, self.num_buckets);
        let mut bucket = self.take_bucket(b);
        let removed = bucket.remove(value, rid);
        let ghost thinned = bucket;
        self.buckets.insert(b, bucket);
        proof {
            self.lemma_bucket_put_back(old(self), b, thinned);
            lemma_homed_after_change(old(self).table(), self.table(), b as int, value);
            lemma_entries_after_change(old(self).table(), self.table(), b as int);
        }
        if removed {
            self.num_records = self.num_records - 1;
        }
        proof {
            assert(self.table() == old(self).table().update(b as int, thinned@));
            assert forall|v: i64, r: usize| #[trigger]
                self.contains(v, r) <==> old(self).contains(v, r) && !(v == value && r == rid) by {
                lemma_bucket_in_range(v, self.num_buckets as int);
            }
        }
        removed
    }

    /// Whether the entry `(value, rid)` was moved by the time the rehash
    /// stands before entry `i` of bucket `b`.
    spec fn moved(&self, b: int, i: int, value: i64, rid: usize) -> bool {
        exists|x: int, y: int|
            0 <= x < self.num_buckets && 0 <= y < self.table()[x].len() && (x < b || (x == b && y
                < i)) && #[trigger] self.table()[x][y] == (value, rid)
    }

    /// An entry that the rehash has not come to yet was not moved.
    proof fn lemma_not_moved_yet(&self, b: int, i: int)
        requires
            self.wf(),
            0 <= b < self.num_buckets,
            0 <= i < self.table()[b].len(),
        ensures
            !self.moved(b, i, self.table()[b][i].0, self.table()[b][i].1),
    {
        let entry = self.table()[b][i];
        if self.moved(b, i, entry.0, entry.1) {
            let (x, y) = choose|x: int, y: int|
                0 <= x < self.num_buckets && 0 <= y < self.table()[x].len() && (x < b || (x == b
                    && y < i)) && #[trigger] self.table()[x][y] == entry;
            assert(bucket_of(self.table()[x][y].0, self.num_buckets as int) == x);
            assert(bucket_of(self.table()[b][i].0, self.num_buckets as int) == b);
            self.lemma_buckets_sorted(b);
            assert(entry_lt(self.table()[b][y], self.table()[b][i]));
        }
    }

    /// The entries moved by the time the rehash stands before entry `i + 1`
    /// of a bucket are those moved before entry `i`, and that entry.
    proof fn lemma_moved_next(&self, b: int, i: int, value: i64, rid: usize)
        requires
            0 <= b < self.num_buckets,
            0 <= i < self.table()[b].len(),
        ensures
            self.moved(b, i + 1, value, rid) <==> self.moved(b, i, value, rid) || self.table()[b][i]
                == (value, rid),
    {
        if self.moved(b, i + 1, value, rid) {
            let (x, y) = choose|x: int, y: int|
                0 <= x < self.num_buckets && 0 <= y < self.table()[x].len() && (x < b || (x == b
                    && y < i + 1)) && #[trigger] self.table()[x][y] == (value, rid);
            if !(x == b && y == i) {
                assert(self.table()[x][y] == (value, rid));
            }
        }
        if self.moved(b, i, value, rid) {
            let (x, y) = choose|x: int, y: int|
                0 <= x < self.num_buckets && 0 <= y < self.table()[x].len() && (x < b || (x == b
                    && y < i)) && #[trigger] self.table()[x][y] == (value, rid);
            assert(self.table()[x][y] == (value, rid));
        }
        if self.table()[b][i] == (value, rid) {
            assert(self.table()[b][i] == (value, rid));
        }
    }

    /// The entries moved by the end of a bucket are those moved by the
    /// start of the next.
    proof fn lemma_moved_bucket(&self, b: int, value: i64, rid: usize)
        requires
            0 <= b < self.num_buckets,
        ensures
            self.moved(b + 1, 0, value, rid) <==> self.moved(
                b,
                self.table()[b].len() as int,
                value,
                rid,
            ),
    {
        let size = self.table()[b].len() as int;
        if self.moved(b + 1, 0, value, rid) {
            let (x, y) = choose|x: int, y: int|
                0 <= x < self.num_buckets && 0 <= y < self.table()[x].len() && (x < b + 1 || (x
                    == b + 1 && y < 0)) && #[trigger] self.table()[x][y] == (value, rid);
            assert(self.table()[x][y] == (value, rid));
        }
        if self.moved(b, size, value, rid) {
            let (x, y) = choose|x: int, y: int|
                0 <= x < self.num_buckets && 0 <= y < self.table()[x].len() && (x < b || (x == b
                    && y < size)) && #[trigger] self.table()[x][y] == (value, rid);
            assert(self.table()[x][y] == (value, rid));
        }
    }

    /// Once the rehash is through, it has moved exactly the entries of the
    /// index.
    proof fn lemma_moved_all(&self, value: i64, rid: usize)
        requires
            self.wf(),
        ensures
            self.moved(self.num_buckets as int, 0, value, rid) <==> self.contains(value, rid),
    {
        let n = self.num_buckets as int;
        lemma_bucket_in_range(value, n);
        let home = bucket_of(value, n);
        if self.moved(n, 0, value, rid) {
            let (x, y) = choose|x: int, y: int|
                0 <= x < self.num_buckets && 0 <= y < self.table()[x].len() && (x < n || (x == n
                    && y < 0)) && #[trigger] self.table()[x][y] == (value, rid);
            assert(bucket_of(self.table()[x][y].0, n) == x);
        }
        if self.contains(value, rid) {
            let y = choose|y: int|
                0 <= y < self.table()[home].len() && self.table()[home][y] == (value, rid);
            assert(self.table()[home][y] == (value, rid));
        }
    }

    /// Grows the table once the load factor exceeds three quarters: the
    /// bucket count becomes the smallest prime from twice the old count
    /// upwards and every entry is hashed anew. The entries stay the same.
    pub fn check_and_resize(&mut self)
        requires
            old(self).wf(),
        ensures
            final(self).wf(),
            final(self).count() == old(self).count(),
            forall|v: i64, r: usize|
                #[trigger] final(self).contains(v, r) <==> old(self).contains(v, r),
            final(self).num_buckets() == resized(
                old(self).count() as int,
                old(self).num_buckets() as int,
            ),
    {
        let old_count = self.num_buckets;
        if (self.num_records as u128) * 4 <= (old_count as u128) * 3 {
            return ;
        }
        if old_count > usize::MAX / 2 {
            return ;
        }
        let new_count = match find_prime(old_count * 2) {
            Some(p) => p,
            None => {
                return ;
            },
        };
        let mut fresh = HashIndex::new(new_count);
        let mut b: usize = 0;
        while b < old_count
            invariant
                self.wf(),
                old_count == self.num_buckets,
                b <= old_count,
                fresh.wf(),
                fresh.num_buckets() == new_count,
                fresh.count() == entries_in(self.table().take(b as int)),
                forall|v: i64, r: usize| #[trigger]
                    fresh.contains(v, r) <==> self.moved(b as int, 0, v, r),
            decreases old_count - b,
        {
            proof {
                lemma_entries_in_prefix(self.table(), b as int);
            }
            match self.buckets.get(&b) {
                Some(bucket) => {
                    let size = bucket.len();
                    let mut i: usize = 0;
                    while i < size
                        invariant
                            self.wf(),
                            old_count == self.num_buckets,
                            b < old_count,
                            bucket@ == self.table()[b as int],
                            size == bucket@.len(),
                            i <= size,
                            fresh.wf(),
                            fresh.num_buckets() == new_count,
                            fresh.count() == entries_in(self.table().take(b as int)) + i,
                            entries_in(self.table().take(b as int)) + size <= self.num_records,
                            forall|v: i64, r: usize| #[trigger]
                                fresh.contains(v, r) <==> self.moved(b as int, i as int, v, r),
                        decreases size - i,
                    {
                        let entry = bucket.entry(i);
                        proof {
                            self.lemma_not_moved_yet(b as int, i as int);
                            assert forall|v: i64, r: usize|
                                self.moved(b as int, i + 1, v, r) <==> self.moved(
                                    b as int,
                                    i as int,
                                    v,
                                    r,
                                ) || (v == entry.0 && r == entry.1) by {
                                self.lemma_moved_next(b as int, i as int, v, r);
                            }
                        }
                        fresh.insert(entry.0, entry.1);
                        i += 1;
                    }
                },
                None => {},
            }
            proof {
                assert forall|v: i64, r: usize| #[trigger]
                    fresh.contains(v, r) <==> self.moved(b + 1, 0, v, r) by {
                    self.lemma_moved_bucket(b as int, v, r);
                }
            }
            b += 1;
        }
        proof {
            assert(self.table().take(old_count as int) =~= self.table());
            assert forall|v: i64, r: usize| #[trigger]
                fresh.contains(v, r) <==> self.contains(v, r) by {
                self.lemma_moved_all(v, r);
            }
        }
        *self = fresh;
    }
}

/// The bucket of a value is one of the table's buckets.
pub proof fn lemma_bucket_in_range(value: i64, num_buckets: int)
    requires
        num_buckets > 0,
    ensures
        0 <= bucket_of(value, num_buckets) < num_buckets,
{
    let digest = crate::hash::sha256(crate::hash::decimal(value as int));
    assert(crate::hash::leading_u64(digest) >= 0);
}

} // verus!
