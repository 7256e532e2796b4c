//! Column storage: for every column a set of base pages and a growing chain
//! of tail pages, both reached through the page directory.

use crate::directory::PageDirectory;
use crate::page::{PAGE_CAPACITY, PageFull};
use vstd::prelude::*;

verus! {

/// Number of values held by the pages of `chain`, in order.
spec fn chain_len(dir: Seq<Seq<Option<i64>>>, chain: Seq<usize>) -> nat {
    if chain.len() == 0 {
        0
    } else {
        ((chain.len() - 1) * PAGE_CAPACITY + dir[chain.last() as int].len()) as nat
    }
}

/// The values held by the pages of `chain`, page after page.
spec fn chain_values(dir: Seq<Seq<Option<i64>>>, chain: Seq<usize>) -> Seq<Option<i64>> {
    Seq::new(
        chain_len(dir, chain),
        |i: int| dir[chain[i / (PAGE_CAPACITY as int)] as int][i % (PAGE_CAPACITY as int)],
    )
}

/// Every page of `chain` exists and holds at least one value, and every page
/// but the last is full.
spec fn chain_wf(dir: Seq<Seq<Option<i64>>>, chain: Seq<usize>) -> bool {
    forall|j: int|
        0 <= j < chain.len() ==> {
            &&& (#[trigger] chain[j]) < dir.len()
            &&& 1 <= dir[chain[j] as int].len() <= PAGE_CAPACITY
            &&& (j + 1 < chain.len() ==> dir[chain[j] as int].len() == PAGE_CAPACITY)
        }
}

/// A chain reads the same in two directories that agree on its pages.
proof fn lemma_chain_frame(
    before: Seq<Seq<Option<i64>>>,
    after: Seq<Seq<Option<i64>>>,
    chain: Seq<usize>,
)
    requires
        chain_wf(before, chain),
        forall|j: int|
            0 <= j < chain.len() ==> (#[trigger] chain[j]) < after.len() && after[chain[j] as int]
                == before[chain[j] as int],
    ensures
        chain_wf(after, chain),
        chain_values(after, chain) == chain_values(before, chain),
{
    if chain.len() > 0 {
        assert(chain[chain.len() - 1] == chain.last());
    }
    assert(chain_values(after, chain) =~= chain_values(before, chain));
}

/// Appends `value` to the last page of `chain`; when that page is full, or
/// there is none, a new page is allocated, becomes the last, and takes the value.
fn append_to_chain(directory: &mut PageDirectory, chain: &mut Vec<usize>, value: Option<i64>)
    requires
        old(directory).wf(),
        chain_wf(old(directory)@, old(chain)@),
    ensures
        final(directory).wf(),
        chain_wf(final(directory)@, final(chain)@),
        chain_values(final(directory)@, final(chain)@) == chain_values(
            old(directory)@,
            old(chain)@,
        ).push(value),
        if chain_len(old(directory)@, old(chain)@) % (PAGE_CAPACITY as nat) == 0 {
            final(directory)@.len() == old(directory)@.len() + 1 && final(chain)@
                == old(chain)@.push(old(directory)@.len() as usize)
        } else {
            final(directory)@.len() == old(directory)@.len() && final(chain)@ == old(chain)@
        },
        final(chain)@.len() > 0,
        forall|id: int|
            0 <= id < old(directory)@.len() && id != final(chain)@.last() ==> final(directory)@[id]
                == old(directory)@[id],
{
    let n = chain.len();
    if n > 0 {
        let last = chain[n - 1];
        assert(chain@[n - 1] == chain@.last());
        match directory.insert(last, value) {
            Ok(_) => {
                assert(chain_values(directory@, chain@) =~= chain_values(
                    old(directory)@,
                    old(chain)@,
                ).push(value));
                return ;
            },
            Err(PageFull) => {},
        }
    }
    let id = directory.allocate();
    chain.push(id);
    let placed = directory.insert(id, value);
    assert(placed is Ok);
    assert(chain@.last() == id);
    assert forall|j: int| 0 <= j < chain@.len() implies {
        &&& (#[trigger] chain@[j]) < directory@.len()
        &&& 1 <= directory@[chain@[j] as int].len() <= PAGE_CAPACITY
        &&& (j + 1 < chain@.len() ==> directory@[chain@[j] as int].len() == PAGE_CAPACITY)
    } by {
        if j < n {
            assert(old(chain)@[j] == chain@[j]);
            if n > 0 {
                assert(old(chain)@[n - 1] == old(chain)@.last());
            }
        }
    }
    assert(chain_values(directory@, chain@) =~= chain_values(old(directory)@, old(chain)@).push(
        value,
    )) by {
        if n > 0 {
            assert(old(chain)@[n - 1] == old(chain)@.last());
        }
        assert forall|i: int| 0 <= i < chain_len(old(directory)@, old(chain)@) implies chain_values(
            directory@,
            chain@,
        )[i] == chain_values(old(directory)@, old(chain)@)[i] by {
            let j = i / (PAGE_CAPACITY as int);
            assert(old(chain)@[j] == chain@[j]);
        }
    }
}

/// The pages of a table, column by column.
///
/// Each column has its base values, one per record in the order of insertion,
/// and its tail values, one per update in the order of the updates. Both are
/// spread over pages of fixed capacity that are allocated on demand.
pub struct ColumnStore {
    directory: PageDirectory,
    base_pages: Vec<Vec<usize>>,
    tail_pages: Vec<Vec<usize>>,
    /// For every page: whether it is a tail page, its column, and its
    /// position in that column's chain.
    owners: Ghost<Seq<(bool, int, int)>>,
}

impl ColumnStore {
    /// Number of columns.
    pub closed spec fn num_columns(&self) -> nat {
        self.base_pages@.len()
    }

    /// Number of pages allocated so far, over all columns.
    pub closed spec fn num_pages(&self) -> nat {
        self.directory@.len()
    }

    /// The base values of column `c`.
    pub closed spec fn base(&self, c: int) -> Seq<Option<i64>> {
        chain_values(self.directory@, self.base_pages@[c]@)
    }

    /// The tail values of column `c`.
    pub closed spec fn tail(&self, c: int) -> Seq<Option<i64>> {
        chain_values(self.directory@, self.tail_pages@[c]@)
    }

    /// Every chain is well formed, and no page belongs to two chains or
    /// occurs twice in one.
    pub closed spec fn wf(&self) -> bool {
        &&& self.directory.wf()
        &&& self.base_pages@.len() == self.tail_pages@.len()
        &&& self.owners@.len() == self.directory@.len()
        &&& forall|c: int|
            0 <= c < self.base_pages@.len() ==> chain_wf(
                self.directory@,
                (#[trigger] self.base_pages@[c])@,
            )
        &&& forall|c: int|
            0 <= c < self.tail_pages@.len() ==> chain_wf(
                self.directory@,
                (#[trigger] self.tail_pages@[c])@,
            )
        &&& forall|c: int, j: int|
            0 <= c < self.base_pages@.len() && 0 <= j < self.base_pages@[c]@.len()
                ==> self.owners@[(#[trigger] self.base_pages@[c]@[j]) as int] == (false, c, j)
        &&& forall|c: int, j: int|
            0 <= c < self.tail_pages@.len() && 0 <= j < self.tail_pages@[c]@.len()
                ==> self.owners@[(#[trigger] self.tail_pages@[c]@[j]) as int] == (true, c, j)
    }

    /// A change to one page, of column `c` and of its tail pages or else of
    /// its base pages, or the allocation of a page, leaves every other chain
    /// as it was.
    proof fn lemma_other_chains_stay(&self, after: &ColumnStore, tail: bool, c: int, touched: int)
        requires
            self.wf(),
            after.base_pages@.len() == self.base_pages@.len(),
            after.tail_pages@.len() == self.tail_pages@.len(),
            after.directory@.len() >= self.directory@.len(),
            forall|id: int|
                0 <= id < self.directory@.len() && id != touched ==> #[trigger] after.directory@[id]
                    == self.directory@[id],
            forall|k: int|
                0 <= k < self.base_pages@.len() && (tail || k != c)
                    ==> #[trigger] after.base_pages@[k]
                    == self.base_pages@[k],
            forall|k: int|
                0 <= k < self.tail_pages@.len() && (!tail || k != c)
                    ==> #[trigger] after.tail_pages@[k] == self.tail_pages@[k],
            touched >= self.directory@.len() || (0 <= touched && self.owners@[touched].0 == tail
                && self.owners@[touched].1 == c),
        ensures
            forall|k: int|
                0 <= k < self.base_pages@.len() && (tail || k != c) ==> chain_wf(
                    after.directory@,
                    (#[trigger] after.base_pages@[k])@,
                ) && chain_values(after.directory@, after.base_pages@[k]@) == chain_values(
                    self.directory@,
                    self.base_pages@[k]@,
                ),
            forall|k: int|
                0 <= k < self.tail_pages@.len() && (!tail || k != c) ==> chain_wf(
                    after.directory@,
                    (#[trigger] after.tail_pages@[k])@,
                ) && chain_values(after.directory@, after.tail_pages@[k]@) == chain_values(
                    self.directory@,
                    self.tail_pages@[k]@,
                ),
    {
        assert forall|k: int| 0 <= k < self.base_pages@.len() && (tail || k != c) implies chain_wf(
            after.directory@,
            (#[trigger] after.base_pages@[k])@,
        ) && chain_values(after.directory@, after.base_pages@[k]@) == chain_values(
            self.directory@,
            self.base_pages@[k]@,
        ) by {
            let chain = self.base_pages@[k]@;
            assert(after.base_pages@[k] == self.base_pages@[k]);
            assert(chain_wf(self.directory@, chain));
            assert forall|j: int| 0 <= j < chain.len() implies (#[trigger] chain[j]) != touched by {
                assert(self.owners@[self.base_pages@[k]@[j] as int] == (false, k, j));
            }
            lemma_chain_frame(self.directory@, after.directory@, chain);
        }
        assert forall|k: int| 0 <= k < self.tail_pages@.len() && (!tail || k != c) implies chain_wf(
            after.directory@,
            (#[trigger] after.tail_pages@[k])@,
        ) && chain_values(after.directory@, after.tail_pages@[k]@) == chain_values(
            self.directory@,
            self.tail_pages@[k]@,
        ) by {
            let chain = self.tail_pages@[k]@;
            assert(after.tail_pages@[k] == self.tail_pages@[k]);
            assert(chain_wf(self.directory@, chain));
            assert forall|j: int| 0 <= j < chain.len() implies (#[trigger] chain[j]) != touched by {
                assert(self.owners@[self.tail_pages@[k]@[j] as int] == (true, k, j));
            }
            lemma_chain_frame(self.directory@, after.directory@, chain);
        }
    }

    /// A store of `num_columns` columns without values.
    pub fn new(num_columns: usize) -> (store: ColumnStore)
        ensures
            store.wf(),
            store.num_columns() == num_columns,
            store.num_pages() == 0,
            forall|c: int| 0 <= c < num_columns ==> (#[trigger] store.base(c)).len() == 0,
            forall|c: int| 0 <= c < num_columns ==> (#[trigger] store.tail(c)).len() == 0,
    {
        let mut base_pages: Vec<Vec<usize>> = Vec::new();
        let mut tail_pages: Vec<Vec<usize>> = Vec::new();
        let mut c: usize = 0;
        while c < num_columns
            invariant
                c <= num_columns,
                base_pages@.len() == c,
                tail_pages@.len() == c,
                forall|k: int| 0 <= k < c ==> (#[trigger] base_pages@[k])@.len() == 0,
                forall|k: int| 0 <= k < c ==> (#[trigger] tail_pages@[k])@.len() == 0,
            decreases num_columns - c,
        {
            base_pages.push(Vec::new());
            tail_pages.push(Vec::new());
            c += 1;
        }
        ColumnStore {
            directory: PageDirectory::new(),
            base_pages,
            tail_pages,
            owners: Ghost(Seq::empty()),
        }
    }

    /// Number of pages allocated so far, over all columns.
    pub fn page_count(&self) -> (n: usize)
        ensures
            n == self.num_pages(),
    {
        self.directory.num_pages()
    }

    /// Number of columns.
    pub fn column_count(&self) -> (n: usize)
        ensures
            n == self.num_columns(),
    {
        self.base_pages.len()
    }

    /// Appends `value` to the base values of column `c`, allocating a page
    /// when the column's current base page is full.
    pub fn append_base(&mut self, c: usize, value: Option<i64>)
        requires
            old(self).wf(),
            c < old(self).num_columns(),
        ensures
            final(self).wf(),
            final(self).num_columns() == old(self).num_columns(),
            final(self).base(c as int) == old(self).base(c as int).push(value),
            final(self).num_pages() == old(self).num_pages() + if old(self).base(
                c as int,
            ).len() % (PAGE_CAPACITY as nat) == 0 {
                1int
            } else {
                0int
            },
            forall|k: int|
                0 <= k < old(self).num_columns() && k != c ==> #[trigger] final(self).base(k)
                    == old(self).base(k),
            forall|k: int|
                0 <= k < old(self).num_columns() ==> #[trigger] final(self).tail(k)
                    == old(self).tail(k),
    {
        let ghost position = self.base_pages@[c as int]@.len() as int;
        append_to_chain(&mut self.directory, &mut self.base_pages[c], value);
        proof {
            if self.directory@.len() > old(self).directory@.len() {
                self.owners@ = self.owners@.push((false, c as int, position));
            }
            let touched = self.base_pages@[c as int]@.last() as int;
            let old_chain = old(self).base_pages@[c as int]@;
            let new_chain = self.base_pages@[c as int]@;
            old(self).directory.lemma_pages_bounded();
            assert(chain_wf(old(self).directory@, old_chain));
            if self.directory@.len() == old(self).directory@.len() {
                assert(new_chain == old_chain);
                assert(position > 0);
                assert(touched == old_chain[position - 1]);
                assert(old(self).owners@[touched] == (false, c as int, position - 1));
            } else {
                assert(touched == old(self).directory@.len());
            }
            old(self).lemma_other_chains_stay(self, false, c as int, touched);
        }
    }

    /// Appends `value` to the tail values of column `c`, allocating a page
    /// when the column's current tail page is full.
    pub fn append_tail(&mut self, c: usize, value: Option<i64>)
        requires
            old(self).wf(),
            c < old(self).num_columns(),
        ensures
            final(self).wf(),
            final(self).num_columns() == old(self).num_columns(),
            final(self).tail(c as int) == old(self).tail(c as int).push(value),
            final(self).num_pages() == old(self).num_pages() + if old(self).tail(
                c as int,
            ).len() % (PAGE_CAPACITY as nat) == 0 {
                1int
            } else {
                0int
            },
            forall|k: int|
                0 <= k < old(self).num_columns() && k != c ==> #[trigger] final(self).tail(k)
                    == old(self).tail(k),
            forall|k: int|
                0 <= k < old(self).num_columns() ==> #[trigger] final(self).base(k)
                    == old(self).base(k),
    {
        let ghost position = self.tail_pages@[c as int]@.len() as int;
        append_to_chain(&mut self.directory, &mut self.tail_pages[c], value);
        proof {
            if self.directory@.len() > old(self).directory@.len() {
                self.owners@ = self.owners@.push((true, c as int, position));
            }
            let touched = self.tail_pages@[c as int]@.last() as int;
            let old_chain = old(self).tail_pages@[c as int]@;
            let new_chain = self.tail_pages@[c as int]@;
            old(self).directory.lemma_pages_bounded();
            assert(chain_wf(old(self).directory@, old_chain));
            if self.directory@.len() == old(self).directory@.len() {
                assert(new_chain == old_chain);
                assert(position > 0);
                assert(touched == old_chain[position - 1]);
                assert(old(self).owners@[touched] == (true, c as int, position - 1));
            } else {
                assert(touched == old(self).directory@.len());
            }
            old(self).lemma_other_chains_stay(self, true, c as int, touched);
        }
    }

    /// The base value of column `c` at position `i`; `None` where the column
    /// holds no such position.
    pub fn read_base(&self, c: usize, i: usize) -> (value: Option<i64>)
        requires
            self.wf(),
            c < self.num_columns(),
        ensures
            value == if i < self.base(c as int).len() {
                self.base(c as int)[i as int]
            } else {
                None
            },
    {
        let chain = &self.base_pages[c];
        let j = i / PAGE_CAPACITY;
        if j < chain.len() {
            assert(chain@[chain@.len() - 1] == chain@.last());
            self.directory.read(chain[j], i % PAGE_CAPACITY)
        } else {
            None
        }
    }

    /// The tail value of column `c` at position `i`; `None` where the column
    /// holds no such position.
    pub fn read_tail(&self, c: usize, i: usize) -> (value: Option<i64>)
        requires
            self.wf(),
            c < self.num_columns(),
        ensures
            value == if i < self.tail(c as int).len() {
                self.tail(c as int)[i as int]
            } else {
                None
            },
    {
        let chain = &self.tail_pages[c];
        let j = i / PAGE_CAPACITY;
        if j < chain.len() {
            assert(chain@[chain@.len() - 1] == chain@.last());
            self.directory.read(chain[j], i % PAGE_CAPACITY)
        } else {
            None
        }
    }

    /// Clears the base value of column `c` at position `i` in place. The
    /// position stays occupied; a position the column does not hold is left
    /// alone.
    pub fn clear_base(&mut self, c: usize, i: usize)
        requires
            old(self).wf(),
            c < old(self).num_columns(),
        ensures
            final(self).wf(),
            final(self).num_columns() == old(self).num_columns(),
            final(self).num_pages() == old(self).num_pages(),
            final(self).base(c as int) == if i < old(self).base(c as int).len() {
                old(self).base(c as int).update(i as int, None)
            } else {
                old(self).base(c as int)
            },
            forall|k: int|
                0 <= k < old(self).num_columns() && k != c ==> #[trigger] final(self).base(k)
                    == old(self).base(k),
            forall|k: int|
                0 <= k < old(self).num_columns() ==> #[trigger] final(self).tail(k)
                    == old(self).tail(k),
    {
        let j = i / PAGE_CAPACITY;
        if j < self.base_pages[c].len() {
            let id = self.base_pages[c][j];
            let ghost chain = self.base_pages@[c as int]@;
            assert(chain[chain.len() - 1] == chain.last());
            self.directory.clear(id, i % PAGE_CAPACITY);
            proof {
                assert(old(self).owners@[chain[j as int] as int] == (false, c as int, j as int));
                old(self).lemma_other_chains_stay(self, false, c as int, id as int);
                assert forall|m: int| 0 <= m < chain.len() && m != j implies (#[trigger] chain[m])
                    != id by {
                    assert(old(self).owners@[old(self).base_pages@[c as int]@[m] as int] == (
                        false,
                        c as int,
                        m,
                    ));
                }
                assert(chain_wf(self.directory@, chain));
                if i < old(self).base(c as int).len() {
                    let cleared = old(self).base(c as int).update(i as int, None);
                    assert forall|x: int| 0 <= x < cleared.len() implies self.base(c as int)[x]
                        == cleared[x] by {
                        let m = x / (PAGE_CAPACITY as int);
                        assert(chain[m] == chain[m]);
                    }
                    assert(self.base(c as int) =~= cleared);
                } else {
                    assert(self.base(c as int) =~= old(self).base(c as int));
                }
            }
        }
    }
}

} // verus!
