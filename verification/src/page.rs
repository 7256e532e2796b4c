//! Pages: the fixed-capacity, column-major unit of allocation.

use vstd::prelude::*;

verus! {

/// Byte budget of one page.
pub const PAGE_SIZE: usize = 4096;

/// Width in bytes of a record's key.
pub const KEY_WIDTH: usize = 8;

/// Width in bytes of a value.
pub const VALUE_WIDTH: usize = 8;

/// Byte cost of one slot: a value is charged together with the key of the
/// record that it belongs to.
pub const SLOT_SIZE: usize = KEY_WIDTH + VALUE_WIDTH;

/// Number of slots a page holds: the byte budget divided by the slot cost.
pub const PAGE_CAPACITY: usize = PAGE_SIZE / SLOT_SIZE;

/// The outcome of an insert into a page whose slots are all taken.
#[derive(Debug, Clone, Copy, PartialEq, Eq)]
pub struct PageFull;

/// A fixed-capacity sequence of optional values with an occupancy counter.
///
/// Slots are created in order and never removed; a slot may be cleared in
/// place, which leaves a tombstone.
pub struct Page {
    num_records: usize,
    data: Vec<Option<i64>>,
}

impl View for Page {
    type V = Seq<Option<i64>>;

    /// The occupied slots, in the order in which they were created.
    closed spec fn view(&self) -> Seq<Option<i64>> {
        self.data@.take(self.num_records as int)
    }
}

impl Page {
    /// The storage behind the page has exactly `PAGE_CAPACITY` slots, of
    /// which the first `num_records` are occupied.
    pub closed spec fn wf(&self) -> bool {
        &&& self.data@.len() == PAGE_CAPACITY
        &&& self.num_records <= PAGE_CAPACITY
    }

    pub proof fn lemma_occupancy_bounded(&self)
        requires
            self.wf(),
        ensures
            self@.len() <= PAGE_CAPACITY,
    {
    }

    /// An empty page.
    pub fn new() -> (page: Page)
        ensures
            page.wf(),
            page@ == Seq::<Option<i64>>::empty(),
    {
        let mut data: Vec<Option<i64>> = Vec::new();
        let mut i: usize = 0;
        while i < PAGE_CAPACITY
            invariant
                i <= PAGE_CAPACITY,
                data@.len() == i,
            decreases PAGE_CAPACITY - i,
        {
            data.push(None);
            i += 1;
        }
        let page = Page { num_records: 0, data };
        assert(page@ =~= Seq::<Option<i64>>::empty());
        page
    }

    /// Number of occupied slots.
    pub fn occupancy(&self) -> (n: usize)
        requires
            self.wf(),
        ensures
            n == self@.len(),
    {
        self.num_records
    }

    /// Whether one more value fits. Every value has the same slot cost, so
    /// the answer depends on the occupancy alone.
    pub fn has_capacity(&self, value: Option<i64>) -> (fits: bool)
        requires
            self.wf(),
        ensures
            fits == (self@.len() < PAGE_CAPACITY),
    {
        (self.num_records + 1) * SLOT_SIZE <= PAGE_SIZE
    }

    /// Appends `value` in the next free slot and returns the slot's position,
    /// or reports `PageFull` and leaves the page as it was.
    pub fn insert(&mut self, value: Option<i64>) -> (result: Result<usize, PageFull>)
        requires
            old(self).wf(),
        ensures
            final(self).wf(),
            old(self)@.len() < PAGE_CAPACITY ==> result == Ok::<usize, PageFull>(
                old(self)@.len() as usize,
            ) && final(self)@ == old(self)@.push(value),
            old(self)@.len() >= PAGE_CAPACITY ==> result == Err::<usize, PageFull>(PageFull)
                && final(self)@ == old(self)@,
    {
        if !self.has_capacity(value) {
            return Err(PageFull);
        }
        let slot = self.num_records;
        self.data[slot] = value;
        self.num_records = slot + 1;
        assert(self@ =~= old(self)@.push(value));
        Ok(slot)
    }

    /// The value in `slot`; `None` where the slot is empty, cleared or not
    /// yet created.
    pub fn read(&self, slot: usize) -> (value: Option<i64>)
        requires
            self.wf(),
        ensures
            value == if slot < self@.len() {
                self@[slot as int]
            } else {
                None
            },
    {
        if slot < self.num_records {
            self.data[slot]
        } else {
            None
        }
    }

    /// Clears `slot` in place. Slots that were never created stay absent.
    pub fn clear(&mut self, slot: usize)
        requires
            old(self).wf(),
        ensures
            final(self).wf(),
            final(self)@ == if slot < old(self)@.len() {
                old(self)@.update(slot as int, None)
            } else {
                old(self)@
            },
    {
        if slot < self.num_records {
            self.data[slot] = None;
            assert(self@ =~= old(self)@.update(slot as int, None));
        }
    }
}

} // verus!
