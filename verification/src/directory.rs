//! The page directory: the map from logical page identifiers to pages.

use crate::page::{Page, PageFull, PAGE_CAPACITY};
use std::collections::HashMap;
use vstd::prelude::*;

verus! {

broadcast use vstd::std_specs::hash::group_hash_axioms;

/// Owns every page of a table. A page is known to the rest of the table by
/// its identifier only; identifiers are handed out in order and never reused.
pub struct PageDirectory {
    pages: HashMap<usize, Page>,
}

impl View for PageDirectory {
    type V = Seq<Seq<Option<i64>>>;

    /// The occupied slots of every page, by page identifier.
    closed spec fn view(&self) -> Seq<Seq<Option<i64>>> {
        Seq::new(self.pages@.len(), |id: int| self.pages@[id as usize]@)
    }
}

impl PageDirectory {
    /// The identifiers in use are those below the number of pages, and
    /// every page is well formed.
    pub closed spec fn wf(&self) -> bool {
        &&& forall|id: usize| #[trigger] self.pages@.contains_key(id) <==> id < self.pages@.len()
        &&& forall|id: usize| self.pages@.contains_key(id) ==> (#[trigger] self.pages@[id]).wf()
    }

    pub proof fn lemma_pages_bounded(&self)
        requires
            self.wf(),
        ensures
            self@.len() <= usize::MAX,
            forall|id: int| 0 <= id < self@.len() ==> (#[trigger] self@[id]).len() <= PAGE_CAPACITY,
    {
        assert(self.pages.len() == self.pages@.len());
        assert forall|id: int| 0 <= id < self@.len() implies (#[trigger] self@[id]).len()
            <= PAGE_CAPACITY by {
            assert(self.pages@.contains_key(id as usize));
            self.pages@[id as usize].lemma_occupancy_bounded();
        }
    }

    /// A directory without pages.
    pub fn new() -> (directory: PageDirectory)
        ensures
            directory.wf(),
            directory@.len() == 0,
    {
        PageDirectory { pages: HashMap::new() }
    }

    /// Number of pages allocated so far, which is also the next identifier.
    pub fn num_pages(&self) -> (n: usize)
        ensures
            n == self@.len(),
    {
        self.pages.len()
    }

    /// Allocates an empty page and returns its identifier.
    pub fn allocate(&mut self) -> (id: usize)
        requires
            old(self).wf(),
        ensures
            final(self).wf(),
            id == old(self)@.len(),
            final(self)@ == old(self)@.push(Seq::<Option<i64>>::empty()),
    {
        let id = self.pages.len();
        self.pages.insert(id, Page::new());
        proof {
            assert(self.pages@.dom() =~= old(self).pages@.dom().insert(id));
            assert(self.pages@.len() == old(self).pages@.len() + 1);
            assert(self@ =~= old(self)@.push(Seq::<Option<i64>>::empty()));
        }
        id
    }

    /// Number of occupied slots of page `id`.
    pub fn occupancy(&self, id: usize) -> (n: usize)
        requires
            self.wf(),
            id < self@.len(),
        ensures
            n == self@[id as int].len(),
            n <= PAGE_CAPACITY,
    {
        proof {
            self.lemma_pages_bounded();
        }
        match self.pages.get(&id) {
            Some(page) => page.occupancy(),
            None => 0,
        }
    }

    /// Appends `value` to page `id`; see [`Page::insert`].
    pub fn insert(&mut self, id: usize, value: Option<i64>) -> (result: Result<usize, PageFull>)
        requires
            old(self).wf(),
            id < old(self)@.len(),
        ensures
            final(self).wf(),
            old(self)@[id as int].len() < PAGE_CAPACITY ==> result == Ok::<usize, PageFull>(
                old(self)@[id as int].len() as usize,
            ) && final(self)@ == old(self)@.update(id as int, old(self)@[id as int].push(value)),
            old(self)@[id as int].len() >= PAGE_CAPACITY ==> result == Err::<usize, PageFull>(
                PageFull,
            ) && final(self)@ == old(self)@,
    {
        match self.pages.remove(&id) {
            Some(page) => {
                let mut page = page;
                let result = page.insert(value);
                self.pages.insert(id, page);
                proof {
                    assert(old(self).pages.len() == old(self).pages@.len());
                    assert(self.pages@.dom() =~= old(self).pages@.dom());
                    assert(self.pages@.len() == old(self).pages@.len());
                    assert(self.pages@ =~= old(self).pages@.insert(id, page));
                    assert forall|i: int| 0 <= i < self@.len() implies #[trigger] self@[i]
                        == old(self)@.update(id as int, page@)[i] by {
                        assert(old(self).pages@.contains_key(i as usize));
                    }
                    assert(self@ =~= old(self)@.update(id as int, page@));
                    assert(old(self)@.update(id as int, old(self)@[id as int]) =~= old(self)@);
                }
                result
            },
            None => Err(PageFull),
        }
    }

    /// The value in slot `slot` of page `id`; see [`Page::read`].
    pub fn read(&self, id: usize, slot: usize) -> (value: Option<i64>)
        requires
            self.wf(),
            id < self@.len(),
        ensures
            value == if slot < self@[id as int].len() {
                self@[id as int][slot as int]
            } else {
                None
            },
    {
        match self.pages.get(&id) {
            Some(page) => page.read(slot),
            None => None,
        }
    }

    /// Clears slot `slot` of page `id` in place; see [`Page::clear`].
    pub fn clear(&mut self, id: usize, slot: usize)
        requires
            old(self).wf(),
            id < old(self)@.len(),
        ensures
            final(self).wf(),
            final(self)@ == if slot < old(self)@[id as int].len() {
                old(self)@.update(id as int, old(self)@[id as int].update(slot as int, None))
            } else {
                old(self)@
            },
    {
        match self.pages.remove(&id) {
            Some(page) => {
                let mut page = page;
                page.clear(slot);
                self.pages.insert(id, page);
                proof {
                    assert(old(self).pages.len() == old(self).pages@.len());
                    assert(self.pages@.dom() =~= old(self).pages@.dom());
                    assert(self.pages@.len() == old(self).pages@.len());
                    assert(self.pages@ =~= old(self).pages@.insert(id, page));
                    assert forall|i: int| 0 <= i < self@.len() implies #[trigger] self@[i]
                        == old(self)@.update(id as int, page@)[i] by {
                        assert(old(self).pages@.contains_key(i as usize));
                    }
                    assert(self@ =~= old(self)@.update(id as int, page@));
                    assert(old(self)@.update(id as int, old(self)@[id as int]) =~= old(self)@);
                }
            },
            None => {},
        }
    }
}

} // verus!
