//! The table registry.

use crate::table::Table;
use vstd::prelude::*;

verus! {

/// A set of tables, each known by its name; no two tables share a name.
pub struct DB {
    tables: Vec<Table>,
}

impl View for DB {
    type V = Map<Seq<char>, Table>;

    /// The tables by name.
    closed spec fn view(&self) -> Map<Seq<char>, Table> {
        Map::new(
            |name: Seq<char>| self.registered(name),
            |name: Seq<char>| self.tables@[self.position(name)],
        )
    }
}

impl DB {
    spec fn registered(&self, name: Seq<char>) -> bool {
        exists|i: int| 0 <= i < self.tables@.len() && (#[trigger] self.tables@[i]).name() == name
    }

    spec fn position(&self, name: Seq<char>) -> int {
        choose|i: int| 0 <= i < self.tables@.len() && (#[trigger] self.tables@[i]).name() == name
    }

    spec fn distinct(&self) -> bool {
        forall|i: int, j: int|
            0 <= i < j < self.tables@.len() ==> (#[trigger] self.tables@[i]).name() != (
            #[trigger] self.tables@[j]).name()
    }

    /// Every table is well formed and goes by its own name, which no other
    /// table has.
    pub closed spec fn wf(&self) -> bool {
        &&& self.distinct()
        &&& forall|i: int| 0 <= i < self.tables@.len() ==> (#[trigger] self.tables@[i]).wf()
    }

    /// Every registered table is well formed and registered under its name.
    pub proof fn lemma_tables(&self, name: Seq<char>)
        requires
            self.wf(),
            self@.contains_key(name),
        ensures
            self@[name].wf(),
            self@[name].name() == name,
    {
    }

    proof fn lemma_position(&self, i: int)
        requires
            self.distinct(),
            0 <= i < self.tables@.len(),
        ensures
            self.registered(self.tables@[i].name()),
            self.position(self.tables@[i].name()) == i,
    {
        let name = self.tables@[i].name();
        let j = self.position(name);
        if j < i {
            assert(self.tables@[j].name() != self.tables@[i].name());
        } else if i < j {
            assert(self.tables@[i].name() != self.tables@[j].name());
        }
    }

    /// A registry without tables.
    pub fn new() -> (db: DB)
        ensures
            db.wf(),
            db@ == Map::<Seq<char>, Table>::empty(),
    {
        let db = DB { tables: Vec::new() };
        assert(db@ =~= Map::<Seq<char>, Table>::empty());
        db
    }

    /// The place of the table called `name`, if there is one.
    fn find(&self, name: &String) -> (found: Option<usize>)
        requires
            self.wf(),
        ensures
            match found {
                Some(i) => i < self.tables@.len() && self.tables@[i as int].name() == name@,
                None => !self.registered(name@),
            },
    {
        let mut i: usize = 0;
        while i < self.tables.len()
            invariant
                i <= self.tables@.len(),
                forall|k: int| 0 <= k < i ==> (#[trigger] self.tables@[k]).name() != name@,
            decreases self.tables@.len() - i,
        {
            if self.tables[i].name == *name {
                return Some(i);
            }
            i += 1;
        }
        None
    }

    /// Registers `table` under its name, in place of any table that went by
    /// that name.
    pub fn put_table(&mut self, table: Table)
        requires
            old(self).wf(),
            table.wf(),
        ensures
            final(self).wf(),
            final(self)@ == old(self)@.insert(table.name(), table),
    {
        let _ = self.take_table(table.name.clone());
        let ghost before = *self;
        self.tables.push(table);
        proof {
            let n = before.tables@.len() as int;
            assert(!before.registered(table.name())) by {
                assert(!before@.contains_key(table.name()));
            }
            assert forall|x: int, y: int| 0 <= x < y < self.tables@.len() implies (
            #[trigger] self.tables@[x]).name() != (#[trigger] self.tables@[y]).name() by {
                if y < n {
                    assert(before.tables@[x].name() != before.tables@[y].name());
                } else {
                    assert(before.tables@[x].name() != table.name());
                }
            }
            assert forall|name: Seq<char>| #[trigger]
                self@.contains_key(name) == before@.insert(table.name(), table).contains_key(
                    name,
                ) by {
                if self.registered(name) {
                    let k = self.position(name);
                    if k < n {
                        assert(before.tables@[k].name() == name);
                    }
                }
                if before.registered(name) {
                    let k = before.position(name);
                    assert(self.tables@[k].name() == name);
                }
                assert(self.tables@[n].name() == table.name());
            }
            assert forall|name: Seq<char>| self@.contains_key(name) implies #[trigger] self@[name]
                == before@.insert(table.name(), table)[name] by {
                let k = self.position(name);
                self.lemma_position(k);
                if name != table.name() {
                    assert(before.tables@[k].name() == name);
                    before.lemma_position(k);
                } else {
                    self.lemma_position(n);
                }
            }
            assert(self@ =~= before@.insert(table.name(), table));
            assert(self@ =~= old(self)@.insert(table.name(), table));
        }
    }

    /// Creates an empty table called `name`, of `num_columns` columns with
    /// key column `key`, and registers it in place of any table that went
    /// by that name.
    pub fn create_table(&mut self, name: String, num_columns: usize, key: usize)
        requires
            old(self).wf(),
            key < num_columns,
        ensures
            final(self).wf(),
            final(self)@.dom() == old(self)@.dom().insert(name@),
            forall|other: Seq<char>|
                other != name@ && old(self)@.contains_key(other) ==> #[trigger] final(self)@[other]
                    == old(self)@[other],
            final(self)@[name@].wf(),
            final(self)@[name@].name() == name@,
            final(self)@[name@].num_columns() == num_columns,
            final(self)@[name@].key() == key,
            final(self)@[name@].storage().len() == 0,
            final(self)@[name@].storage().clock() == 0,
            forall|c: int| !final(self)@[name@].index().is_indexed(c),
    {
        let table = Table::new(num_columns, name, key);
        self.put_table(table);
    }

    /// Removes the table called `name` and hands it out, if there is one.
    pub fn take_table(&mut self, name: String) -> (table: Option<Table>)
        requires
            old(self).wf(),
        ensures
            final(self).wf(),
            final(self)@ == old(self)@.remove(name@),
            table == if old(self)@.contains_key(name@) {
                Some(old(self)@[name@])
            } else {
                None
            },
            table matches Some(found) ==> found.wf() && found.name() == name@,
    {
        match self.find(&name) {
            Some(i) => {
                proof {
                    old(self).lemma_position(i as int);
                }
                let table = self.tables.remove(i);
                proof {
                    assert forall|x: int| 0 <= x < self.tables@.len()
                        implies #[trigger] self.tables@[x]
                        == old(self).tables@[if x < i { x } else { x + 1 }] by {}
                    assert forall|x: int, y: int| 0 <= x < y < self.tables@.len() implies (
                    #[trigger] self.tables@[x]).name() != (#[trigger] self.tables@[y]).name() by {
                        let a = if x < i { x } else { x + 1 };
                        let b = if y < i { y } else { y + 1 };
                        assert(old(self).tables@[a].name() != old(self).tables@[b].name());
                    }
                    assert forall|other: Seq<char>| #[trigger]
                        self@.contains_key(other)
                            == old(self)@.remove(name@).contains_key(other) by {
                        if self.registered(other) {
                            let k = self.position(other);
                            let a = if k < i { k } else { k + 1 };
                            assert(old(self).tables@[a].name() == other);
                            old(self).lemma_position(a);
                        }
                        if old(self).registered(other) && other != name@ {
                            let k = old(self).position(other);
                            let a = if k < i { k } else { k - 1 };
                            assert(self.tables@[a].name() == other);
                        }
                    }
                    assert forall|other: Seq<char>| self@.contains_key(other)
                        implies #[trigger] self@[other]
                        == old(self)@.remove(name@)[other] by {
                        let k = self.position(other);
                        let a = if k < i { k } else { k + 1 };
                        assert(old(self).tables@[a].name() == other);
                        old(self).lemma_position(a);
                    }
                    assert(self@ =~= old(self)@.remove(name@));
                }
                Some(table)
            },
            None => {
                assert(self@ =~= old(self)@.remove(name@));
                None
            },
        }
    }

    /// Removes the table called `name`, if there is one.
    pub fn drop_table(&mut self, name: String)
        requires
            old(self).wf(),
        ensures
            final(self).wf(),
            final(self)@ == old(self)@.remove(name@),
    {
        let _ = self.take_table(name);
    }

    /// The table called `name`, if there is one.
    pub fn get_table(&self, name: String) -> (table: Option<&Table>)
        requires
            self.wf(),
        ensures
            match table {
                Some(found) => self@.contains_key(name@) && *found == self@[name@] && found.wf()
                    && found.name() == name@,
                None => !self@.contains_key(name@),
            },
    {
        match self.find(&name) {
            Some(i) => {
                proof {
                    self.lemma_position(i as int);
                }
                Some(&self.tables[i])
            },
            None => None,
        }
    }
}

} // verus!
