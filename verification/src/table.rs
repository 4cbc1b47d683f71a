//! The lock table proper: resource name to the holders of that resource.

use vstd::prelude::*;
use crate::assoc::{as_map, distinct_keys, has_key, lemma_as_map_at, lemma_as_map_len,
    lemma_as_map_push, lemma_as_map_remove, lemma_as_map_update};
use crate::holder::{duplicate_all, holders_of, Holder, LockRequesterInfo};

verus! {

#[derive(Debug)]
struct ResourceLocks {
    name: String,
    holders: Vec<LockRequesterInfo>,
}

/// A map from resource name to holder list, kept as a vector of entries in
/// which no name occurs twice.
#[derive(Debug)]
pub struct LockTable {
    entries: Vec<ResourceLocks>,
}

impl View for LockTable {
    type V = Map<Seq<char>, Seq<Holder>>;

    open spec fn view(&self) -> Map<Seq<char>, Seq<Holder>> {
        as_map(self.pairs())
    }
}

impl LockTable {
    /// The entries as (name, holders) pairs, in storage order.
    pub closed spec fn pairs(&self) -> Seq<(Seq<char>, Seq<Holder>)> {
        Seq::new(
            self.entries@.len(),
            |i: int| (self.entries@[i].name@, holders_of(self.entries@[i].holders@)),
        )
    }

    /// No resource name is stored twice.
    pub open spec fn wf(&self) -> bool {
        distinct_keys(self.pairs())
    }

    /// The map without keys.
    pub fn new() -> (t: LockTable)
        ensures
            t.wf(),
            t@ == Map::<Seq<char>, Seq<Holder>>::empty(),
            t.pairs().len() == 0,
    {
        let t = LockTable { entries: Vec::new() };
        assert(t@ =~= Map::<Seq<char>, Seq<Holder>>::empty());
        t
    }

    /// The number of resources that have an entry.
    pub fn len(&self) -> (n: usize)
        requires
            self.wf(),
        ensures
            n == self.pairs().len(),
            self@.dom().finite(),
            n == self@.dom().len(),
    {
        proof {
            lemma_as_map_len(self.pairs());
        }
        self.entries.len()
    }

    fn find(&self, name: &String) -> (r: Option<usize>)
        ensures
            match r {
                Some(i) => i < self.pairs().len() && self.pairs()[i as int].0 == name@,
                None => !has_key(self.pairs(), name@),
            },
    {
        let mut i: usize = 0;
        while i < self.entries.len()
            invariant
                i <= self.entries.len(),
                forall|j: int| 0 <= j < i ==> (#[trigger] self.pairs()[j]).0 != name@,
            decreases self.entries.len() - i,
        {
            if self.entries[i].name == *name {
                return Some(i);
            }
            i += 1;
        }
        None
    }

    /// Whether the resource has an entry.
    pub fn contains_key(&self, name: &String) -> (b: bool)
        requires
            self.wf(),
        ensures
            b == self@.contains_key(name@),
    {
        match self.find(name) {
            Some(i) => {
                proof {
                    lemma_as_map_at(self.pairs(), i as int);
                }
                true
            },
            None => false,
        }
    }

    /// The holders of the resource, if it has an entry.
    pub fn get(&self, name: &String) -> (r: Option<&Vec<LockRequesterInfo>>)
        requires
            self.wf(),
        ensures
            match r {
                Some(hs) => self@.contains_key(name@) && holders_of(hs@) == self@[name@],
                None => !self@.contains_key(name@),
            },
    {
        match self.find(name) {
            Some(i) => {
                proof {
                    lemma_as_map_at(self.pairs(), i as int);
                }
                Some(&self.entries[i].holders)
            },
            None => None,
        }
    }

    /// Binds the resource to the holder list, replacing an earlier binding.
    pub fn insert(&mut self, name: String, holders: Vec<LockRequesterInfo>)
        requires
            old(self).wf(),
        ensures
            final(self).wf(),
            final(self)@ == old(self)@.insert(name@, holders_of(holders@)),
    {
        let ghost before = self.pairs();
        let ghost k = name@;
        let ghost v = holders_of(holders@);
        match self.find(&name) {
            Some(i) => {
                self.entries.set(i, ResourceLocks { name, holders });
                proof {
                    lemma_as_map_update(before, i as int, v);
                    assert(self.pairs() =~= before.update(i as int, (k, v)));
                }
            },
            None => {
                self.entries.push(ResourceLocks { name, holders });
                proof {
                    lemma_as_map_push(before, k, v);
                    assert(self.pairs() =~= before.push((k, v)));
                }
            },
        }
    }

    /// Unbinds the resource and hands out the holders it had.
    pub fn remove(&mut self, name: &String) -> (r: Option<Vec<LockRequesterInfo>>)
        requires
            old(self).wf(),
        ensures
            final(self).wf(),
            final(self)@ == old(self)@.remove(name@),
            match r {
                Some(hs) => old(self)@.contains_key(name@) && holders_of(hs@) == old(self)@[name@],
                None => !old(self)@.contains_key(name@),
            },
    {
        let ghost before = self.pairs();
        match self.find(name) {
            Some(i) => {
                let e = self.entries.remove(i);
                proof {
                    lemma_as_map_at(before, i as int);
                    lemma_as_map_remove(before, i as int);
                    assert(self.pairs() =~= before.remove(i as int));
                }
                Some(e.holders)
            },
            None => {
                assert(self@ =~= old(self)@.remove(name@));
                None
            },
        }
    }

    /// A deep copy that shares nothing with this table.
    pub fn duplicate(&self) -> (copy: LockTable)
        ensures
            copy.pairs() == self.pairs(),
            copy@ == self@,
            self.wf() ==> copy.wf(),
    {
        let mut entries: Vec<ResourceLocks> = Vec::new();
        let mut i: usize = 0;
        while i < self.entries.len()
            invariant
                i <= self.entries.len(),
                entries@.len() == i,
                forall|j: int|
                    0 <= j < i ==> (#[trigger] entries@[j]).name@ == self.entries@[j].name@
                        && holders_of(entries@[j].holders@) == holders_of(
                        self.entries@[j].holders@,
                    ),
            decreases self.entries.len() - i,
        {
            let e = &self.entries[i];
            entries.push(ResourceLocks { name: e.name.clone(), holders: duplicate_all(&e.holders) });
            i += 1;
        }
        let copy = LockTable { entries };
        assert(copy.pairs() =~= self.pairs());
        copy
    }

    /// The name stored at a position.
    pub fn name_at(&self, i: usize) -> (name: &String)
        requires
            i < self.pairs().len(),
        ensures
            name@ == self.pairs()[i as int].0,
    {
        &self.entries[i].name
    }

    /// The holders stored at a position.
    pub fn holders_at(&self, i: usize) -> (hs: &Vec<LockRequesterInfo>)
        requires
            i < self.pairs().len(),
        ensures
            holders_of(hs@) == self.pairs()[i as int].1,
    {
        &self.entries[i].holders
    }
}

} // verus!
