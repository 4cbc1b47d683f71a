//! The reverse index: (requester uid, batch position) to the resource held there.

use vstd::prelude::*;
use crate::assoc::{as_map, distinct_keys, has_key, lemma_as_map_at, lemma_as_map_len,
    lemma_as_map_push, lemma_as_map_remove, lemma_as_map_update};

verus! {

#[derive(Debug)]
struct UidSlot {
    uid: String,
    idx: usize,
    resource: String,
}

/// A map from (uid, batch position) to resource name, kept as a vector of
/// slots in which no key occurs twice. The key is a pair, never the uid with
/// the position's digits appended: a uid may itself end in digits.
#[derive(Debug)]
pub struct UidIndex {
    slots: Vec<UidSlot>,
}

impl View for UidIndex {
    type V = Map<(Seq<char>, nat), Seq<char>>;

    open spec fn view(&self) -> Map<(Seq<char>, nat), Seq<char>> {
        as_map(self.pairs())
    }
}

impl UidIndex {
    /// The slots as (key, resource) pairs, in storage order.
    pub closed spec fn pairs(&self) -> Seq<((Seq<char>, nat), Seq<char>)> {
        Seq::new(
            self.slots@.len(),
            |i: int| ((self.slots@[i].uid@, self.slots@[i].idx as nat), self.slots@[i].resource@),
        )
    }

    /// No key is stored twice.
    pub open spec fn wf(&self) -> bool {
        distinct_keys(self.pairs())
    }

    /// The map without keys.
    pub fn new() -> (t: UidIndex)
        ensures
            t.wf(),
            t@ == Map::<(Seq<char>, nat), Seq<char>>::empty(),
    {
        let t = UidIndex { slots: Vec::new() };
        assert(t@ =~= Map::<(Seq<char>, nat), Seq<char>>::empty());
        t
    }

    /// The number of keys.
    pub fn len(&self) -> (n: usize)
        requires
            self.wf(),
        ensures
            self@.dom().finite(),
            n == self@.dom().len(),
    {
        proof {
            lemma_as_map_len(self.pairs());
        }
        self.slots.len()
    }

    fn find(&self, uid: &String, idx: usize) -> (r: Option<usize>)
        ensures
            match r {
                Some(i) => i < self.pairs().len() && self.pairs()[i as int].0 == (
                    uid@,
                    idx as nat,
                ),
                None => !has_key(self.pairs(), (uid@, idx as nat)),
            },
    {
        let mut i: usize = 0;
        while i < self.slots.len()
            invariant
                i <= self.slots.len(),
                forall|j: int| 0 <= j < i ==> (#[trigger] self.pairs()[j]).0 != (uid@, idx as nat),
            decreases self.slots.len() - i,
        {
            if self.slots[i].idx == idx && self.slots[i].uid == *uid {
                return Some(i);
            }
            i += 1;
        }
        None
    }

    /// The resource held by `uid` at batch position `idx`, if the key is present.
    pub fn get(&self, uid: &String, idx: usize) -> (r: Option<&String>)
        requires
            self.wf(),
        ensures
            match r {
                Some(name) => self@.contains_key((uid@, idx as nat)) && name@ == self@[(
                    uid@,
                    idx as nat,
                )],
                None => !self@.contains_key((uid@, idx as nat)),
            },
    {
        match self.find(uid, idx) {
            Some(i) => {
                proof {
                    lemma_as_map_at(self.pairs(), i as int);
                }
                Some(&self.slots[i].resource)
            },
            None => None,
        }
    }

    /// Binds the key to the resource, replacing an earlier binding.
    pub fn insert(&mut self, uid: String, idx: usize, resource: String)
        requires
            old(self).wf(),
        ensures
            final(self).wf(),
            final(self)@ == old(self)@.insert((uid@, idx as nat), resource@),
    {
        let ghost before = self.pairs();
        let ghost k = (uid@, idx as nat);
        let ghost v = resource@;
        match self.find(&uid, idx) {
            Some(i) => {
                self.slots.set(i, UidSlot { uid, idx, resource });
                proof {
                    lemma_as_map_update(before, i as int, v);
                    assert(self.pairs() =~= before.update(i as int, (k, v)));
                }
            },
            None => {
                self.slots.push(UidSlot { uid, idx, resource });
                proof {
                    lemma_as_map_push(before, k, v);
                    assert(self.pairs() =~= before.push((k, v)));
                }
            },
        }
    }

    /// Unbinds the key; a key that is not present is left alone.
    pub fn remove(&mut self, uid: &String, idx: usize)
        requires
            old(self).wf(),
        ensures
            final(self).wf(),
            final(self)@ == old(self)@.remove((uid@, idx as nat)),
    {
        let ghost before = self.pairs();
        match self.find(uid, idx) {
            Some(i) => {
                let _ = self.slots.remove(i);
                proof {
                    lemma_as_map_remove(before, i as int);
                    assert(self.pairs() =~= before.remove(i as int));
                }
            },
            None => {
                assert(self@ =~= old(self)@.remove((uid@, idx as nat)));
            },
        }
    }
}

} // verus!
