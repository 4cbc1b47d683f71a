//! The lock authority of one node: the lock table with its reverse index,
//! and the operations that take it from one consistent state to the next.

use vstd::prelude::*;
use crate::args::{names_of, LockArgs, MAX_DELETE_LIST};
use crate::assoc::{lemma_as_map_at, lemma_as_map_key, lemma_as_map_len};
use crate::error::LockError;
use crate::holder::{holders_of, is_write_lock, write_locked, Holder, LockRequesterInfo};
use crate::model::{key_of, keys_doomed, lemma_chain_bounded, lemma_chain_len, lemma_drop_nowhere,
    lemma_drop_one, lemma_drop_preserves, lemma_drop_step, lemma_lock_preserves, lemma_lock_start,
    lemma_lock_step, lemma_refresh_preserves, lemma_refresh_start, lemma_refresh_step,
    lemma_rlock_preserves, leads, survivors, touched, LockerState, Rule};
use crate::table::LockTable;
use crate::uid_index::UidIndex;

verus! {

/// How many resources have an entry, and how many of them are held by a
/// writer and by readers.
#[derive(Debug)]
pub struct LockStats {
    pub total: usize,
    pub writes: usize,
    pub reads: usize,
}

impl Default for LockStats {
    fn default() -> (st: LockStats)
        ensures
            st.total == 0,
            st.writes == 0,
            st.reads == 0,
    {
        LockStats { total: 0, writes: 0, reads: 0 }
    }
}

/// Which holders an operation removes.
enum Removal<'a> {
    Release { uid: &'a String, owner: &'a String },
    Stale { now: u64, ttl: u64 },
    Every,
}

impl<'a> View for Removal<'a> {
    type V = Rule;

    closed spec fn view(&self) -> Rule {
        match self {
            Removal::Release { uid, owner } => Rule::Release { uid: uid@, owner: owner@ },
            Removal::Stale { now, ttl } => Rule::Stale { now: *now as nat, ttl: *ttl as nat },
            Removal::Every => Rule::Every,
        }
    }
}

impl<'a> Removal<'a> {
    fn dooms(&self, h: &LockRequesterInfo) -> (b: bool)
        ensures
            b == self@.dooms(h@),
    {
        match self {
            Removal::Release { uid, owner } => h.concerned_by(uid, owner),
            Removal::Stale { now, ttl } => h.is_stale(*now, *ttl),
            Removal::Every => true,
        }
    }
}

/// Splits a holder list by the rule: the spared holders come back, in their
/// old order; the key of each doomed holder leaves the reverse index.
fn purge(holders: Vec<LockRequesterInfo>, rule: &Removal, index: &mut UidIndex) -> (kept: Vec<
    LockRequesterInfo,
>)
    requires
        old(index).wf(),
    ensures
        final(index).wf(),
        holders_of(kept@) == survivors(holders_of(holders@), rule@),
        final(index)@ == old(index)@.remove_keys(keys_doomed(holders_of(holders@), rule@)),
{
    let ghost all = holders_of(holders@);
    let ghost raw = holders@;
    let mut kept: Vec<LockRequesterInfo> = Vec::new();
    proof {
        reveal(Seq::filter);
        assert(all.take(0).len() == 0);
        assert(survivors(all.take(0), rule@) =~= Seq::<Holder>::empty());
        assert(holders_of(kept@) =~= Seq::<Holder>::empty());
        assert(keys_doomed(all.take(0), rule@) =~= Set::empty());
        assert(index@ =~= index@.remove_keys(Set::empty()));
    }
    for h in it: holders
        invariant
            index.wf(),
            it.seq() == raw,
            all == holders_of(raw),
            holders_of(kept@) == survivors(all.take(it.index() as int), rule@),
            index@ == old(index)@.remove_keys(keys_doomed(all.take(it.index() as int), rule@)),
    {
        let ghost k = it.index() as int;
        let ghost before = all.take(k);
        let ghost kept_before = holders_of(kept@);
        assert(h == raw[k]);
        proof {
            assert(all.take(k + 1) =~= before.push(h@));
            before.lemma_filter_push(h@, rule@.spares());
            let ka = keys_doomed(before, rule@);
            let kb = keys_doomed(all.take(k + 1), rule@);
            assert forall|q: (Seq<char>, nat)| kb.contains(q) <==> ka.contains(q) || (rule@.dooms(
                h@,
            ) && q == key_of(h@)) by {
                let long = all.take(k + 1);
                if kb.contains(q) {
                    let i = choose|i: int|
                        0 <= i < long.len() && rule@.dooms(#[trigger] long[i]) && key_of(long[i])
                            == q;
                    if i < k {
                        assert(before[i] == long[i]);
                    }
                }
                if ka.contains(q) {
                    let i = choose|i: int|
                        0 <= i < before.len() && rule@.dooms(#[trigger] before[i]) && key_of(
                            before[i],
                        ) == q;
                    assert(long[i] == before[i]);
                }
                if rule@.dooms(h@) && q == key_of(h@) {
                    assert(long[k] == h@);
                }
            }
            if rule@.dooms(h@) {
                assert(kb =~= ka.insert(key_of(h@)));
                assert(old(index)@.remove_keys(ka).remove(key_of(h@)) =~= old(index)@.remove_keys(
                    kb,
                ));
            } else {
                assert(kb =~= ka);
            }
        }
        if rule.dooms(&h) {
            index.remove(&h.uid, h.idx);
        } else {
            kept.push(h);
            assert(holders_of(kept@) =~= kept_before.push(h@));
        }
    }
    assert(all.take(raw.len() as int) =~= all);
    kept
}

/// The lock table of one node together with its reverse index.
///
/// Every operation is one transition of the whole state. It takes the table
/// by `&mut`, so no two operations interleave; a node that serves several
/// callers keeps the table behind one mutex, held for the length of a call.
/// Nothing here reads a clock: the operations that stamp or compare times
/// take the current tick from the caller.
#[derive(Debug)]
pub struct LocalLocker {
    lock_map: LockTable,
    lock_uid: UidIndex,
}

impl View for LocalLocker {
    type V = LockerState;

    closed spec fn view(&self) -> LockerState {
        LockerState { table: self.lock_map@, index: self.lock_uid@ }
    }
}

impl Default for LocalLocker {
    fn default() -> (l: LocalLocker)
        ensures
            l.wf(),
            l@ == LockerState::empty(),
    {
        LocalLocker::new()
    }
}

impl LocalLocker {
    /// The two maps are sound and the state they spell out is consistent.
    pub closed spec fn wf(&self) -> bool {
        &&& self.lock_map.wf()
        &&& self.lock_uid.wf()
        &&& self@.consistent()
    }

    /// What well-formedness gives a caller.
    pub proof fn lemma_wf(&self)
        requires
            self.wf(),
        ensures
            self@.consistent(),
            self@.finite(),
    {
        lemma_as_map_len(self.lock_map.pairs());
        lemma_as_map_len(self.lock_uid.pairs());
    }

    /// A table in which nothing is held.
    pub fn new() -> (l: LocalLocker)
        ensures
            l.wf(),
            l@ == LockerState::empty(),
    {
        LocalLocker { lock_map: LockTable::new(), lock_uid: UidIndex::new() }
    }

    /// Whether none of the resources has a holder.
    pub fn can_take_lock(&self, resource: &[String]) -> (free: bool)
        requires
            self.wf(),
        ensures
            free == self@.can_take(names_of(resource@)),
    {
        let mut i: usize = 0;
        while i < resource.len()
            invariant
                self.wf(),
                i <= resource.len(),
                forall|j: int|
                    0 <= j < i ==> !self@.table.contains_key(#[trigger] names_of(resource@)[j]),
            decreases resource.len() - i,
        {
            if self.lock_map.contains_key(&resource[i]) {
                assert(self@.table.contains_key(names_of(resource@)[i as int]));
                return false;
            }
            i += 1;
        }
        true
    }

    /// Removes from one resource the holders that the rule dooms.
    fn drop_matching(&mut self, name: &String, rule: &Removal) -> (hit: bool)
        requires
            old(self).wf(),
        ensures
            final(self).wf(),
            final(self)@ == old(self)@.drop_holders(set![name@], rule@),
            hit == old(self)@.hits(set![name@], rule@),
    {
        proof {
            lemma_drop_one(self@, name@, rule@);
            lemma_drop_preserves(self@, set![name@], rule@);
        }
        match self.lock_map.remove(name) {
            None => {
                assert(self.lock_map@ =~= old(self).lock_map@);
                false
            },
            Some(holders) => {
                let n = holders.len();
                let kept = purge(holders, rule, &mut self.lock_uid);
                let hit = kept.len() < n;
                if kept.len() > 0 {
                    self.lock_map.insert(name.clone(), kept);
                    assert(self.lock_map@ =~= old(self).lock_map@.insert(
                        name@,
                        survivors(old(self).lock_map@[name@], rule@),
                    ));
                }
                hit
            },
        }
    }

    /// Removes from each named resource the holders that the rule dooms.
    fn drop_each(&mut self, names: &Vec<String>, rule: &Removal) -> (hit: bool)
        requires
            old(self).wf(),
        ensures
            final(self).wf(),
            final(self)@ == old(self)@.drop_holders(names_of(names@).to_set(), rule@),
            hit == old(self)@.hits(names_of(names@).to_set(), rule@),
    {
        let ghost all = names_of(names@);
        let mut hit = false;
        let mut i: usize = 0;
        proof {
            lemma_drop_nowhere(self@, rule@);
            assert(all.take(0).to_set() =~= Set::empty());
            assert(!self@.hits(Set::empty(), rule@)) by {
                if self@.hits(Set::empty(), rule@) {
                    let (r, j) = choose|r: Seq<char>, j: int|
                        self@.dooms_at(Set::empty(), rule@, r, j);
                }
            }
        }
        while i < names.len()
            invariant
                self.wf(),
                i <= names.len(),
                all == names_of(names@),
                self@ == old(self)@.drop_holders(all.take(i as int).to_set(), rule@),
                hit == old(self)@.hits(all.take(i as int).to_set(), rule@),
            decreases names.len() - i,
        {
            let ghost done = all.take(i as int).to_set();
            proof {
                lemma_drop_step(old(self)@, done, all[i as int], rule@);
                assert(all.take(i + 1) =~= all.take(i as int).push(all[i as int]));
                assert(all.take(i + 1).to_set() =~= done.insert(all[i as int])) by {
                    let long = all.take(i + 1);
                    let short = all.take(i as int);
                    assert forall|r: Seq<char>| long.contains(r) <==> short.contains(r) || r
                        == all[i as int] by {
                        if long.contains(r) {
                            let j = choose|j: int| 0 <= j < long.len() && long[j] == r;
                            if j < i {
                                assert(short[j] == r);
                            }
                        }
                        if short.contains(r) {
                            let j = choose|j: int| 0 <= j < short.len() && short[j] == r;
                            assert(long[j] == r);
                        }
                        if r == all[i as int] {
                            assert(long[i as int] == r);
                        }
                    }
                }
            }
            let one = self.drop_matching(&names[i], rule);
            hit = hit || one;
            i += 1;
        }
        assert(all.take(names.len() as int) =~= all);
        hit
    }

    /// The resources that the probe 0, 1, 2, … for `uid` resolves to, in order.
    fn chain(&self, uid: &String) -> (names: Vec<String>)
        requires
            self.wf(),
        ensures
            names.len() == self@.chain_len(uid@),
            forall|i: int|
                0 <= i < names.len() ==> self@.index.contains_key((uid@, i as nat)) && (
                #[trigger] names[i])@ == self@.index[(uid@, i as nat)],
            names_of(names@).to_set() == self@.chain_resources(uid@, self@.chain_len(uid@)),
    {
        let mut names: Vec<String> = Vec::new();
        let total = self.lock_uid.len();
        loop
            invariant
                self.wf(),
                self@.index.dom().finite(),
                total == self@.index.dom().len(),
                names.len() <= total,
                self@.chain_upto(uid@, names.len() as nat),
                forall|i: int|
                    0 <= i < names.len() ==> (#[trigger] names[i])@ == self@.index[(
                        uid@,
                        i as nat,
                    )],
            ensures
                !self@.index.contains_key((uid@, names.len() as nat)),
            decreases total - names.len(),
        {
            let ghost n = names.len() as nat;
            match self.lock_uid.get(uid, names.len()) {
                Some(resource) => {
                    proof {
                        assert forall|i: nat| i < n + 1 implies #[trigger] self@.index.contains_key(
                            (uid@, i),
                        ) by {
                            if i < n {
                                assert(self@.index.contains_key((uid@, i)));
                            }
                        }
                        lemma_chain_bounded(self@, uid@, n + 1);
                    }
                    names.push(resource.clone());
                },
                None => {
                    break ;
                },
            }
        }
        proof {
            let n = names.len() as nat;
            lemma_chain_len(self@, uid@, n);
            let all = names_of(names@);
            let want = self@.chain_resources(uid@, n);
            assert forall|r: Seq<char>| all.to_set().contains(r) <==> want.contains(r) by {
                if all.contains(r) {
                    let j = choose|j: int| 0 <= j < all.len() && all[j] == r;
                    assert(names[j]@ == r);
                    assert(self@.index.contains_key((uid@, j as nat)));
                }
                if want.contains(r) {
                    let j = choose|j: nat|
                        j < n && #[trigger] self@.index.contains_key((uid@, j)) && self@.index[(
                            uid@,
                            j,
                        )] == r;
                    assert(names[j as int]@ == r);
                    assert(all[j as int] == r);
                }
            }
            assert(all.to_set() =~= want);
        }
        names
    }

    /// Acquires every resource of the request exclusively, or none of them.
    ///
    /// The request is refused, with the table as it was, when one of the
    /// resources has a holder or the batch names a resource twice. Otherwise
    /// the resource at batch position `i` gets one writer, recorded in the
    /// reverse index under (uid, `i`).
    pub fn lock(&mut self, args: &LockArgs, now: u64) -> (res: Result<bool, LockError>)
        requires
            old(self).wf(),
        ensures
            final(self).wf(),
            match res {
                Ok(granted) => {
                    &&& args.resources.len() <= MAX_DELETE_LIST
                    &&& granted == old(self)@.grants_lock(args@)
                    &&& final(self)@ == if granted {
                        old(self)@.after_lock(args@, now as nat)
                    } else {
                        old(self)@
                    }
                },
                Err(e) => {
                    &&& e is TooManyResources
                    &&& args.resources.len() > MAX_DELETE_LIST
                    &&& final(self)@ == old(self)@
                },
            },
    {
        let n = args.resources.len();
        if n > MAX_DELETE_LIST {
            return Err(LockError::TooManyResources);
        }
        if !self.can_take_lock(args.resources.as_slice()) || has_duplicates(&args.resources) {
            return Ok(false);
        }
        let group = n > 1;
        let mut i: usize = 0;
        proof {
            lemma_lock_start(self@, args@, now as nat);
        }
        while i < n
            invariant
                self.lock_map.wf(),
                self.lock_uid.wf(),
                i <= n,
                n == args.resources.len(),
                group == (n > 1),
                old(self)@.grants_lock(args@),
                self@ == old(self)@.with_writers(args@, i as int, now as nat),
            decreases n - i,
        {
            let resource = &args.resources[i];
            let lri = LockRequesterInfo {
                name: resource.clone(),
                writer: true,
                uid: args.uid.clone(),
                time_stamp: now,
                time_last_refresh: now,
                source: args.source.clone(),
                group,
                owner: args.owner.clone(),
                quorum: args.quorum,
                idx: i,
            };
            let mut holders: Vec<LockRequesterInfo> = Vec::new();
            holders.push(lri);
            proof {
                lemma_lock_step(old(self)@, args@, i as int, now as nat);
                assert(holders_of(holders@) =~= seq![args@.writer_at(i as int, now as nat)]);
            }
            self.lock_map.insert(resource.clone(), holders);
            self.lock_uid.insert(args.uid.clone(), i, resource.clone());
            i += 1;
        }
        proof {
            lemma_lock_preserves(old(self)@, args@, now as nat);
        }
        Ok(true)
    }

    /// Releases the writers of this requester on the resources of the request.
    ///
    /// A resource without an entry is passed over. One that readers hold is
    /// set aside and reported once the whole batch is done. One that a writer
    /// holds loses it if the writer is the requester's and, where the request
    /// names an owner, that owner's.
    pub fn unlock(&mut self, args: &LockArgs) -> (res: Result<bool, LockError>)
        requires
            old(self).wf(),
        ensures
            final(self).wf(),
            args.resources.len() > MAX_DELETE_LIST ==> {
                &&& res matches Err(LockError::TooManyResources)
                &&& final(self)@ == old(self)@
            },
            args.resources.len() <= MAX_DELETE_LIST ==> {
                &&& final(self)@ == old(self)@.after_unlock(args@)
                &&& match res {
                    Ok(released) => {
                        &&& released == old(self)@.unlock_releases(args@)
                        &&& old(self)@.read_locked_among(args@.resources).len() == 0
                    },
                    Err(LockError::ReadLocked { resources, released }) => {
                        &&& released == old(self)@.unlock_releases(args@)
                        &&& names_of(resources@) == old(self)@.read_locked_among(args@.resources)
                        &&& resources.len() > 0
                    },
                    Err(_) => false,
                }
            },
    {
        let n = args.resources.len();
        if n > MAX_DELETE_LIST {
            return Err(LockError::TooManyResources);
        }
        let ghost all = args@.resources;
        let ghost aside = self@.read_locked_fn();
        let mut writers: Vec<String> = Vec::new();
        let mut readers: Vec<String> = Vec::new();
        let mut i: usize = 0;
        proof {
            reveal(Seq::filter);
            assert(all.take(0).filter(aside) =~= Seq::<Seq<char>>::empty());
            assert(names_of(readers@) =~= Seq::<Seq<char>>::empty());
            assert(names_of(writers@).to_set() =~= self@.write_locked_among(all.take(0)));
        }
        while i < n
            invariant
                self.wf(),
                i <= n,
                n == args.resources.len(),
                all == args@.resources,
                aside == self@.read_locked_fn(),
                names_of(readers@) == all.take(i as int).filter(aside),
                names_of(writers@).to_set() == self@.write_locked_among(all.take(i as int)),
            decreases n - i,
        {
            let resource = &args.resources[i];
            let ghost short = all.take(i as int);
            let ghost long = all.take(i + 1);
            let ghost r = all[i as int];
            let ghost readers_before = names_of(readers@);
            let ghost writers_before = names_of(writers@);
            proof {
                assert(long =~= short.push(r));
                short.lemma_filter_push(r, aside);
                assert forall|q: Seq<char>| long.contains(q) <==> short.contains(q) || q == r by {
                    if long.contains(q) {
                        let j = choose|j: int| 0 <= j < long.len() && long[j] == q;
                        if j < i {
                            assert(short[j] == q);
                        }
                    }
                    if short.contains(q) {
                        let j = choose|j: int| 0 <= j < short.len() && short[j] == q;
                        assert(long[j] == q);
                    }
                    if q == r {
                        assert(long[i as int] == q);
                    }
                }
            }
            match self.lock_map.get(resource) {
                Some(holders) => {
                    if is_write_lock(holders.as_slice()) {
                        writers.push(resource.clone());
                        proof {
                            let now = names_of(writers@);
                            assert(now =~= writers_before.push(r));
                            assert forall|q: Seq<char>| now.contains(q) <==> writers_before.contains(
                                q,
                            ) || q == r by {
                                if now.contains(q) {
                                    let j = choose|j: int| 0 <= j < now.len() && now[j] == q;
                                    if j < writers_before.len() {
                                        assert(writers_before[j] == q);
                                    }
                                }
                                if writers_before.contains(q) {
                                    let j = choose|j: int|
                                        0 <= j < writers_before.len() && writers_before[j] == q;
                                    assert(now[j] == q);
                                }
                                if q == r {
                                    assert(now[writers_before.len() as int] == q);
                                }
                            }
                            assert(resource@ == r);
                            assert(self@.table.contains_key(r) && write_locked(self@.table[r]));
                            let want = self@.write_locked_among(long);
                            let had = self@.write_locked_among(short);
                            assert forall|q: Seq<char>| now.to_set().contains(q) <==> want.contains(
                                q,
                            ) by {
                                assert(writers_before.to_set().contains(q) <==> had.contains(q));
                            }
                            assert(now.to_set() =~= want);
                        }
                    } else {
                        readers.push(resource.clone());
                        proof {
                            assert(resource@ == r);
                            assert(self@.read_locked(r));
                            assert(names_of(readers@) =~= readers_before.push(r));
                            assert(names_of(writers@).to_set() =~= self@.write_locked_among(long));
                        }
                    }
                },
                None => {
                    proof {
                        assert(names_of(writers@).to_set() =~= self@.write_locked_among(long));
                    }
                },
            }
            i += 1;
        }
        assert(all.take(n as int) =~= all);
        let rule = Removal::Release { uid: &args.uid, owner: &args.owner };
        let released = self.drop_each(&writers, &rule);
        if readers.len() > 0 {
            Err(LockError::ReadLocked { resources: readers, released })
        } else {
            Ok(released)
        }
    }

    /// Acquires the one resource of the request for shared use.
    ///
    /// The request is refused, with the table as it was, when a writer holds
    /// the resource. Otherwise a reader joins its holders, recorded in the
    /// reverse index under (uid, 0).
    pub fn rlock(&mut self, args: &LockArgs, now: u64) -> (res: Result<bool, LockError>)
        requires
            old(self).wf(),
        ensures
            final(self).wf(),
            match res {
                Ok(granted) => {
                    &&& args.resources.len() == 1
                    &&& granted == old(self)@.grants_rlock(args@)
                    &&& final(self)@ == if granted {
                        old(self)@.after_rlock(args@, now as nat)
                    } else {
                        old(self)@
                    }
                },
                Err(e) => {
                    &&& e is NotOneResource
                    &&& args.resources.len() != 1
                    &&& final(self)@ == old(self)@
                },
            },
    {
        if args.resources.len() != 1 {
            return Err(LockError::NotOneResource);
        }
        let resource = &args.resources[0];
        let blocked = match self.lock_map.get(resource) {
            Some(holders) => is_write_lock(holders.as_slice()),
            None => false,
        };
        if blocked {
            return Ok(false);
        }
        let mut holders = match self.lock_map.remove(resource) {
            Some(holders) => holders,
            None => Vec::new(),
        };
        let ghost before = holders_of(holders@);
        proof {
            assert(resource@ == args@.resources[0]);
            if !old(self)@.table.contains_key(resource@) {
                assert(before =~= Seq::<Holder>::empty());
            }
        }
        holders.push(
            LockRequesterInfo {
                name: resource.clone(),
                writer: false,
                uid: args.uid.clone(),
                time_stamp: now,
                time_last_refresh: now,
                source: args.source.clone(),
                owner: args.owner.clone(),
                quorum: args.quorum,
                ..Default::default()
            },
        );
        proof {
            assert(holders_of(holders@) =~= before.push(args@.reader(now as nat)));
            lemma_rlock_preserves(old(self)@, args@, now as nat);
        }
        self.lock_map.insert(resource.clone(), holders);
        self.lock_uid.insert(args.uid.clone(), 0, resource.clone());
        proof {
            assert(self.lock_map@ =~= old(self)@.after_rlock(args@, now as nat).table);
        }
        Ok(true)
    }

    /// Releases the readers of this requester on the one resource of the request.
    ///
    /// A resource without an entry answers `Ok(false)`. One that a writer
    /// holds is a caller's mistake. Otherwise the readers that are the
    /// requester's and, where the request names an owner, that owner's leave.
    pub fn runlock(&mut self, args: &LockArgs) -> (res: Result<bool, LockError>)
        requires
            old(self).wf(),
        ensures
            final(self).wf(),
            args.resources.len() != 1 ==> {
                &&& res matches Err(LockError::NotOneResource)
                &&& final(self)@ == old(self)@
            },
            args.resources.len() == 1 ==> {
                let r = args@.resources[0];
                if old(self)@.table.contains_key(r) && write_locked(old(self)@.table[r]) {
                    &&& res matches Err(LockError::WriteLocked { resource })
                    &&& resource@ == r
                    &&& final(self)@ == old(self)@
                } else {
                    &&& res matches Ok(released)
                    &&& released == old(self)@.hits(set![r], args@.release())
                    &&& final(self)@ == old(self)@.after_runlock(args@)
                }
            },
    {
        if args.resources.len() != 1 {
            return Err(LockError::NotOneResource);
        }
        let resource = &args.resources[0];
        let blocked = match self.lock_map.get(resource) {
            Some(holders) => is_write_lock(holders.as_slice()),
            None => false,
        };
        if blocked {
            return Err(LockError::WriteLocked { resource: resource.clone() });
        }
        let rule = Removal::Release { uid: &args.uid, owner: &args.owner };
        let released = self.drop_matching(resource, &rule);
        Ok(released)
    }

    /// Confirms that the requester still holds locks and extends their life.
    ///
    /// The probe walks the batch positions 0, 1, 2, … of the uid up to the
    /// first one that the reverse index lacks. Every holder recorded under a
    /// position it passes has its last refresh set to `now`. The answer is
    /// whether position 0 was there. A key of the reverse index always names
    /// a resource on which a holder is recorded under it, so the probe never
    /// resolves to a resource that is gone.
    pub fn refresh(&mut self, args: &LockArgs, now: u64) -> (res: Result<bool, LockError>)
        requires
            old(self).wf(),
        ensures
            final(self).wf(),
            res matches Ok(alive) && alive == old(self)@.index.contains_key((args@.uid, 0nat)),
            final(self)@ == old(self)@.after_refresh(args@.uid, now as nat),
    {
        let names = self.chain(&args.uid);
        let ghost uid = args@.uid;
        let mut k: usize = 0;
        proof {
            self.lemma_wf();
            lemma_chain_len(self@, uid, 0);
            lemma_refresh_start(self@, uid, now as nat);
        }
        while k < names.len()
            invariant
                old(self).wf(),
                self.lock_map.wf(),
                self.lock_uid.wf(),
                uid == args@.uid,
                k <= names.len(),
                forall|i: int|
                    0 <= i < names.len() ==> old(self)@.index.contains_key((uid, i as nat)) && (
                    #[trigger] names[i])@ == old(self)@.index[(uid, i as nat)],
                self@ == old(self)@.refreshed(uid, k as nat, now as nat),
            decreases names.len() - k,
        {
            let name = &names[k];
            proof {
                lemma_refresh_step(old(self)@, uid, k as nat, now as nat);
            }
            match self.lock_map.remove(name) {
                Some(mut holders) => {
                    touch_matching(&mut holders, &args.uid, k, now);
                    self.lock_map.insert(name.clone(), holders);
                    proof {
                        let was = old(self)@.refreshed(uid, k as nat, now as nat).table;
                        assert(self.lock_map@ =~= was.insert(
                            name@,
                            touched(was[name@], uid, k as nat, now as nat),
                        ));
                    }
                },
                None => {
                    assert(false);
                },
            }
            k += 1;
        }
        proof {
            lemma_refresh_preserves(old(self)@, uid, names.len() as nat, now as nat);
        }
        Ok(names.len() > 0)
    }

    /// Releases locks by administrative order, whoever holds them.
    ///
    /// Without a uid, every holder of every named resource is removed. With
    /// a uid, the resource list is ignored: the probe 0, 1, 2, … finds the
    /// resources of the uid, and on each of them the holders that are the
    /// requester's and, where the request names an owner, that owner's leave;
    /// the answer is whether position 0 was there.
    pub fn force_unlock(&mut self, args: &LockArgs) -> (res: Result<bool, LockError>)
        requires
            old(self).wf(),
        ensures
            final(self).wf(),
            args@.uid.len() == 0 ==> {
                &&& res matches Ok(true)
                &&& final(self)@ == old(self)@.after_force_unlock_all(args@.resources)
            },
            args@.uid.len() > 0 ==> {
                &&& res matches Ok(found)
                &&& found == old(self)@.index.contains_key((args@.uid, 0nat))
                &&& final(self)@ == old(self)@.after_force_unlock_uid(args@)
            },
    {
        if args.uid.as_str().is_empty() {
            let rule = Removal::Every;
            let _ = self.drop_each(&args.resources, &rule);
            return Ok(true);
        }
        let names = self.chain(&args.uid);
        proof {
            self.lemma_wf();
            lemma_chain_len(self@, args@.uid, 0);
        }
        let rule = Removal::Release { uid: &args.uid, owner: &args.owner };
        let _ = self.drop_each(&names, &rule);
        Ok(names.len() > 0)
    }

    /// Removes every holder whose last refresh lies more than `interval`
    /// ticks before `now`, with its key in the reverse index; a resource
    /// left without holders loses its entry.
    pub fn expire_old_locks(&mut self, now: u64, interval: u64)
        requires
            old(self).wf(),
        ensures
            final(self).wf(),
            final(self)@ == old(self)@.after_expire(now as nat, interval as nat),
    {
        let mut names: Vec<String> = Vec::new();
        let n = self.lock_map.len();
        let mut i: usize = 0;
        while i < n
            invariant
                self.wf(),
                n == self.lock_map.pairs().len(),
                i <= n,
                names.len() == i,
                forall|j: int| 0 <= j < i ==> (#[trigger] names[j])@ == self.lock_map.pairs()[j].0,
            decreases n - i,
        {
            names.push(self.lock_map.name_at(i).clone());
            i += 1;
        }
        proof {
            let all = names_of(names@);
            let pairs = self.lock_map.pairs();
            assert forall|r: Seq<char>| all.to_set().contains(r) <==> self@.table.dom().contains(
                r,
            ) by {
                if all.contains(r) {
                    let j = choose|j: int| 0 <= j < all.len() && all[j] == r;
                    assert(names[j]@ == r);
                    lemma_as_map_at(pairs, j);
                }
                if self@.table.contains_key(r) {
                    let j = lemma_as_map_key(pairs, r);
                    assert(names[j]@ == r);
                    assert(all[j] == r);
                }
            }
            assert(all.to_set() =~= self@.table.dom());
        }
        let rule = Removal::Stale { now, ttl: interval };
        let _ = self.drop_each(&names, &rule);
    }

    /// Counts the resources that have an entry, and among them those whose
    /// first holder is a writer and those whose first holder is a reader.
    pub fn stats(&self) -> (st: LockStats)
        requires
            self.wf(),
        ensures
            st.total == self@.table.dom().len(),
            st.writes == self@.writer_keys().len(),
            st.reads == self@.reader_keys().len(),
            st.total == st.writes + st.reads,
    {
        let n = self.lock_map.len();
        let ghost pairs = self.lock_map.pairs();
        let mut writes: usize = 0;
        let mut reads: usize = 0;
        let mut i: usize = 0;
        proof {
            assert(keys_led(pairs, 0, true) =~= Set::empty());
            assert(keys_led(pairs, 0, false) =~= Set::empty());
        }
        while i < n
            invariant
                self.wf(),
                pairs == self.lock_map.pairs(),
                n == pairs.len(),
                i <= n,
                writes + reads == i,
                keys_led(pairs, i as int, true).finite(),
                keys_led(pairs, i as int, false).finite(),
                writes == keys_led(pairs, i as int, true).len(),
                reads == keys_led(pairs, i as int, false).len(),
            decreases n - i,
        {
            let holders = self.lock_map.holders_at(i);
            proof {
                let k = i as int;
                let name = pairs[k].0;
                lemma_as_map_at(pairs, k);
                assert(self@.table.contains_key(name));
                assert(pairs[k].1.len() > 0);
                assert(holders@[0]@ == pairs[k].1[0]);
                let led = pairs[k].1[0].writer;
                assert forall|w: bool| !keys_led(pairs, k, w).contains(name) by {
                    if keys_led(pairs, k, w).contains(name) {
                        let j = choose|j: int|
                            0 <= j < k && (#[trigger] pairs[j]).0 == name && leads(pairs[j].1, w);
                        assert(pairs[j].0 != pairs[k].0);
                    }
                }
                assert(keys_led(pairs, k + 1, led) =~= keys_led(pairs, k, led).insert(name));
                assert(keys_led(pairs, k + 1, !led) =~= keys_led(pairs, k, !led));
            }
            if holders.len() > 0 {
                if holders[0].writer {
                    writes += 1;
                } else {
                    reads += 1;
                }
            }
            i += 1;
        }
        proof {
            assert forall|w: bool, r: Seq<char>| keys_led(pairs, n as int, w).contains(r) <==> (
            self@.table.contains_key(r) && leads(self@.table[r], w)) by {
                if keys_led(pairs, n as int, w).contains(r) {
                    let j = choose|j: int|
                        0 <= j < n && (#[trigger] pairs[j]).0 == r && leads(pairs[j].1, w);
                    lemma_as_map_at(pairs, j);
                }
                if self@.table.contains_key(r) && leads(self@.table[r], w) {
                    let j = lemma_as_map_key(pairs, r);
                    assert(pairs[j].0 == r && leads(pairs[j].1, w));
                }
            }
            assert(keys_led(pairs, n as int, true) =~= self@.writer_keys());
            assert(keys_led(pairs, n as int, false) =~= self@.reader_keys());
        }
        LockStats { total: n, writes, reads }
    }

    /// A deep copy of the lock table, for diagnostics.
    pub fn dump_lock_map(&self) -> (copy: LockTable)
        requires
            self.wf(),
        ensures
            copy.wf(),
            copy@ == self@.table,
    {
        self.lock_map.duplicate()
    }

    /// The holders of a resource, if it has any.
    pub fn holders(&self, resource: &String) -> (r: Option<&Vec<LockRequesterInfo>>)
        requires
            self.wf(),
        ensures
            match r {
                Some(hs) => self@.table.contains_key(resource@) && holders_of(hs@)
                    == self@.table[resource@],
                None => !self@.table.contains_key(resource@),
            },
    {
        self.lock_map.get(resource)
    }

    /// The resource that the reverse index has for `uid` at batch position `idx`.
    pub fn resource_of(&self, uid: &String, idx: usize) -> (r: Option<&String>)
        requires
            self.wf(),
        ensures
            match r {
                Some(name) => self@.index.contains_key((uid@, idx as nat)) && name@
                    == self@.index[(uid@, idx as nat)],
                None => !self@.index.contains_key((uid@, idx as nat)),
            },
    {
        self.lock_uid.get(uid, idx)
    }

    /// This node answers for itself: it is always reachable.
    pub fn is_online(&self) -> (b: bool)
        ensures
            b,
    {
        true
    }

    /// This node's table lives in this process.
    pub fn is_local(&self) -> (b: bool)
        ensures
            b,
    {
        true
    }
}

/// The names among the first `n` pairs whose list is led as `writer` says.
spec fn keys_led(pairs: Seq<(Seq<char>, Seq<Holder>)>, n: int, writer: bool) -> Set<Seq<char>> {
    Set::new(
        |r: Seq<char>|
            exists|j: int| 0 <= j < n && (#[trigger] pairs[j]).0 == r && leads(pairs[j].1, writer),
    )
}

/// Whether some name stands at two positions.
fn has_duplicates(names: &Vec<String>) -> (dup: bool)
    ensures
        dup == !names_of(names@).no_duplicates(),
{
    let ghost all = names_of(names@);
    let mut i: usize = 0;
    while i < names.len()
        invariant
            i <= names.len(),
            all == names_of(names@),
            forall|a: int, b: int| 0 <= a < i && a < b < all.len() ==> all[a] != all[b],
        decreases names.len() - i,
    {
        let mut j: usize = i + 1;
        while j < names.len()
            invariant
                i < j <= names.len(),
                all == names_of(names@),
                forall|b: int| i < b < j ==> all[i as int] != all[b],
            decreases names.len() - j,
        {
            if names[i] == names[j] {
                assert(all[i as int] == all[j as int]);
                return true;
            }
            j += 1;
        }
        i += 1;
    }
    assert forall|a: int, b: int| 0 <= a < all.len() && 0 <= b < all.len() && a != b implies all[a]
        != all[b] by {
        if a < b {
        } else {
            assert(all[b] != all[a]);
        }
    }
    false
}

/// Sets the last refresh of the holders recorded under (`uid`, `idx`) to `now`.
fn touch_matching(holders: &mut Vec<LockRequesterInfo>, uid: &String, idx: usize, now: u64)
    ensures
        holders_of(final(holders)@) == touched(
            holders_of(old(holders)@),
            uid@,
            idx as nat,
            now as nat,
        ),
{
    let ghost was = holders_of(holders@);
    let mut i: usize = 0;
    while i < holders.len()
        invariant
            i <= holders.len(),
            holders@.len() == was.len(),
            was == holders_of(old(holders)@),
            forall|j: int|
                0 <= j < i ==> (#[trigger] holders@[j])@ == touched(
                    was,
                    uid@,
                    idx as nat,
                    now as nat,
                )[j],
            forall|j: int| i <= j < holders@.len() ==> (#[trigger] holders@[j])@ == was[j],
        decreases holders.len() - i,
    {
        if holders[i].idx == idx && holders[i].uid == *uid {
            holders[i].time_last_refresh = now;
        }
        i += 1;
    }
    assert(holders_of(holders@) =~= touched(was, uid@, idx as nat, now as nat));
}

} // verus!
