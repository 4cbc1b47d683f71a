//! One holder of a lock on one resource, and the predicates over holder lists.

use vstd::prelude::*;

verus! {

/// The mathematical content of a holder record.
pub ghost struct Holder {
    pub name: Seq<char>,
    pub writer: bool,
    pub uid: Seq<char>,
    pub acquired_at: nat,
    pub refreshed_at: nat,
    pub source: Seq<char>,
    pub group: bool,
    pub owner: Seq<char>,
    pub quorum: nat,
    pub idx: nat,
}

/// One entry per (resource, holder) pair. Times are ticks of the caller's
/// monotonic clock.
#[derive(Debug)]
pub struct LockRequesterInfo {
    pub name: String,
    pub writer: bool,
    pub uid: String,
    pub time_stamp: u64,
    pub time_last_refresh: u64,
    pub source: String,
    pub group: bool,
    pub owner: String,
    pub quorum: usize,
    pub idx: usize,
}

impl Default for LockRequesterInfo {
    /// A reader of the unnamed resource, taken at tick 0 and never refreshed.
    fn default() -> (lri: LockRequesterInfo)
        ensures
            lri@ == (Holder {
                name: Seq::empty(),
                writer: false,
                uid: Seq::empty(),
                acquired_at: 0,
                refreshed_at: 0,
                source: Seq::empty(),
                group: false,
                owner: Seq::empty(),
                quorum: 0,
                idx: 0,
            }),
    {
        LockRequesterInfo {
            name: String::new(),
            writer: false,
            uid: String::new(),
            time_stamp: 0,
            time_last_refresh: 0,
            source: String::new(),
            group: false,
            owner: String::new(),
            quorum: 0,
            idx: 0,
        }
    }
}

impl View for LockRequesterInfo {
    type V = Holder;

    open spec fn view(&self) -> Holder {
        Holder {
            name: self.name@,
            writer: self.writer,
            uid: self.uid@,
            acquired_at: self.time_stamp as nat,
            refreshed_at: self.time_last_refresh as nat,
            source: self.source@,
            group: self.group,
            owner: self.owner@,
            quorum: self.quorum as nat,
            idx: self.idx as nat,
        }
    }
}

/// The holders of one resource as mathematical records, in order of arrival.
pub open spec fn holders_of(lris: Seq<LockRequesterInfo>) -> Seq<Holder> {
    Seq::new(lris.len(), |i: int| lris[i]@)
}

/// A holder list is write-locked when it is exactly one writer.
pub open spec fn write_locked(hs: Seq<Holder>) -> bool {
    hs.len() == 1 && hs[0].writer
}

/// A release by `uid` concerns a holder when the uid agrees and the owner
/// filter is empty or names the holder's owner.
pub open spec fn concerns(h: Holder, uid: Seq<char>, owner: Seq<char>) -> bool {
    h.uid == uid && (owner.len() == 0 || h.owner == owner)
}

/// A holder is stale at `now` when its last refresh lies more than `ttl` ticks back.
pub open spec fn stale(h: Holder, now: nat, ttl: nat) -> bool {
    now - h.refreshed_at > ttl
}

/// Whether the holders are exactly one writer.
pub fn is_write_lock(lri: &[LockRequesterInfo]) -> (b: bool)
    ensures
        b == write_locked(holders_of(lri@)),
{
    lri.len() == 1 && lri[0].writer
}

impl LockRequesterInfo {
    /// Whether a release by `uid`, filtered by `owner`, concerns this holder.
    pub fn concerned_by(&self, uid: &String, owner: &String) -> (b: bool)
        ensures
            b == concerns(self@, uid@, owner@),
    {
        self.uid == *uid && (owner.as_str().is_empty() || self.owner == *owner)
    }

    /// Whether the last refresh lies more than `ttl` ticks before `now`.
    pub fn is_stale(&self, now: u64, ttl: u64) -> (b: bool)
        ensures
            b == stale(self@, now as nat, ttl as nat),
    {
        now > self.time_last_refresh && now - self.time_last_refresh > ttl
    }

    /// An independent copy of this record.
    pub fn duplicate(&self) -> (c: LockRequesterInfo)
        ensures
            c@ == self@,
    {
        LockRequesterInfo {
            name: self.name.clone(),
            writer: self.writer,
            uid: self.uid.clone(),
            time_stamp: self.time_stamp,
            time_last_refresh: self.time_last_refresh,
            source: self.source.clone(),
            group: self.group,
            owner: self.owner.clone(),
            quorum: self.quorum,
            idx: self.idx,
        }
    }
}

/// An independent copy of a holder list.
pub fn duplicate_all(lris: &Vec<LockRequesterInfo>) -> (copy: Vec<LockRequesterInfo>)
    ensures
        holders_of(copy@) == holders_of(lris@),
{
    let mut copy: Vec<LockRequesterInfo> = Vec::new();
    let mut i: usize = 0;
    while i < lris.len()
        invariant
            i <= lris.len(),
            copy@.len() == i,
            forall|j: int| 0 <= j < i ==> (#[trigger] copy@[j])@ == lris@[j]@,
        decreases lris.len() - i,
    {
        copy.push(lris[i].duplicate());
        i += 1;
    }
    assert(holders_of(copy@) =~= holders_of(lris@));
    copy
}

} // verus!
