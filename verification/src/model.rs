//! The lock table as mathematics: its state, the invariant every reachable
//! state satisfies, and each operation as a function from state to state.

use vstd::prelude::*;
use vstd::set_lib::lemma_len_subset;
use crate::args::Request;
use crate::holder::{concerns, stale, write_locked, Holder};

verus! {

/// Which holders an operation removes.
pub ghost enum Rule {
    /// Those of one requester, optionally of one owner only.
    Release { uid: Seq<char>, owner: Seq<char> },
    /// Those last refreshed more than `ttl` ticks before `now`.
    Stale { now: nat, ttl: nat },
    /// All of them.
    Every,
}

impl Rule {
    /// Whether the rule removes the holder.
    pub open spec fn dooms(self, h: Holder) -> bool {
        match self {
            Rule::Release { uid, owner } => concerns(h, uid, owner),
            Rule::Stale { now, ttl } => stale(h, now, ttl),
            Rule::Every => true,
        }
    }

    /// The test that a holder passes when the rule leaves it in place.
    pub open spec fn spares(self) -> spec_fn(Holder) -> bool {
        |h: Holder| !self.dooms(h)
    }
}

/// The holders that the rule leaves in place, in their old order.
pub open spec fn survivors(hs: Seq<Holder>, rule: Rule) -> Seq<Holder> {
    hs.filter(rule.spares())
}

/// The reverse-index key under which a holder is recorded.
pub open spec fn key_of(h: Holder) -> (Seq<char>, nat) {
    (h.uid, h.idx)
}

/// The reverse-index keys of the holders that the rule removes from a list.
pub open spec fn keys_doomed(hs: Seq<Holder>, rule: Rule) -> Set<(Seq<char>, nat)> {
    Set::new(
        |k: (Seq<char>, nat)|
            exists|i: int| 0 <= i < hs.len() && rule.dooms(#[trigger] hs[i]) && key_of(hs[i]) == k,
    )
}

/// Some holder of the list is recorded under the key.
pub open spec fn holds(hs: Seq<Holder>, k: (Seq<char>, nat)) -> bool {
    exists|i: int| 0 <= i < hs.len() && key_of(#[trigger] hs[i]) == k
}

/// No holder of the list is a writer.
pub open spec fn all_readers(hs: Seq<Holder>) -> bool {
    forall|i: int| 0 <= i < hs.len() ==> !(#[trigger] hs[i]).writer
}

/// What holds of the holder list of every resource in the table: it is not
/// empty; it is one writer or readers only; each record names its resource.
pub open spec fn holders_ok(r: Seq<char>, hs: Seq<Holder>) -> bool {
    &&& hs.len() > 0
    &&& write_locked(hs) || all_readers(hs)
    &&& forall|i: int| 0 <= i < hs.len() ==> (#[trigger] hs[i]).name == r
}

/// No two holders of the list are recorded under the same key.
pub open spec fn distinct_holders(hs: Seq<Holder>) -> bool {
    forall|i: int, j: int|
        0 <= i < j < hs.len() ==> key_of(#[trigger] hs[i]) != key_of(#[trigger] hs[j])
}

/// The list has a first holder, and it is a writer or not as `writer` says.
pub open spec fn leads(hs: Seq<Holder>, writer: bool) -> bool {
    hs.len() > 0 && hs[0].writer == writer
}

/// A holder with its last refresh moved to `now`.
pub open spec fn touch(h: Holder, now: nat) -> Holder {
    Holder { refreshed_at: now, ..h }
}

/// A holder list in which the holders recorded under (`uid`, `idx`) were touched.
pub open spec fn touched(hs: Seq<Holder>, uid: Seq<char>, idx: nat, now: nat) -> Seq<Holder> {
    Seq::new(
        hs.len(),
        |i: int|
            if key_of(hs[i]) == (uid, idx) {
                touch(hs[i], now)
            } else {
                hs[i]
            },
    )
}

impl Request {
    /// The writer record for the resource at batch position `i`.
    pub open spec fn writer_at(self, i: int, now: nat) -> Holder {
        Holder {
            name: self.resources[i],
            writer: true,
            uid: self.uid,
            acquired_at: now,
            refreshed_at: now,
            source: self.source,
            group: self.resources.len() > 1,
            owner: self.owner,
            quorum: self.quorum,
            idx: i as nat,
        }
    }

    /// The reader record for the request's one resource.
    pub open spec fn reader(self, now: nat) -> Holder {
        Holder {
            name: self.resources[0],
            writer: false,
            uid: self.uid,
            acquired_at: now,
            refreshed_at: now,
            source: self.source,
            group: false,
            owner: self.owner,
            quorum: self.quorum,
            idx: 0,
        }
    }

    /// The rule of a release made with this request.
    pub open spec fn release(self) -> Rule {
        Rule::Release { uid: self.uid, owner: self.owner }
    }
}

/// The lock table and its reverse index.
pub ghost struct LockerState {
    pub table: Map<Seq<char>, Seq<Holder>>,
    pub index: Map<(Seq<char>, nat), Seq<char>>,
}

impl LockerState {
    /// The state of a node that has just started: nothing is held.
    pub open spec fn empty() -> LockerState {
        LockerState { table: Map::empty(), index: Map::empty() }
    }

    /// Both maps have finitely many keys.
    pub open spec fn finite(self) -> bool {
        self.table.dom().finite() && self.index.dom().finite()
    }

    /// Every listed resource is held as its list allows, and every key of the
    /// reverse index names a resource on which a holder is recorded under it.
    pub open spec fn consistent(self) -> bool {
        &&& forall|r: Seq<char>| #[trigger]
            self.table.contains_key(r) ==> holders_ok(r, self.table[r])
        &&& forall|k: (Seq<char>, nat)| #[trigger]
            self.index.contains_key(k) ==> self.table.contains_key(self.index[k]) && holds(
                self.table[self.index[k]],
                k,
            )
    }

    /// Some holder in the table was acquired under `uid`.
    pub open spec fn knows(self, uid: Seq<char>) -> bool {
        exists|r: Seq<char>, i: int|
            self.table.contains_key(r) && 0 <= i < self.table[r].len() && (
            #[trigger] self.table[r][i]).uid == uid
    }

    /// Every holder is found again through the reverse index: its key is
    /// there and names the holder's resource, and no other holder of that
    /// resource has the same key. Together with consistency this makes the
    /// keys of the reverse index and the holders of the table correspond one
    /// to one. It holds as long as no uid is used for a second acquisition
    /// while a holder of the first is still in the table.
    pub open spec fn indexed(self) -> bool {
        &&& forall|r: Seq<char>, i: int|
            #![trigger self.table[r][i]]
            self.table.contains_key(r) && 0 <= i < self.table[r].len()
                ==> self.index.contains_key(key_of(self.table[r][i])) && self.index[key_of(
                self.table[r][i],
            )] == r
        &&& forall|r: Seq<char>| #[trigger]
            self.table.contains_key(r) ==> distinct_holders(self.table[r])
    }

    // ---- removal of holders ----

    /// The rule removes holder `i` of resource `r`, one of the resources `rs`.
    pub open spec fn dooms_at(self, rs: Set<Seq<char>>, rule: Rule, r: Seq<char>, i: int) -> bool {
        &&& rs.contains(r)
        &&& self.table.contains_key(r)
        &&& 0 <= i < self.table[r].len()
        &&& rule.dooms(self.table[r][i])
    }

    /// The rule removes at least one holder from the resources `rs`.
    pub open spec fn hits(self, rs: Set<Seq<char>>, rule: Rule) -> bool {
        exists|r: Seq<char>, i: int| self.dooms_at(rs, rule, r, i)
    }

    /// The reverse-index keys of the holders that the rule removes from `rs`.
    pub open spec fn doomed_keys(self, rs: Set<Seq<char>>, rule: Rule) -> Set<(Seq<char>, nat)> {
        Set::new(
            |k: (Seq<char>, nat)|
                exists|r: Seq<char>, i: int| #[trigger]
                    self.dooms_at(rs, rule, r, i) && key_of(self.table[r][i]) == k,
        )
    }

    /// The state after the rule has been applied to the resources `rs`: their
    /// doomed holders are gone, a resource left without holders has no entry,
    /// and the reverse index has lost the key of every removed holder.
    pub open spec fn drop_holders(self, rs: Set<Seq<char>>, rule: Rule) -> LockerState {
        LockerState {
            table: Map::new(
                |r: Seq<char>|
                    self.table.contains_key(r) && (rs.contains(r) ==> survivors(
                        self.table[r],
                        rule,
                    ).len() > 0),
                |r: Seq<char>|
                    if rs.contains(r) {
                        survivors(self.table[r], rule)
                    } else {
                        self.table[r]
                    },
            ),
            index: self.index.remove_keys(self.doomed_keys(rs, rule)),
        }
    }

    // ---- exclusive acquisition ----

    /// None of the names has an entry.
    pub open spec fn can_take(self, names: Seq<Seq<char>>) -> bool {
        forall|i: int| 0 <= i < names.len() ==> !self.table.contains_key(#[trigger] names[i])
    }

    /// An exclusive request is granted when none of its resources is held and
    /// none is named twice: a second mention would find the first one's writer.
    pub open spec fn grants_lock(self, req: Request) -> bool {
        self.can_take(req.resources) && req.resources.no_duplicates()
    }

    /// The state after the first `n` resources of the request were given their writer.
    pub open spec fn with_writers(self, req: Request, n: int, now: nat) -> LockerState {
        LockerState {
            table: Map::new(
                |r: Seq<char>| self.table.contains_key(r) || req.resources.take(n).contains(r),
                |r: Seq<char>|
                    if req.resources.take(n).contains(r) {
                        seq![req.writer_at(req.resources.index_of(r), now)]
                    } else {
                        self.table[r]
                    },
            ),
            index: Map::new(
                |k: (Seq<char>, nat)| self.index.contains_key(k) || (k.0 == req.uid && k.1 < n),
                |k: (Seq<char>, nat)|
                    if k.0 == req.uid && k.1 < n {
                        req.resources[k.1 as int]
                    } else {
                        self.index[k]
                    },
            ),
        }
    }

    /// The state after a granted exclusive request.
    pub open spec fn after_lock(self, req: Request, now: nat) -> LockerState {
        self.with_writers(req, req.resources.len() as int, now)
    }

    // ---- shared acquisition ----

    /// A shared request is granted unless its resource is write-locked.
    pub open spec fn grants_rlock(self, req: Request) -> bool {
        !(self.table.contains_key(req.resources[0]) && write_locked(self.table[req.resources[0]]))
    }

    /// The state after a granted shared request.
    pub open spec fn after_rlock(self, req: Request, now: nat) -> LockerState {
        let r = req.resources[0];
        let before = if self.table.contains_key(r) {
            self.table[r]
        } else {
            Seq::<Holder>::empty()
        };
        LockerState {
            table: self.table.insert(r, before.push(req.reader(now))),
            index: self.index.insert((req.uid, 0nat), r),
        }
    }

    // ---- release ----

    /// The named resources that are write-locked.
    pub open spec fn write_locked_among(self, names: Seq<Seq<char>>) -> Set<Seq<char>> {
        Set::new(
            |r: Seq<char>|
                names.contains(r) && self.table.contains_key(r) && write_locked(self.table[r]),
        )
    }

    /// Whether a name is held, but not by a writer.
    pub open spec fn read_locked(self, r: Seq<char>) -> bool {
        self.table.contains_key(r) && !write_locked(self.table[r])
    }

    /// The test by which an exclusive release sets a name aside.
    pub open spec fn read_locked_fn(self) -> spec_fn(Seq<char>) -> bool {
        |r: Seq<char>| self.read_locked(r)
    }

    /// The names that an exclusive release sets aside because readers hold
    /// them, in request order and as often as the request names them.
    pub open spec fn read_locked_among(self, names: Seq<Seq<char>>) -> Seq<Seq<char>> {
        names.filter(self.read_locked_fn())
    }

    /// Whether an exclusive release lets go of at least one resource.
    pub open spec fn unlock_releases(self, req: Request) -> bool {
        self.hits(self.write_locked_among(req.resources), req.release())
    }

    /// The state after an exclusive release.
    pub open spec fn after_unlock(self, req: Request) -> LockerState {
        self.drop_holders(self.write_locked_among(req.resources), req.release())
    }

    /// The state after a shared release of a resource that no writer holds.
    pub open spec fn after_runlock(self, req: Request) -> LockerState {
        self.drop_holders(set![req.resources[0]], req.release())
    }

    // ---- the chain of a requester ----

    /// The reverse index has `uid` at every batch position below `n`.
    pub open spec fn chain_upto(self, uid: Seq<char>, n: nat) -> bool {
        forall|i: nat| i < n ==> #[trigger] self.index.contains_key((uid, i))
    }

    /// How far the probe 0, 1, 2, … for `uid` gets before its first miss.
    pub open spec fn chain_len(self, uid: Seq<char>) -> nat {
        choose|n: nat| self.chain_upto(uid, n) && !self.index.contains_key((uid, n))
    }

    /// The resources that the probe for `uid` resolves to.
    pub open spec fn chain_resources(self, uid: Seq<char>, n: nat) -> Set<Seq<char>> {
        Set::new(
            |r: Seq<char>|
                exists|i: nat| i < n && #[trigger] self.index.contains_key((uid, i)) && self.index[(
                    uid,
                    i,
                )] == r,
        )
    }

    // ---- heartbeat ----

    /// A heartbeat of `uid` that got `n` positions far confirms holder `h` of
    /// resource `r`.
    pub open spec fn confirms(self, uid: Seq<char>, n: nat, r: Seq<char>, h: Holder) -> bool {
        &&& h.uid == uid
        &&& h.idx < n
        &&& self.index.contains_key((uid, h.idx))
        &&& self.index[(uid, h.idx)] == r
    }

    /// The state after the first `n` positions of `uid` were confirmed at `now`.
    pub open spec fn refreshed(self, uid: Seq<char>, n: nat, now: nat) -> LockerState {
        LockerState {
            table: Map::new(
                |r: Seq<char>| self.table.contains_key(r),
                |r: Seq<char>|
                    Seq::new(
                        self.table[r].len(),
                        |i: int|
                            if self.confirms(uid, n, r, self.table[r][i]) {
                                touch(self.table[r][i], now)
                            } else {
                                self.table[r][i]
                            },
                    ),
            ),
            index: self.index,
        }
    }

    /// The state after a heartbeat of `uid` at `now`.
    pub open spec fn after_refresh(self, uid: Seq<char>, now: nat) -> LockerState {
        self.refreshed(uid, self.chain_len(uid), now)
    }

    // ---- forced release ----

    /// The state after the forced release of every holder of the named resources.
    pub open spec fn after_force_unlock_all(self, names: Seq<Seq<char>>) -> LockerState {
        self.drop_holders(names.to_set(), Rule::Every)
    }

    /// The state after the forced release of what `uid` holds, found by probing.
    pub open spec fn after_force_unlock_uid(self, req: Request) -> LockerState {
        self.drop_holders(self.chain_resources(req.uid, self.chain_len(req.uid)), req.release())
    }

    // ---- counting ----

    /// The resources whose first holder is a writer.
    pub open spec fn writer_keys(self) -> Set<Seq<char>> {
        Set::new(|r: Seq<char>| self.table.contains_key(r) && leads(self.table[r], true))
    }

    /// The resources whose first holder is a reader.
    pub open spec fn reader_keys(self) -> Set<Seq<char>> {
        Set::new(|r: Seq<char>| self.table.contains_key(r) && leads(self.table[r], false))
    }

    // ---- expiry ----

    /// The state after the sweep at `now` with time-to-live `ttl`.
    pub open spec fn after_expire(self, now: nat, ttl: nat) -> LockerState {
        self.drop_holders(self.table.dom(), Rule::Stale { now, ttl })
    }
}

// ---- facts about survivors ----

/// Survivors are spared holders of the list, and every spared holder survives.
pub proof fn lemma_survivors(hs: Seq<Holder>, rule: Rule)
    ensures
        survivors(hs, rule).len() <= hs.len(),
        forall|j: int|
            0 <= j < survivors(hs, rule).len() ==> !rule.dooms(#[trigger] survivors(hs, rule)[j])
                && hs.contains(survivors(hs, rule)[j]),
        forall|i: int|
            0 <= i < hs.len() && !rule.dooms(#[trigger] hs[i]) ==> survivors(hs, rule).contains(
                hs[i],
            ),
{
    let p = rule.spares();
    let f = hs.filter(p);
    hs.lemma_filter_len(p);
    assert forall|j: int| 0 <= j < f.len() implies !rule.dooms(#[trigger] f[j]) && hs.contains(
        f[j],
    ) by {
        hs.lemma_filter_pred(p, j);
        assert(f.contains(f[j]));
        hs.lemma_filter_contains_rev(p, f[j]);
    }
    assert forall|i: int| 0 <= i < hs.len() && !rule.dooms(#[trigger] hs[i]) implies f.contains(
        hs[i],
    ) by {
        assert(p(hs[i]));
        hs.lemma_filter_contains(p, i);
    }
}

/// A list that the rule leaves alone survives whole.
pub proof fn lemma_survivors_all(hs: Seq<Holder>, rule: Rule)
    requires
        forall|i: int| 0 <= i < hs.len() ==> !rule.dooms(#[trigger] hs[i]),
    ensures
        survivors(hs, rule) == hs,
    decreases hs.len(),
{
    let p = rule.spares();
    if hs.len() == 0 {
        reveal(Seq::filter);
        assert(hs.filter(p) =~= hs);
    } else {
        let t = hs.drop_last();
        assert forall|i: int| 0 <= i < t.len() implies !rule.dooms(#[trigger] t[i]) by {
            assert(t[i] == hs[i]);
        }
        lemma_survivors_all(t, rule);
        t.lemma_filter_push(hs.last(), p);
        assert(t.push(hs.last()) =~= hs);
        assert(p(hs.last()));
    }
}

/// Applying a rule twice removes no more than applying it once.
pub proof fn lemma_survivors_twice(hs: Seq<Holder>, rule: Rule)
    ensures
        survivors(survivors(hs, rule), rule) == survivors(hs, rule),
{
    lemma_survivors(hs, rule);
    lemma_survivors_all(survivors(hs, rule), rule);
}

/// The rule removes a holder exactly when fewer survive than were there.
pub proof fn lemma_survivors_len(hs: Seq<Holder>, rule: Rule)
    ensures
        survivors(hs, rule).len() == hs.len() <==> forall|i: int|
            0 <= i < hs.len() ==> !rule.dooms(#[trigger] hs[i]),
    decreases hs.len(),
{
    let p = rule.spares();
    if hs.len() == 0 {
        reveal(Seq::filter);
    } else {
        let t = hs.drop_last();
        lemma_survivors_len(t, rule);
        t.lemma_filter_push(hs.last(), p);
        t.lemma_filter_len(p);
        assert(t.push(hs.last()) =~= hs);
        if survivors(hs, rule).len() == hs.len() {
            assert(p(hs.last()));
            assert forall|i: int| 0 <= i < hs.len() implies !rule.dooms(#[trigger] hs[i]) by {
                if i < t.len() {
                    assert(t[i] == hs[i]);
                }
            }
        }
        if forall|i: int| 0 <= i < hs.len() ==> !rule.dooms(#[trigger] hs[i]) {
            lemma_survivors_all(hs, rule);
        }
    }
}

/// The survivors of a list without repeated keys have no repeated keys.
pub proof fn lemma_survivors_distinct(hs: Seq<Holder>, rule: Rule)
    requires
        distinct_holders(hs),
    ensures
        distinct_holders(survivors(hs, rule)),
    decreases hs.len(),
{
    let p = rule.spares();
    if hs.len() == 0 {
        reveal(Seq::filter);
    } else {
        let t = hs.drop_last();
        let x = hs.last();
        assert forall|i: int, j: int| 0 <= i < j < t.len() implies key_of(#[trigger] t[i])
            != key_of(#[trigger] t[j]) by {
            assert(t[i] == hs[i] && t[j] == hs[j]);
        }
        lemma_survivors_distinct(t, rule);
        lemma_survivors(t, rule);
        t.lemma_filter_push(x, p);
        assert(t.push(x) =~= hs);
        let st = survivors(t, rule);
        let sv = survivors(hs, rule);
        if p(x) {
            assert forall|i: int, j: int| 0 <= i < j < sv.len() implies key_of(#[trigger] sv[i])
                != key_of(#[trigger] sv[j]) by {
                assert(sv[i] == st[i]);
                if j < st.len() {
                    assert(sv[j] == st[j]);
                } else {
                    assert(t.contains(st[i]));
                    let a = choose|a: int| 0 <= a < t.len() && t[a] == st[i];
                    assert(hs[a] == t[a]);
                    assert(key_of(hs[a]) != key_of(hs[hs.len() - 1]));
                }
            }
        }
    }
}

/// Removing holders keeps a state consistent.
pub proof fn lemma_drop_preserves(st: LockerState, rs: Set<Seq<char>>, rule: Rule)
    requires
        st.consistent(),
    ensures
        st.drop_holders(rs, rule).consistent(),
        st.finite() ==> st.drop_holders(rs, rule).finite(),
{
    let after = st.drop_holders(rs, rule);
    assert forall|r: Seq<char>| #[trigger] after.table.contains_key(r) implies holders_ok(
        r,
        after.table[r],
    ) by {
        assert(st.table.contains_key(r));
        let hs = st.table[r];
        if rs.contains(r) {
            let sv = survivors(hs, rule);
            lemma_survivors(hs, rule);
            assert forall|j: int| 0 <= j < sv.len() implies (#[trigger] sv[j]).name == r by {
                let i = choose|i: int| 0 <= i < hs.len() && hs[i] == sv[j];
                assert(hs[i].name == r);
            }
            if write_locked(hs) {
                assert(sv.len() == 1);
                let i = choose|i: int| 0 <= i < hs.len() && hs[i] == sv[0];
                assert(sv[0] == hs[0]);
            } else {
                assert forall|j: int| 0 <= j < sv.len() implies !(#[trigger] sv[j]).writer by {
                    let i = choose|i: int| 0 <= i < hs.len() && hs[i] == sv[j];
                    assert(!hs[i].writer);
                }
            }
        }
    }
    assert forall|k: (Seq<char>, nat)| #[trigger] after.index.contains_key(k) implies after.table.contains_key(
        after.index[k],
    ) && holds(after.table[after.index[k]], k) by {
        assert(st.index.contains_key(k));
        let r = st.index[k];
        let hs = st.table[r];
        let i = choose|i: int| 0 <= i < hs.len() && key_of(#[trigger] hs[i]) == k;
        if rs.contains(r) {
            if rule.dooms(hs[i]) {
                assert(st.dooms_at(rs, rule, r, i));
                assert(st.doomed_keys(rs, rule).contains(k));
            }
            lemma_survivors(hs, rule);
            let sv = survivors(hs, rule);
            assert(sv.contains(hs[i]));
            let j = choose|j: int| 0 <= j < sv.len() && sv[j] == hs[i];
            assert(key_of(sv[j]) == k);
        }
    }
    if st.finite() {
        assert(after.table.dom().subset_of(st.table.dom()));
        assert(after.index.dom().subset_of(st.index.dom()));
        lemma_len_subset(after.table.dom(), st.table.dom());
        lemma_len_subset(after.index.dom(), st.index.dom());
    }
}

/// Removing from no resource changes nothing.
pub proof fn lemma_drop_nowhere(st: LockerState, rule: Rule)
    ensures
        st.drop_holders(Set::empty(), rule) == st,
{
    let after = st.drop_holders(Set::empty(), rule);
    assert(after.table =~= st.table);
    assert forall|k: (Seq<char>, nat)| !st.doomed_keys(Set::empty(), rule).contains(k) by {
        if st.doomed_keys(Set::empty(), rule).contains(k) {
            let (r, i) = choose|r: Seq<char>, i: int| #[trigger]
                st.dooms_at(Set::empty(), rule, r, i) && key_of(st.table[r][i]) == k;
        }
    }
    assert(after.index =~= st.index);
}

/// Removing from the resources `rs` and then from `r` is removing from both at once.
pub proof fn lemma_drop_step(st: LockerState, rs: Set<Seq<char>>, r: Seq<char>, rule: Rule)
    ensures
        st.drop_holders(rs, rule).drop_holders(set![r], rule) == st.drop_holders(
            rs.insert(r),
            rule,
        ),
        st.hits(rs.insert(r), rule) <==> st.hits(rs, rule) || st.drop_holders(rs, rule).hits(
            set![r],
            rule,
        ),
{
    let mid = st.drop_holders(rs, rule);
    let one = set![r];
    let lhs = mid.drop_holders(one, rule);
    let all = rs.insert(r);
    let rhs = st.drop_holders(all, rule);
    assert forall|q: Seq<char>| st.table.contains_key(q) implies survivors(
        survivors(st.table[q], rule),
        rule,
    ) == survivors(st.table[q], rule) by {
        lemma_survivors_twice(st.table[q], rule);
    }
    assert(lhs.table =~= rhs.table);
    let kl = mid.doomed_keys(one, rule);
    let km = st.doomed_keys(rs, rule);
    let kr = st.doomed_keys(all, rule);
    assert forall|k: (Seq<char>, nat)| kr.contains(k) <==> (km.contains(k) || kl.contains(k)) by {
        if kr.contains(k) {
            let (q, i) = choose|q: Seq<char>, i: int| #[trigger]
                st.dooms_at(all, rule, q, i) && key_of(st.table[q][i]) == k;
            if rs.contains(q) {
                assert(st.dooms_at(rs, rule, q, i));
            } else {
                assert(q == r);
                assert(mid.table[q] == st.table[q]);
                lemma_survivors(st.table[q], rule);
                assert(mid.dooms_at(one, rule, q, i));
            }
        }
        if km.contains(k) {
            let (q, i) = choose|q: Seq<char>, i: int| #[trigger]
                st.dooms_at(rs, rule, q, i) && key_of(st.table[q][i]) == k;
            assert(st.dooms_at(all, rule, q, i));
        }
        if kl.contains(k) {
            let (q, i) = choose|q: Seq<char>, i: int| #[trigger]
                mid.dooms_at(one, rule, q, i) && key_of(mid.table[q][i]) == k;
            assert(q == r);
            if rs.contains(r) {
                lemma_survivors(st.table[r], rule);
                assert(false);
            } else {
                assert(mid.table[r] == st.table[r]);
                assert(st.dooms_at(all, rule, r, i));
            }
        }
    }
    assert(lhs.index =~= rhs.index);
    if st.hits(all, rule) {
        let (q, i) = choose|q: Seq<char>, i: int| st.dooms_at(all, rule, q, i);
        if rs.contains(q) {
            assert(st.dooms_at(rs, rule, q, i));
        } else {
            assert(mid.table[q] == st.table[q]);
            lemma_survivors(st.table[q], rule);
            assert(mid.dooms_at(one, rule, q, i));
        }
    }
    if st.hits(rs, rule) {
        let (q, i) = choose|q: Seq<char>, i: int| st.dooms_at(rs, rule, q, i);
        assert(st.dooms_at(all, rule, q, i));
    }
    if mid.hits(one, rule) {
        let (q, i) = choose|q: Seq<char>, i: int| mid.dooms_at(one, rule, q, i);
        if rs.contains(q) {
            lemma_survivors(st.table[q], rule);
            assert(false);
        } else {
            assert(mid.table[q] == st.table[q]);
            assert(st.dooms_at(all, rule, q, i));
        }
    }
}

/// Removing from one resource, spelled out on the two maps.
pub proof fn lemma_drop_one(st: LockerState, r: Seq<char>, rule: Rule)
    ensures
        !st.table.contains_key(r) ==> st.drop_holders(set![r], rule) == st,
        st.table.contains_key(r) ==> st.drop_holders(set![r], rule).index == st.index.remove_keys(
            keys_doomed(st.table[r], rule),
        ),
        st.table.contains_key(r) && survivors(st.table[r], rule).len() == 0 ==> st.drop_holders(
            set![r],
            rule,
        ).table == st.table.remove(r),
        st.table.contains_key(r) && survivors(st.table[r], rule).len() > 0 ==> st.drop_holders(
            set![r],
            rule,
        ).table == st.table.insert(r, survivors(st.table[r], rule)),
        st.hits(set![r], rule) <==> st.table.contains_key(r) && survivors(st.table[r], rule).len()
            < st.table[r].len(),
{
    let one = set![r];
    let after = st.drop_holders(one, rule);
    let dk = st.doomed_keys(one, rule);
    if st.table.contains_key(r) {
        let hs = st.table[r];
        let kd = keys_doomed(hs, rule);
        assert forall|k: (Seq<char>, nat)| dk.contains(k) <==> kd.contains(k) by {
            if dk.contains(k) {
                let (q, i) = choose|q: Seq<char>, i: int| #[trigger]
                    st.dooms_at(one, rule, q, i) && key_of(st.table[q][i]) == k;
                assert(q == r);
                assert(rule.dooms(hs[i]) && key_of(hs[i]) == k);
            }
            if kd.contains(k) {
                let i = choose|i: int|
                    0 <= i < hs.len() && rule.dooms(#[trigger] hs[i]) && key_of(hs[i]) == k;
                assert(st.dooms_at(one, rule, r, i));
            }
        }
        assert(dk =~= kd);
        if survivors(hs, rule).len() == 0 {
            assert(after.table =~= st.table.remove(r));
        } else {
            assert(after.table =~= st.table.insert(r, survivors(hs, rule)));
        }
        lemma_survivors_len(hs, rule);
        lemma_survivors(hs, rule);
        if st.hits(one, rule) {
            let (q, i) = choose|q: Seq<char>, i: int| st.dooms_at(one, rule, q, i);
            assert(q == r);
            assert(rule.dooms(hs[i]));
        }
        if survivors(hs, rule).len() < hs.len() {
            let i = choose|i: int| 0 <= i < hs.len() && rule.dooms(#[trigger] hs[i]);
            assert(st.dooms_at(one, rule, r, i));
        }
    } else {
        assert forall|k: (Seq<char>, nat)| !dk.contains(k) by {
            if dk.contains(k) {
                let (q, i) = choose|q: Seq<char>, i: int| #[trigger]
                    st.dooms_at(one, rule, q, i) && key_of(st.table[q][i]) == k;
            }
        }
        assert(after.table =~= st.table);
        assert(after.index =~= st.index);
        if st.hits(one, rule) {
            let (q, i) = choose|q: Seq<char>, i: int| st.dooms_at(one, rule, q, i);
        }
    }
}

// ---- the chain of a requester ----

/// A chain is no longer than the reverse index has keys.
pub proof fn lemma_chain_bounded(st: LockerState, uid: Seq<char>, n: nat)
    requires
        st.index.dom().finite(),
        st.chain_upto(uid, n),
    ensures
        n <= st.index.dom().len(),
    decreases n,
{
    if n > 0 {
        let m = (n - 1) as nat;
        let less = LockerState { table: st.table, index: st.index.remove((uid, m)) };
        assert(st.index.contains_key((uid, m)));
        assert forall|i: nat| i < m implies #[trigger] less.index.contains_key((uid, i)) by {
            assert(st.index.contains_key((uid, i)));
        }
        lemma_chain_bounded(less, uid, m);
    }
}

/// The probe for `uid` that has found every position below `n` ends somewhere.
proof fn lemma_chain_ends(st: LockerState, uid: Seq<char>, n: nat) -> (end: nat)
    requires
        st.index.dom().finite(),
        st.chain_upto(uid, n),
    ensures
        st.chain_upto(uid, end),
        !st.index.contains_key((uid, end)),
    decreases st.index.dom().len() - n,
{
    lemma_chain_bounded(st, uid, n);
    if st.index.contains_key((uid, n)) {
        assert forall|i: nat| i < n + 1 implies #[trigger] st.index.contains_key((uid, i)) by {
            if i < n {
                assert(st.index.contains_key((uid, i)));
            }
        }
        lemma_chain_bounded(st, uid, n + 1);
        lemma_chain_ends(st, uid, n + 1)
    } else {
        n
    }
}

/// The chain of `uid` is the one position at which the probe first misses.
pub proof fn lemma_chain_len(st: LockerState, uid: Seq<char>, n: nat)
    requires
        st.index.dom().finite(),
    ensures
        st.chain_upto(uid, st.chain_len(uid)),
        !st.index.contains_key((uid, st.chain_len(uid))),
        st.chain_len(uid) <= st.index.dom().len(),
        st.chain_upto(uid, n) && !st.index.contains_key((uid, n)) ==> n == st.chain_len(uid),
        st.chain_len(uid) > 0 <==> st.index.contains_key((uid, 0nat)),
{
    let end = lemma_chain_ends(st, uid, 0);
    let c = st.chain_len(uid);
    assert(st.chain_upto(uid, c) && !st.index.contains_key((uid, c)));
    lemma_chain_bounded(st, uid, c);
    if st.chain_upto(uid, n) && !st.index.contains_key((uid, n)) {
        if n < c {
            assert(st.index.contains_key((uid, n)));
        }
        if c < n {
            assert(st.index.contains_key((uid, c)));
        }
    }
    if c > 0 {
        assert(st.index.contains_key((uid, 0nat)));
    }
}

// ---- exclusive acquisition ----

/// Before any writer is placed the state is the old one.
pub proof fn lemma_lock_start(st: LockerState, req: Request, now: nat)
    ensures
        st.with_writers(req, 0, now) == st,
{
    let a = st.with_writers(req, 0, now);
    assert(req.resources.take(0).len() == 0);
    assert(a.table =~= st.table);
    assert(a.index =~= st.index);
}

/// A name of a list without repetitions is found where it stands.
pub proof fn lemma_index_of(names: Seq<Seq<char>>, k: int)
    requires
        names.no_duplicates(),
        0 <= k < names.len(),
    ensures
        names.contains(names[k]),
        names.index_of(names[k]) == k,
{
    assert(names[k] == names[k]);
    let i = names.index_of(names[k]);
    assert(0 <= i < names.len() && names[i] == names[k]);
}

/// Placing the writer of position `k` binds its resource and its key.
pub proof fn lemma_lock_step(st: LockerState, req: Request, k: int, now: nat)
    requires
        req.resources.no_duplicates(),
        0 <= k < req.resources.len(),
    ensures
        st.with_writers(req, k + 1, now).table == st.with_writers(req, k, now).table.insert(
            req.resources[k],
            seq![req.writer_at(k, now)],
        ),
        st.with_writers(req, k + 1, now).index == st.with_writers(req, k, now).index.insert(
            (req.uid, k as nat),
            req.resources[k],
        ),
{
    let names = req.resources;
    let a = st.with_writers(req, k, now);
    let b = st.with_writers(req, k + 1, now);
    let short = names.take(k);
    let long = names.take(k + 1);
    assert forall|r: Seq<char>| long.contains(r) <==> short.contains(r) || r == names[k] by {
        if long.contains(r) {
            let j = choose|j: int| 0 <= j < long.len() && long[j] == r;
            if j < k {
                assert(short[j] == r);
            }
        }
        if short.contains(r) {
            let j = choose|j: int| 0 <= j < short.len() && short[j] == r;
            assert(long[j] == r);
        }
        if r == names[k] {
            assert(long[k] == r);
        }
    }
    lemma_index_of(names, k);
    assert(b.table =~= a.table.insert(names[k], seq![req.writer_at(k, now)]));
    assert(b.index =~= a.index.insert((req.uid, k as nat), names[k]));
}

/// A granted exclusive request keeps the state consistent.
pub proof fn lemma_lock_preserves(st: LockerState, req: Request, now: nat)
    requires
        st.consistent(),
        st.grants_lock(req),
    ensures
        st.after_lock(req, now).consistent(),
{
    let names = req.resources;
    let n = names.len() as int;
    let after = st.after_lock(req, now);
    assert(names.take(n) =~= names);
    assert forall|r: Seq<char>| #[trigger] after.table.contains_key(r) implies holders_ok(
        r,
        after.table[r],
    ) by {
        if names.contains(r) {
            let j = choose|j: int| 0 <= j < names.len() && names[j] == r;
            lemma_index_of(names, j);
        } else {
            assert(st.table.contains_key(r));
        }
    }
    assert forall|k: (Seq<char>, nat)| #[trigger] after.index.contains_key(k) implies after.table.contains_key(
        after.index[k],
    ) && holds(after.table[after.index[k]], k) by {
        if k.0 == req.uid && k.1 < n {
            let j = k.1 as int;
            lemma_index_of(names, j);
            let hs = after.table[names[j]];
            assert(key_of(hs[0]) == k);
        } else {
            assert(st.index.contains_key(k));
            let r = st.index[k];
            if names.contains(r) {
                let j = choose|j: int| 0 <= j < names.len() && names[j] == r;
                assert(!st.table.contains_key(names[j]));
            }
        }
    }
}

// ---- shared acquisition ----

/// A granted shared request keeps the state consistent.
pub proof fn lemma_rlock_preserves(st: LockerState, req: Request, now: nat)
    requires
        st.consistent(),
        st.grants_rlock(req),
    ensures
        st.after_rlock(req, now).consistent(),
{
    let r = req.resources[0];
    let after = st.after_rlock(req, now);
    let before = if st.table.contains_key(r) {
        st.table[r]
    } else {
        Seq::<Holder>::empty()
    };
    let hs = before.push(req.reader(now));
    assert forall|q: Seq<char>| #[trigger] after.table.contains_key(q) implies holders_ok(
        q,
        after.table[q],
    ) by {
        if q == r {
            if st.table.contains_key(r) {
                assert(holders_ok(r, st.table[r]));
            }
            assert forall|i: int| 0 <= i < hs.len() implies !(#[trigger] hs[i]).writer && hs[i].name
                == r by {
                if i < before.len() {
                    assert(hs[i] == before[i]);
                }
            }
        } else {
            assert(st.table.contains_key(q));
        }
    }
    assert forall|k: (Seq<char>, nat)| #[trigger] after.index.contains_key(k) implies after.table.contains_key(
        after.index[k],
    ) && holds(after.table[after.index[k]], k) by {
        if k == (req.uid, 0nat) {
            assert(key_of(hs[before.len() as int]) == k);
        } else {
            assert(st.index.contains_key(k));
            let q = st.index[k];
            if q == r {
                let i = choose|i: int| 0 <= i < before.len() && key_of(#[trigger] before[i]) == k;
                assert(hs[i] == before[i]);
                assert(key_of(hs[i]) == k);
            }
        }
    }
}

// ---- heartbeat ----

/// Before any position is confirmed the state is the old one.
pub proof fn lemma_refresh_start(st: LockerState, uid: Seq<char>, now: nat)
    ensures
        st.refreshed(uid, 0, now) == st,
{
    let a = st.refreshed(uid, 0, now);
    assert forall|r: Seq<char>| st.table.contains_key(r) implies a.table[r] == st.table[r] by {
        assert(a.table[r] =~= st.table[r]);
    }
    assert(a.table =~= st.table);
}

/// Confirming position `k` touches the holders recorded under it on the
/// resource that the position resolves to.
pub proof fn lemma_refresh_step(st: LockerState, uid: Seq<char>, k: nat, now: nat)
    requires
        st.consistent(),
        st.index.contains_key((uid, k)),
    ensures
        st.refreshed(uid, k, now).table.contains_key(st.index[(uid, k)]),
        st.refreshed(uid, k + 1, now).table == st.refreshed(uid, k, now).table.insert(
            st.index[(uid, k)],
            touched(st.refreshed(uid, k, now).table[st.index[(uid, k)]], uid, k, now),
        ),
        st.refreshed(uid, k + 1, now).index == st.index,
{
    let r = st.index[(uid, k)];
    let a = st.refreshed(uid, k, now);
    let b = st.refreshed(uid, k + 1, now);
    assert(st.table.contains_key(r));
    let target = a.table.insert(r, touched(a.table[r], uid, k, now));
    assert forall|q: Seq<char>| st.table.contains_key(q) implies b.table[q] == target[q] by {
        assert(b.table[q] =~= target[q]);
    }
    assert(b.table =~= target);
}

/// A heartbeat keeps the state consistent.
pub proof fn lemma_refresh_preserves(st: LockerState, uid: Seq<char>, n: nat, now: nat)
    requires
        st.consistent(),
    ensures
        st.refreshed(uid, n, now).consistent(),
        st.finite() ==> st.refreshed(uid, n, now).finite(),
{
    let after = st.refreshed(uid, n, now);
    assert forall|r: Seq<char>| #[trigger] after.table.contains_key(r) implies holders_ok(
        r,
        after.table[r],
    ) by {
        assert(st.table.contains_key(r));
        let hs = st.table[r];
        let ts = after.table[r];
        assert forall|i: int| 0 <= i < ts.len() implies (#[trigger] ts[i]).writer == hs[i].writer
            && ts[i].name == hs[i].name by {}
        if write_locked(hs) {
            assert(ts[0].writer == hs[0].writer);
        } else {
            assert forall|i: int| 0 <= i < ts.len() implies !(#[trigger] ts[i]).writer by {
                assert(!hs[i].writer);
            }
        }
        assert forall|i: int| 0 <= i < ts.len() implies (#[trigger] ts[i]).name == r by {
            assert(hs[i].name == r);
        }
    }
    assert forall|k: (Seq<char>, nat)| #[trigger] after.index.contains_key(k) implies after.table.contains_key(
        after.index[k],
    ) && holds(after.table[after.index[k]], k) by {
        assert(st.index.contains_key(k));
        let r = st.index[k];
        let hs = st.table[r];
        let i = choose|i: int| 0 <= i < hs.len() && key_of(#[trigger] hs[i]) == k;
        assert(key_of(after.table[r][i]) == k);
    }
    assert(after.table.dom() =~= st.table.dom());
}

} // verus!
