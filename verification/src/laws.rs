//! What holds of the lock table whatever its callers do.

use vstd::prelude::*;
use crate::args::Request;
use crate::holder::{stale, write_locked, Holder};
use crate::local_locker::LocalLocker;
use crate::model::{all_readers, distinct_holders, holders_ok, holds, key_of,
    lemma_drop_preserves, lemma_index_of, lemma_lock_preserves, lemma_refresh_preserves,
    lemma_rlock_preserves, lemma_survivors, lemma_survivors_all, lemma_survivors_distinct,
    survivors, LockerState, Rule};

verus! {

/// Mutual exclusion: a resource is absent from the table, or held by exactly
/// one writer, or held by readers only; never by a writer and a reader, nor
/// by two writers.
pub proof fn law_mutual_exclusion(st: LockerState, r: Seq<char>)
    requires
        st.consistent(),
    ensures
        !st.table.contains_key(r) || write_locked(st.table[r]) || all_readers(st.table[r]),
        st.table.contains_key(r) ==> !(write_locked(st.table[r]) && all_readers(st.table[r])),
        st.table.contains_key(r) ==> forall|i: int, j: int|
            0 <= i < j < st.table[r].len() ==> !(#[trigger] st.table[r][i]).writer && !(
            #[trigger] st.table[r][j]).writer,
        st.table.contains_key(r) ==> st.table[r].len() > 0,
{
    if st.table.contains_key(r) {
        let hs = st.table[r];
        assert(holders_ok(r, hs));
    }
}

/// Mutual exclusion holds of every table that the operations can produce.
pub proof fn law_mutual_exclusion_of_table(locker: &LocalLocker, r: Seq<char>)
    requires
        locker.wf(),
    ensures
        !locker@.table.contains_key(r) || write_locked(locker@.table[r]) || all_readers(
            locker@.table[r],
        ),
        locker@.table.contains_key(r) ==> !(write_locked(locker@.table[r]) && all_readers(
            locker@.table[r],
        )),
{
    locker.lemma_wf();
    law_mutual_exclusion(locker@, r);
}

/// The reverse index never points at a resource that no longer holds the
/// holder: each of its keys names a resource of the table on which a holder
/// is recorded under that uid and batch position.
pub proof fn law_reverse_index_resolves(locker: &LocalLocker, uid: Seq<char>, idx: nat)
    requires
        locker.wf(),
        locker@.index.contains_key((uid, idx)),
    ensures
        locker@.table.contains_key(locker@.index[(uid, idx)]),
        holds(locker@.table[locker@.index[(uid, idx)]], (uid, idx)),
{
    locker.lemma_wf();
}

/// Every operation takes a consistent state to a consistent state.
pub proof fn law_consistency_preserved(st: LockerState, req: Request, now: nat, ttl: nat)
    requires
        st.consistent(),
    ensures
        st.grants_lock(req) ==> st.after_lock(req, now).consistent(),
        st.grants_rlock(req) ==> st.after_rlock(req, now).consistent(),
        st.after_unlock(req).consistent(),
        st.after_runlock(req).consistent(),
        st.after_refresh(req.uid, now).consistent(),
        st.after_force_unlock_all(req.resources).consistent(),
        st.after_force_unlock_uid(req).consistent(),
        st.after_expire(now, ttl).consistent(),
{
    if st.grants_lock(req) {
        lemma_lock_preserves(st, req, now);
    }
    if st.grants_rlock(req) {
        lemma_rlock_preserves(st, req, now);
    }
    lemma_drop_preserves(st, st.write_locked_among(req.resources), req.release());
    lemma_drop_preserves(st, set![req.resources[0]], req.release());
    lemma_refresh_preserves(st, req.uid, st.chain_len(req.uid), now);
    lemma_drop_preserves(st, req.resources.to_set(), Rule::Every);
    lemma_drop_preserves(
        st,
        st.chain_resources(req.uid, st.chain_len(req.uid)),
        req.release(),
    );
    lemma_drop_preserves(st, st.table.dom(), Rule::Stale { now, ttl });
}

/// All or nothing: one held resource in the batch refuses the whole batch.
pub proof fn law_lock_all_or_nothing(st: LockerState, req: Request, j: int)
    requires
        0 <= j < req.resources.len(),
        st.table.contains_key(req.resources[j]),
    ensures
        !st.grants_lock(req),
{
}

/// A reader on a resource refuses every exclusive request that names it.
pub proof fn law_shared_excludes_exclusive(
    st: LockerState,
    shared: Request,
    exclusive: Request,
    now: nat,
)
    requires
        exclusive.resources.contains(shared.resources[0]),
    ensures
        !st.after_rlock(shared, now).grants_lock(exclusive),
{
    let r = shared.resources[0];
    let j = choose|j: int| 0 <= j < exclusive.resources.len() && exclusive.resources[j] == r;
    assert(st.after_rlock(shared, now).table.contains_key(exclusive.resources[j]));
}

/// Round trip: an exclusive release with the request that acquired gives the
/// table back as it was, and leaves none of the request's keys in the
/// reverse index.
pub proof fn law_lock_unlock_round_trip(st: LockerState, req: Request, now: nat)
    requires
        st.consistent(),
        st.grants_lock(req),
    ensures
        st.after_lock(req, now).after_unlock(req).table == st.table,
        forall|i: int|
            0 <= i < req.resources.len() ==> !st.after_lock(req, now).after_unlock(
                req,
            ).table.contains_key(#[trigger] req.resources[i]),
        forall|i: nat|
            i < req.resources.len() ==> !(#[trigger] st.after_lock(req, now).after_unlock(
                req,
            ).index.contains_key((req.uid, i))),
        st.after_lock(req, now).unlock_releases(req) <==> req.resources.len() > 0,
{
    let names = req.resources;
    let n = names.len() as int;
    let held = st.after_lock(req, now);
    let rule = req.release();
    let rs = held.write_locked_among(names);
    let back = held.after_unlock(req);
    assert(names.take(n) =~= names);
    assert forall|j: int| 0 <= j < n implies rs.contains(#[trigger] names[j]) && held.table[names[j]]
        == seq![req.writer_at(j, now)] && survivors(held.table[names[j]], rule).len() == 0 by {
        lemma_index_of(names, j);
        let hs = held.table[names[j]];
        lemma_survivors(hs, rule);
        let sv = survivors(hs, rule);
        if sv.len() > 0 {
            let i = choose|i: int| 0 <= i < hs.len() && hs[i] == sv[0];
            assert(rule.dooms(hs[0]));
        }
    }
    assert forall|r: Seq<char>| back.table.contains_key(r) <==> st.table.contains_key(r) by {
        if names.contains(r) {
            let j = choose|j: int| 0 <= j < names.len() && names[j] == r;
            assert(rs.contains(names[j]));
            assert(!st.table.contains_key(names[j]));
        }
    }
    assert(back.table =~= st.table);
    assert forall|i: int| 0 <= i < n implies !back.table.contains_key(#[trigger] names[i]) by {
        assert(!st.table.contains_key(names[i]));
    }
    assert forall|i: nat| i < n implies !(#[trigger] back.index.contains_key((req.uid, i))) by {
        let j = i as int;
        assert(rs.contains(names[j]));
        assert(rule.dooms(held.table[names[j]][0]));
        assert(held.dooms_at(rs, rule, names[j], 0));
        assert(key_of(held.table[names[j]][0]) == (req.uid, i));
        assert(held.doomed_keys(rs, rule).contains((req.uid, i)));
    }
    if n > 0 {
        assert(rs.contains(names[0]));
        assert(rule.dooms(held.table[names[0]][0]));
        assert(held.dooms_at(rs, rule, names[0], 0));
    }
    if held.hits(rs, rule) {
        let (r, i) = choose|r: Seq<char>, i: int| held.dooms_at(rs, rule, r, i);
        assert(names.contains(r));
    }
}

/// Owner-scoped release: a release that names another owner than the
/// writer's leaves the resource as it is; one that names the writer's owner,
/// or none, lets it go.
pub proof fn law_owner_scoped_release(st: LockerState, req: Request, j: int)
    requires
        st.consistent(),
        0 <= j < req.resources.len(),
        st.table.contains_key(req.resources[j]),
        write_locked(st.table[req.resources[j]]),
        st.table[req.resources[j]][0].uid == req.uid,
    ensures
        req.owner.len() > 0 && st.table[req.resources[j]][0].owner != req.owner ==> {
            &&& st.after_unlock(req).table.contains_key(req.resources[j])
            &&& st.after_unlock(req).table[req.resources[j]] == st.table[req.resources[j]]
        },
        req.owner.len() == 0 || st.table[req.resources[j]][0].owner == req.owner
            ==> !st.after_unlock(req).table.contains_key(req.resources[j]),
{
    let r = req.resources[j];
    let hs = st.table[r];
    let rule = req.release();
    assert(st.write_locked_among(req.resources).contains(r));
    lemma_survivors(hs, rule);
    let sv = survivors(hs, rule);
    if rule.dooms(hs[0]) {
        if sv.len() > 0 {
            let i = choose|i: int| 0 <= i < hs.len() && hs[i] == sv[0];
        }
    } else {
        lemma_survivors_all(hs, rule);
    }
}

/// Expiry: after the sweep a resource has exactly those of its old holders
/// that were refreshed within the time-to-live; the others are gone.
pub proof fn law_expiry(st: LockerState, now: nat, ttl: nat, r: Seq<char>, h: Holder)
    ensures
        (st.after_expire(now, ttl).table.contains_key(r) && st.after_expire(
            now,
            ttl,
        ).table[r].contains(h)) <==> (st.table.contains_key(r) && st.table[r].contains(h)
            && !stale(h, now, ttl)),
{
    let rule = Rule::Stale { now, ttl };
    let after = st.after_expire(now, ttl);
    if st.table.contains_key(r) {
        let hs = st.table[r];
        lemma_survivors(hs, rule);
        let sv = survivors(hs, rule);
        if after.table.contains_key(r) && after.table[r].contains(h) {
            let j = choose|j: int| 0 <= j < sv.len() && sv[j] == h;
            assert(!rule.dooms(sv[j]) && hs.contains(sv[j]));
        }
        if hs.contains(h) && !stale(h, now, ttl) {
            let i = choose|i: int| 0 <= i < hs.len() && hs[i] == h;
            assert(sv.contains(hs[i]));
            let j = choose|j: int| 0 <= j < sv.len() && sv[j] == hs[i];
        }
    }
}

/// Forced release of resources that nobody holds changes nothing.
pub proof fn law_force_unlock_of_unlocked(st: LockerState, names: Seq<Seq<char>>)
    requires
        st.can_take(names),
    ensures
        st.after_force_unlock_all(names) == st,
{
    let rs = names.to_set();
    let after = st.after_force_unlock_all(names);
    assert forall|r: Seq<char>| rs.contains(r) implies !st.table.contains_key(r) by {
        let j = choose|j: int| 0 <= j < names.len() && names[j] == r;
        assert(!st.table.contains_key(names[j]));
    }
    assert(after.table =~= st.table);
    assert forall|k: (Seq<char>, nat)| !st.doomed_keys(rs, Rule::Every).contains(k) by {
        if st.doomed_keys(rs, Rule::Every).contains(k) {
            let (r, i) = choose|r: Seq<char>, i: int| #[trigger]
                st.dooms_at(rs, Rule::Every, r, i) && key_of(st.table[r][i]) == k;
        }
    }
    assert(after.index =~= st.index);
}

/// Forced release is idempotent: a second one of the same resources changes nothing.
pub proof fn law_force_unlock_idempotent(st: LockerState, names: Seq<Seq<char>>)
    ensures
        st.after_force_unlock_all(names).after_force_unlock_all(names) == st.after_force_unlock_all(
            names,
        ),
{
    let once = st.after_force_unlock_all(names);
    assert forall|i: int| 0 <= i < names.len() implies !once.table.contains_key(
        #[trigger] names[i],
    ) by {
        let r = names[i];
        assert(names.to_set().contains(r));
        if st.table.contains_key(r) {
            let hs = st.table[r];
            lemma_survivors(hs, Rule::Every);
            let sv = survivors(hs, Rule::Every);
            if sv.len() > 0 {
                assert(!Rule::Every.dooms(sv[0]));
            }
        }
    }
    law_force_unlock_of_unlocked(once, names);
}

/// Removing holders keeps the reverse index exact: what it loses are the keys
/// of the holders that left, and each of those keys belonged to one holder only.
pub proof fn law_index_exact_after_removal(st: LockerState, rs: Set<Seq<char>>, rule: Rule)
    requires
        st.indexed(),
    ensures
        st.drop_holders(rs, rule).indexed(),
{
    let after = st.drop_holders(rs, rule);
    let gone = st.doomed_keys(rs, rule);
    assert forall|r: Seq<char>, i: int|
        #![trigger after.table[r][i]]
        after.table.contains_key(r) && 0 <= i < after.table[r].len() implies after.index.contains_key(
        key_of(after.table[r][i]),
    ) && after.index[key_of(after.table[r][i])] == r by {
        let h = after.table[r][i];
        let hs = st.table[r];
        lemma_survivors(hs, rule);
        let a = if rs.contains(r) {
            choose|a: int| 0 <= a < hs.len() && hs[a] == h
        } else {
            i
        };
        assert(hs[a] == h);
        assert(key_of(st.table[r][a]) == key_of(h));
        if gone.contains(key_of(h)) {
            let (q, b) = choose|q: Seq<char>, b: int| #[trigger]
                st.dooms_at(rs, rule, q, b) && key_of(st.table[q][b]) == key_of(h);
            assert(st.index[key_of(st.table[q][b])] == q);
            assert(q == r);
            assert(distinct_holders(hs));
            if a < b {
                assert(key_of(hs[a]) != key_of(hs[b]));
            } else if b < a {
                assert(key_of(hs[b]) != key_of(hs[a]));
            }
        }
    }
    assert forall|r: Seq<char>| #[trigger] after.table.contains_key(r) implies distinct_holders(
        after.table[r],
    ) by {
        assert(st.table.contains_key(r));
        lemma_survivors_distinct(st.table[r], rule);
    }
}

/// An acquisition under a uid that no holder in the table bears keeps the
/// reverse index exact, and so does a heartbeat.
pub proof fn law_index_exact_after_acquisition(st: LockerState, req: Request, now: nat)
    requires
        st.consistent(),
        st.indexed(),
    ensures
        st.grants_lock(req) && !st.knows(req.uid) ==> st.after_lock(req, now).indexed(),
        st.grants_rlock(req) && !st.knows(req.uid) ==> st.after_rlock(req, now).indexed(),
        st.after_refresh(req.uid, now).indexed(),
{
    let names = req.resources;
    let n = names.len() as int;
    if st.grants_lock(req) && !st.knows(req.uid) {
        let after = st.after_lock(req, now);
        assert(names.take(n) =~= names);
        assert forall|r: Seq<char>, i: int|
            #![trigger after.table[r][i]]
            after.table.contains_key(r) && 0 <= i < after.table[r].len() implies after.index.contains_key(
            key_of(after.table[r][i]),
        ) && after.index[key_of(after.table[r][i])] == r by {
            if names.contains(r) {
                let j = choose|j: int| 0 <= j < names.len() && names[j] == r;
                lemma_index_of(names, j);
            } else {
                let h = st.table[r][i];
                assert(h.uid != req.uid);
            }
        }
        assert forall|r: Seq<char>| #[trigger] after.table.contains_key(r) implies distinct_holders(
            after.table[r],
        ) by {
            if !names.contains(r) {
                assert(st.table.contains_key(r));
            }
        }
    }
    if st.grants_rlock(req) && !st.knows(req.uid) {
        let after = st.after_rlock(req, now);
        let r0 = names[0];
        let before = if st.table.contains_key(r0) {
            st.table[r0]
        } else {
            Seq::<Holder>::empty()
        };
        let hs = before.push(req.reader(now));
        assert forall|r: Seq<char>, i: int|
            #![trigger after.table[r][i]]
            after.table.contains_key(r) && 0 <= i < after.table[r].len() implies after.index.contains_key(
            key_of(after.table[r][i]),
        ) && after.index[key_of(after.table[r][i])] == r by {
            if r == r0 {
                if i < before.len() {
                    assert(hs[i] == st.table[r][i]);
                    assert(st.table[r][i].uid != req.uid);
                }
            } else {
                assert(st.table[r][i].uid != req.uid);
            }
        }
        assert forall|r: Seq<char>| #[trigger] after.table.contains_key(r) implies distinct_holders(
            after.table[r],
        ) by {
            if r == r0 {
                if st.table.contains_key(r0) {
                    assert(distinct_holders(before));
                }
                assert forall|i: int, j: int| 0 <= i < j < hs.len() implies key_of(
                    #[trigger] hs[i],
                ) != key_of(#[trigger] hs[j]) by {
                    assert(hs[i] == before[i]);
                    if j < before.len() {
                        assert(hs[j] == before[j]);
                    } else {
                        assert(st.table[r0][i].uid != req.uid);
                    }
                }
            } else {
                assert(st.table.contains_key(r));
            }
        }
    }
    let after = st.after_refresh(req.uid, now);
    assert forall|r: Seq<char>, i: int|
        #![trigger after.table[r][i]]
        after.table.contains_key(r) && 0 <= i < after.table[r].len() implies after.index.contains_key(
        key_of(after.table[r][i]),
    ) && after.index[key_of(after.table[r][i])] == r by {
        assert(key_of(after.table[r][i]) == key_of(st.table[r][i]));
    }
    assert forall|r: Seq<char>| #[trigger] after.table.contains_key(r) implies distinct_holders(
        after.table[r],
    ) by {
        assert(st.table.contains_key(r));
        let hs = st.table[r];
        let ts = after.table[r];
        assert(distinct_holders(hs));
        assert forall|i: int, j: int| 0 <= i < j < ts.len() implies key_of(#[trigger] ts[i])
            != key_of(#[trigger] ts[j]) by {
            assert(key_of(ts[i]) == key_of(hs[i]));
            assert(key_of(ts[j]) == key_of(hs[j]));
        }
    }
}

} // verus!
