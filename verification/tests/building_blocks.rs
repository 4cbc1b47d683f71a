use local_locker::holder::{duplicate_all, is_write_lock};
use local_locker::uid_index::UidIndex;
use local_locker::{LockRequesterInfo, LockTable};

fn holder(name: &str, writer: bool, uid: &str, owner: &str, refreshed: u64) -> LockRequesterInfo {
    LockRequesterInfo {
        name: name.to_string(),
        writer,
        uid: uid.to_string(),
        time_stamp: 0,
        time_last_refresh: refreshed,
        source: "".to_string(),
        group: false,
        owner: owner.to_string(),
        quorum: 0,
        idx: 0,
    }
}

#[test]
fn write_lock_is_exactly_one_writer() {
    assert!(!is_write_lock(&[]));
    assert!(is_write_lock(&[holder("a", true, "u", "o", 0)]));
    assert!(!is_write_lock(&[holder("a", false, "u", "o", 0)]));
    assert!(!is_write_lock(&[holder("a", true, "u", "o", 0), holder("a", true, "v", "o", 0)]));
    assert!(!is_write_lock(&[holder("a", false, "u", "o", 0), holder("a", false, "v", "o", 0)]));
}

#[test]
fn release_concerns_uid_and_owner() {
    let h = holder("a", true, "u1", "tenantA", 0);
    let s = |x: &str| x.to_string();
    assert!(h.concerned_by(&s("u1"), &s("tenantA")));
    assert!(h.concerned_by(&s("u1"), &s("")));
    assert!(!h.concerned_by(&s("u1"), &s("tenantB")));
    assert!(!h.concerned_by(&s("u2"), &s("tenantA")));
    assert!(!h.concerned_by(&s("u2"), &s("")));
}

#[test]
fn staleness_is_strictly_more_than_the_limit() {
    let h = holder("a", true, "u1", "o", 100);
    assert!(!h.is_stale(100, 0));
    assert!(!h.is_stale(110, 10));
    assert!(h.is_stale(111, 10));
    assert!(h.is_stale(101, 0));
    assert!(!h.is_stale(50, 0));
    assert!(!h.is_stale(0, 0));
    assert!(h.is_stale(u64::MAX, u64::MAX - 101));
    assert!(!h.is_stale(u64::MAX, u64::MAX - 100));
}

#[test]
fn duplicate_keeps_every_field() {
    let mut h = holder("a", true, "u1", "o", 9);
    h.time_stamp = 4;
    h.source = "src".to_string();
    h.group = true;
    h.quorum = 7;
    h.idx = 2;
    let c = h.duplicate();
    assert_eq!(c.name, "a");
    assert!(c.writer);
    assert_eq!(c.uid, "u1");
    assert_eq!(c.time_stamp, 4);
    assert_eq!(c.time_last_refresh, 9);
    assert_eq!(c.source, "src");
    assert!(c.group);
    assert_eq!(c.owner, "o");
    assert_eq!(c.quorum, 7);
    assert_eq!(c.idx, 2);
    let all = duplicate_all(&vec![h, c]);
    assert_eq!(all.len(), 2);
    assert_eq!(all[1].idx, 2);
}

#[test]
fn table_binds_replaces_and_unbinds() {
    let mut t = LockTable::new();
    let a = "a".to_string();
    let b = "b".to_string();
    assert_eq!(t.len(), 0);
    assert!(t.get(&a).is_none());
    t.insert(a.clone(), vec![holder("a", true, "u1", "o", 0)]);
    t.insert(b.clone(), vec![holder("b", false, "u2", "o", 0)]);
    assert_eq!(t.len(), 2);
    assert_eq!(t.name_at(0), "a");
    assert_eq!(t.holders_at(1)[0].uid, "u2");
    t.insert(a.clone(), vec![holder("a", true, "u3", "o", 0)]);
    assert_eq!(t.len(), 2);
    assert_eq!(t.get(&a).unwrap()[0].uid, "u3");
    let gone = t.remove(&a).unwrap();
    assert_eq!(gone[0].uid, "u3");
    assert!(t.remove(&a).is_none());
    assert!(!t.contains_key(&a));
    assert!(t.contains_key(&b));
    assert_eq!(t.len(), 1);
    let copy = t.duplicate();
    assert_eq!(copy.len(), 1);
    assert_eq!(copy.get(&b).unwrap()[0].uid, "u2");
}

#[test]
fn index_keys_are_pairs() {
    let mut ix = UidIndex::new();
    let s = |x: &str| x.to_string();
    ix.insert(s("u1"), 0, s("a"));
    ix.insert(s("u1"), 1, s("b"));
    ix.insert(s("u"), 10, s("c"));
    assert_eq!(ix.len(), 3);
    assert_eq!(ix.get(&s("u1"), 0).unwrap(), "a");
    assert_eq!(ix.get(&s("u1"), 1).unwrap(), "b");
    assert_eq!(ix.get(&s("u"), 10).unwrap(), "c");
    assert!(ix.get(&s("u"), 1).is_none());
    assert!(ix.get(&s("u11"), 0).is_none());
    ix.insert(s("u1"), 0, s("z"));
    assert_eq!(ix.len(), 3);
    assert_eq!(ix.get(&s("u1"), 0).unwrap(), "z");
    ix.remove(&s("u1"), 0);
    ix.remove(&s("u1"), 0);
    assert!(ix.get(&s("u1"), 0).is_none());
    assert_eq!(ix.get(&s("u1"), 1).unwrap(), "b");
    assert_eq!(ix.len(), 2);
}
