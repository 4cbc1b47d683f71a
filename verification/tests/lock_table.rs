use local_locker::{LocalLocker, LockArgs, LockError, LockStats, MAX_DELETE_LIST};

fn request(uid: &str, resources: &[&str], owner: &str) -> LockArgs {
    LockArgs {
        uid: uid.to_string(),
        resources: resources.iter().map(|r| r.to_string()).collect(),
        owner: owner.to_string(),
        source: "".to_string(),
        quorum: 3,
    }
}

fn counts(st: &LockStats) -> (usize, usize, usize) {
    (st.total, st.writes, st.reads)
}

#[test]
fn test_lock_unlock() {
    let mut local_locker = LocalLocker::new();
    let args = LockArgs {
        uid: "1111".to_string(),
        resources: vec!["dandan".to_string()],
        owner: "dd".to_string(),
        source: "".to_string(),
        quorum: 3,
    };
    let locked = local_locker.lock(&args, 0);
    assert!(matches!(locked, Ok(true)));

    println!("lock local_locker: {local_locker:?} \n");
    assert!(local_locker.holders(&"dandan".to_string()).is_some());

    let unlocked = local_locker.unlock(&args);
    assert!(matches!(unlocked, Ok(true)));
    println!("unlock local_locker: {local_locker:?}");
    assert!(local_locker.holders(&"dandan".to_string()).is_none());
}

#[test]
fn new_table_is_empty() {
    let locker = LocalLocker::new();
    assert_eq!(counts(&locker.stats()), (0, 0, 0));
    assert_eq!(locker.dump_lock_map().len(), 0);
    let other = LocalLocker::default();
    assert_eq!(counts(&other.stats()), (0, 0, 0));
    assert_eq!(counts(&LockStats::default()), (0, 0, 0));
}

#[test]
fn writer_excludes_writer_and_reader() {
    let mut locker = LocalLocker::new();
    assert!(matches!(locker.lock(&request("u1", &["r1"], "a"), 1), Ok(true)));
    assert!(matches!(locker.lock(&request("u2", &["r1"], "a"), 2), Ok(false)));
    assert!(matches!(locker.rlock(&request("u3", &["r1"], "a"), 3), Ok(false)));
    let holders = locker.holders(&"r1".to_string()).unwrap();
    assert_eq!(holders.len(), 1);
    assert!(holders[0].writer);
    assert_eq!(holders[0].uid, "u1");
    assert_eq!(counts(&locker.stats()), (1, 1, 0));
}

#[test]
fn readers_share_and_never_mix_with_a_writer() {
    let mut locker = LocalLocker::new();
    assert!(matches!(locker.rlock(&request("u1", &["r1"], "a"), 1), Ok(true)));
    assert!(matches!(locker.rlock(&request("u2", &["r1"], "b"), 2), Ok(true)));
    assert!(matches!(locker.lock(&request("u3", &["r1"], "a"), 3), Ok(false)));
    let holders = locker.holders(&"r1".to_string()).unwrap();
    assert_eq!(holders.len(), 2);
    assert!(holders.iter().all(|h| !h.writer));
    assert_eq!(holders[0].uid, "u1");
    assert_eq!(holders[1].uid, "u2");
    assert_eq!(counts(&locker.stats()), (1, 0, 1));
}

#[test]
fn batch_with_a_held_resource_grants_nothing() {
    let mut locker = LocalLocker::new();
    assert!(matches!(locker.lock(&request("u0", &["B"], "a"), 1), Ok(true)));
    assert!(matches!(locker.lock(&request("u1", &["A", "B"], "a"), 2), Ok(false)));
    assert!(locker.holders(&"A".to_string()).is_none());
    assert!(locker.resource_of(&"u1".to_string(), 0).is_none());
    assert!(locker.resource_of(&"u1".to_string(), 1).is_none());
    assert_eq!(locker.holders(&"B".to_string()).unwrap()[0].uid, "u0");
    assert_eq!(counts(&locker.stats()), (1, 1, 0));
}

#[test]
fn batch_records_each_position() {
    let mut locker = LocalLocker::new();
    let args = LockArgs {
        uid: "u1".to_string(),
        resources: vec!["a".to_string(), "b".to_string(), "c".to_string()],
        owner: "tenant".to_string(),
        source: "here".to_string(),
        quorum: 5,
    };
    assert!(matches!(locker.lock(&args, 42), Ok(true)));
    for (i, name) in ["a", "b", "c"].iter().enumerate() {
        let holders = locker.holders(&name.to_string()).unwrap();
        assert_eq!(holders.len(), 1);
        let h = &holders[0];
        assert_eq!(h.name, *name);
        assert!(h.writer);
        assert_eq!(h.uid, "u1");
        assert_eq!(h.owner, "tenant");
        assert_eq!(h.source, "here");
        assert!(h.group);
        assert_eq!(h.quorum, 5);
        assert_eq!(h.idx, i);
        assert_eq!(h.time_stamp, 42);
        assert_eq!(h.time_last_refresh, 42);
        assert_eq!(locker.resource_of(&"u1".to_string(), i).unwrap(), name);
    }
    assert!(locker.resource_of(&"u1".to_string(), 3).is_none());
    assert_eq!(counts(&locker.stats()), (3, 3, 0));
}

#[test]
fn single_resource_is_no_group() {
    let mut locker = LocalLocker::new();
    assert!(matches!(locker.lock(&request("u1", &["a"], "o"), 0), Ok(true)));
    assert!(!locker.holders(&"a".to_string()).unwrap()[0].group);
}

#[test]
fn empty_batch_is_granted_and_changes_nothing() {
    let mut locker = LocalLocker::new();
    assert!(matches!(locker.lock(&request("u1", &[], "o"), 0), Ok(true)));
    assert_eq!(counts(&locker.stats()), (0, 0, 0));
    assert!(matches!(locker.unlock(&request("u1", &[], "o")), Ok(false)));
}

#[test]
fn batch_naming_a_resource_twice_is_refused() {
    let mut locker = LocalLocker::new();
    assert!(matches!(locker.lock(&request("u1", &["a", "b", "a"], "o"), 0), Ok(false)));
    assert_eq!(counts(&locker.stats()), (0, 0, 0));
    assert!(locker.resource_of(&"u1".to_string(), 0).is_none());
}

#[test]
fn round_trip_leaves_nothing() {
    let mut locker = LocalLocker::new();
    let args = request("u1", &["r1"], "o");
    assert!(matches!(locker.lock(&args, 7), Ok(true)));
    assert_eq!(locker.resource_of(&"u1".to_string(), 0).unwrap(), "r1");
    assert!(matches!(locker.unlock(&args), Ok(true)));
    assert!(locker.holders(&"r1".to_string()).is_none());
    assert!(locker.resource_of(&"u1".to_string(), 0).is_none());
    assert_eq!(counts(&locker.stats()), (0, 0, 0));
}

#[test]
fn shared_holder_refuses_exclusive() {
    let mut locker = LocalLocker::new();
    assert!(matches!(locker.rlock(&request("u1", &["r1"], "o"), 5), Ok(true)));
    assert!(matches!(locker.lock(&request("u2", &["r1"], "o"), 6), Ok(false)));
    let holders = locker.holders(&"r1".to_string()).unwrap();
    assert_eq!(holders.len(), 1);
    assert!(!holders[0].writer);
    assert_eq!(holders[0].uid, "u1");
    assert_eq!(holders[0].idx, 0);
    assert_eq!(holders[0].time_last_refresh, 5);
    assert_eq!(locker.resource_of(&"u1".to_string(), 0).unwrap(), "r1");
    assert!(locker.resource_of(&"u2".to_string(), 0).is_none());
}

#[test]
fn release_is_scoped_by_owner() {
    let mut locker = LocalLocker::new();
    assert!(matches!(locker.lock(&request("u1", &["r1"], "tenantA"), 0), Ok(true)));
    assert!(matches!(locker.unlock(&request("u1", &["r1"], "tenantB")), Ok(false)));
    assert_eq!(locker.holders(&"r1".to_string()).unwrap().len(), 1);
    assert_eq!(locker.resource_of(&"u1".to_string(), 0).unwrap(), "r1");
    assert!(matches!(locker.unlock(&request("u1", &["r1"], "tenantA")), Ok(true)));
    assert!(locker.holders(&"r1".to_string()).is_none());

    assert!(matches!(locker.lock(&request("u1", &["r1"], "tenantA"), 0), Ok(true)));
    assert!(matches!(locker.unlock(&request("u1", &["r1"], "")), Ok(true)));
    assert!(locker.holders(&"r1".to_string()).is_none());
}

#[test]
fn release_by_another_uid_releases_nothing() {
    let mut locker = LocalLocker::new();
    assert!(matches!(locker.lock(&request("u1", &["r1"], "o"), 0), Ok(true)));
    assert!(matches!(locker.unlock(&request("u2", &["r1"], "o")), Ok(false)));
    assert_eq!(locker.holders(&"r1".to_string()).unwrap()[0].uid, "u1");
}

#[test]
fn release_of_absent_resource_is_passed_over() {
    let mut locker = LocalLocker::new();
    assert!(matches!(locker.lock(&request("u1", &["r1"], "o"), 0), Ok(true)));
    assert!(matches!(locker.unlock(&request("u1", &["nope", "r1", "r1"], "o")), Ok(true)));
    assert_eq!(counts(&locker.stats()), (0, 0, 0));
}

#[test]
fn exclusive_release_reports_read_locked_resources() {
    let mut locker = LocalLocker::new();
    assert!(matches!(locker.rlock(&request("u1", &["r1"], "o"), 0), Ok(true)));
    assert!(matches!(locker.rlock(&request("u1", &["r2"], "o"), 0), Ok(true)));
    assert!(matches!(locker.lock(&request("u1", &["w"], "o"), 0), Ok(true)));
    let res = locker.unlock(&request("u1", &["r1", "w", "gone", "r2"], "o"));
    match res {
        Err(e) => {
            assert_eq!(e.message(), "unlock attempted on a read locked entity: r1, r2");
            match e {
                LockError::ReadLocked { resources, released } => {
                    assert_eq!(resources, vec!["r1".to_string(), "r2".to_string()]);
                    assert!(released);
                }
                other => panic!("unexpected error {other:?}"),
            }
        }
        Ok(b) => panic!("unexpected answer {b}"),
    }
    assert!(locker.holders(&"w".to_string()).is_none());
    assert_eq!(locker.holders(&"r1".to_string()).unwrap().len(), 1);
    assert_eq!(locker.holders(&"r2".to_string()).unwrap().len(), 1);
    assert_eq!(counts(&locker.stats()), (2, 0, 2));

    let res = locker.unlock(&request("u1", &["r1"], "o"));
    match res {
        Err(LockError::ReadLocked { resources, released }) => {
            assert_eq!(resources, vec!["r1".to_string()]);
            assert!(!released);
        }
        other => panic!("unexpected answer {other:?}"),
    }
}

#[test]
fn batch_limit() {
    let mut locker = LocalLocker::new();
    let names: Vec<String> = (0..MAX_DELETE_LIST + 1).map(|i| format!("r{i}")).collect();
    let mut args = request("u1", &[], "o");
    args.resources = names.clone();
    let res = locker.lock(&args, 0);
    assert!(matches!(res, Err(LockError::TooManyResources)));
    assert_eq!(
        res.unwrap_err().message(),
        "internal error: called with more than 1000 resources"
    );
    assert!(matches!(locker.unlock(&args), Err(LockError::TooManyResources)));
    assert_eq!(counts(&locker.stats()), (0, 0, 0));

    args.resources = names[..MAX_DELETE_LIST].to_vec();
    assert_eq!(MAX_DELETE_LIST, 1000);
    assert!(matches!(locker.lock(&args, 0), Ok(true)));
    assert_eq!(counts(&locker.stats()), (1000, 1000, 0));
    assert_eq!(locker.resource_of(&"u1".to_string(), 999).unwrap(), "r999");
    assert!(matches!(locker.refresh(&args, 1), Ok(true)));
    assert!(matches!(locker.unlock(&args), Ok(true)));
    assert_eq!(counts(&locker.stats()), (0, 0, 0));
}

#[test]
fn shared_operations_take_exactly_one_resource() {
    let mut locker = LocalLocker::new();
    let none = request("u1", &[], "o");
    let two = request("u1", &["a", "b"], "o");
    assert!(matches!(locker.rlock(&none, 0), Err(LockError::NotOneResource)));
    assert!(matches!(locker.rlock(&two, 0), Err(LockError::NotOneResource)));
    assert!(matches!(locker.runlock(&none), Err(LockError::NotOneResource)));
    let res = locker.runlock(&two);
    assert!(matches!(res, Err(LockError::NotOneResource)));
    assert_eq!(
        res.unwrap_err().message(),
        "internal error: called with more than one resource"
    );
    assert_eq!(counts(&locker.stats()), (0, 0, 0));
}

#[test]
fn shared_release() {
    let mut locker = LocalLocker::new();
    assert!(matches!(locker.runlock(&request("u1", &["r1"], "o")), Ok(false)));
    assert!(matches!(locker.rlock(&request("u1", &["r1"], "a"), 0), Ok(true)));
    assert!(matches!(locker.rlock(&request("u2", &["r1"], "b"), 0), Ok(true)));
    assert!(matches!(locker.runlock(&request("u1", &["r1"], "b")), Ok(false)));
    assert_eq!(locker.holders(&"r1".to_string()).unwrap().len(), 2);
    assert!(matches!(locker.runlock(&request("u1", &["r1"], "a")), Ok(true)));
    let holders = locker.holders(&"r1".to_string()).unwrap();
    assert_eq!(holders.len(), 1);
    assert_eq!(holders[0].uid, "u2");
    assert!(locker.resource_of(&"u1".to_string(), 0).is_none());
    assert_eq!(locker.resource_of(&"u2".to_string(), 0).unwrap(), "r1");
    assert!(matches!(locker.runlock(&request("u2", &["r1"], "")), Ok(true)));
    assert!(locker.holders(&"r1".to_string()).is_none());
    assert_eq!(counts(&locker.stats()), (0, 0, 0));
}

#[test]
fn shared_release_of_all_readers_of_one_uid() {
    let mut locker = LocalLocker::new();
    assert!(matches!(locker.rlock(&request("u1", &["r1"], "a"), 0), Ok(true)));
    assert!(matches!(locker.rlock(&request("u1", &["r1"], "a"), 1), Ok(true)));
    assert_eq!(locker.holders(&"r1".to_string()).unwrap().len(), 2);
    assert!(matches!(locker.runlock(&request("u1", &["r1"], "a")), Ok(true)));
    assert!(locker.holders(&"r1".to_string()).is_none());
    assert!(locker.resource_of(&"u1".to_string(), 0).is_none());
}

#[test]
fn shared_release_on_write_locked_resource_is_an_error() {
    let mut locker = LocalLocker::new();
    assert!(matches!(locker.lock(&request("u1", &["r1"], "o"), 0), Ok(true)));
    let res = locker.runlock(&request("u1", &["r1"], "o"));
    match res {
        Err(e) => {
            assert_eq!(e.message(), "runlock attempted on a write locked entity: r1");
            assert!(matches!(e, LockError::WriteLocked { resource } if resource == "r1"));
        }
        Ok(b) => panic!("unexpected answer {b}"),
    }
    assert_eq!(locker.holders(&"r1".to_string()).unwrap().len(), 1);
    assert_eq!(locker.resource_of(&"u1".to_string(), 0).unwrap(), "r1");
}

#[test]
fn heartbeat_of_unknown_uid_is_false() {
    let mut locker = LocalLocker::new();
    assert!(matches!(locker.refresh(&request("u1", &[], ""), 5), Ok(false)));
    assert!(matches!(locker.lock(&request("u2", &["a"], "o"), 0), Ok(true)));
    assert!(matches!(locker.refresh(&request("u1", &["a"], "o"), 5), Ok(false)));
    assert_eq!(locker.holders(&"a".to_string()).unwrap()[0].time_last_refresh, 0);
}

#[test]
fn heartbeat_extends_the_batch() {
    let mut locker = LocalLocker::new();
    assert!(matches!(locker.lock(&request("u1", &["a", "b"], "o"), 10), Ok(true)));
    assert!(matches!(locker.lock(&request("u2", &["c"], "o"), 10), Ok(true)));
    assert!(matches!(locker.refresh(&request("u1", &[], ""), 50), Ok(true)));
    for name in ["a", "b"] {
        let h = &locker.holders(&name.to_string()).unwrap()[0];
        assert_eq!(h.time_stamp, 10);
        assert_eq!(h.time_last_refresh, 50);
    }
    assert_eq!(locker.holders(&"c".to_string()).unwrap()[0].time_last_refresh, 10);

    locker.expire_old_locks(55, 20);
    assert!(locker.holders(&"a".to_string()).is_some());
    assert!(locker.holders(&"b".to_string()).is_some());
    assert!(locker.holders(&"c".to_string()).is_none());
    assert!(locker.resource_of(&"u2".to_string(), 0).is_none());
}

#[test]
fn heartbeat_touches_only_the_readers_of_the_uid() {
    let mut locker = LocalLocker::new();
    assert!(matches!(locker.rlock(&request("u1", &["r"], "o"), 1), Ok(true)));
    assert!(matches!(locker.rlock(&request("u2", &["r"], "o"), 2), Ok(true)));
    assert!(matches!(locker.refresh(&request("u2", &[], ""), 9), Ok(true)));
    let holders = locker.holders(&"r".to_string()).unwrap();
    assert_eq!(holders[0].time_last_refresh, 1);
    assert_eq!(holders[1].time_last_refresh, 9);
}

#[test]
fn uid_and_position_do_not_run_together() {
    let mut locker = LocalLocker::new();
    let names: Vec<String> = (0..12).map(|i| format!("r{i}")).collect();
    let mut args = request("a", &[], "o");
    args.resources = names;
    assert!(matches!(locker.lock(&args, 0), Ok(true)));
    assert_eq!(locker.resource_of(&"a".to_string(), 11).unwrap(), "r11");
    assert!(locker.resource_of(&"a1".to_string(), 1).is_none());
    assert!(locker.resource_of(&"a1".to_string(), 0).is_none());
    assert!(matches!(locker.refresh(&request("a1", &[], ""), 1), Ok(false)));
    assert!(matches!(locker.force_unlock(&request("a1", &[], "")), Ok(false)));
    assert_eq!(counts(&locker.stats()), (12, 12, 0));
}

#[test]
fn expiry_removes_only_stale_holders() {
    let mut locker = LocalLocker::new();
    assert!(matches!(locker.lock(&request("old", &["a"], "o"), 100), Ok(true)));
    assert!(matches!(locker.lock(&request("new", &["b"], "o"), 150), Ok(true)));
    assert!(matches!(locker.rlock(&request("r-old", &["c"], "o"), 100), Ok(true)));
    assert!(matches!(locker.rlock(&request("r-new", &["c"], "o"), 150), Ok(true)));

    // at 160 with a time-to-live of 60 nothing is older than the limit
    locker.expire_old_locks(160, 60);
    assert_eq!(counts(&locker.stats()), (3, 2, 1));

    // at 161 the holders refreshed at 100 are 61 ticks old
    locker.expire_old_locks(161, 60);
    assert!(locker.holders(&"a".to_string()).is_none());
    assert!(locker.resource_of(&"old".to_string(), 0).is_none());
    assert_eq!(locker.holders(&"b".to_string()).unwrap()[0].uid, "new");
    let readers = locker.holders(&"c".to_string()).unwrap();
    assert_eq!(readers.len(), 1);
    assert_eq!(readers[0].uid, "r-new");
    assert!(locker.resource_of(&"r-old".to_string(), 0).is_none());
    assert_eq!(locker.resource_of(&"r-new".to_string(), 0).unwrap(), "c");
    assert_eq!(counts(&locker.stats()), (2, 1, 1));

    // a clock that reads earlier than the refresh expires nothing
    locker.expire_old_locks(0, 0);
    assert_eq!(counts(&locker.stats()), (2, 1, 1));

    locker.expire_old_locks(u64::MAX, 0);
    assert_eq!(counts(&locker.stats()), (0, 0, 0));
    assert_eq!(locker.dump_lock_map().len(), 0);
}

#[test]
fn expired_resource_can_be_taken_again() {
    let mut locker = LocalLocker::new();
    assert!(matches!(locker.lock(&request("u1", &["a"], "o"), 0), Ok(true)));
    locker.expire_old_locks(10, 5);
    assert!(matches!(locker.lock(&request("u2", &["a"], "o"), 10), Ok(true)));
    assert_eq!(locker.holders(&"a".to_string()).unwrap()[0].uid, "u2");
}

#[test]
fn force_unlock_of_unlocked_resources_changes_nothing() {
    let mut locker = LocalLocker::new();
    assert!(matches!(locker.lock(&request("u1", &["keep"], "o"), 0), Ok(true)));
    assert!(matches!(locker.force_unlock(&request("", &["a", "b"], "")), Ok(true)));
    assert!(matches!(locker.force_unlock(&request("", &["a", "b"], "")), Ok(true)));
    assert!(matches!(locker.force_unlock(&request("", &[], "")), Ok(true)));
    assert_eq!(counts(&locker.stats()), (1, 1, 0));
    assert_eq!(locker.resource_of(&"u1".to_string(), 0).unwrap(), "keep");
}

#[test]
fn force_unlock_by_name_removes_every_holder() {
    let mut locker = LocalLocker::new();
    assert!(matches!(locker.lock(&request("u1", &["w"], "a"), 0), Ok(true)));
    assert!(matches!(locker.rlock(&request("u2", &["r"], "a"), 0), Ok(true)));
    assert!(matches!(locker.rlock(&request("u3", &["r"], "b"), 0), Ok(true)));
    assert!(matches!(locker.lock(&request("u4", &["other"], "a"), 0), Ok(true)));
    assert!(matches!(locker.force_unlock(&request("", &["w", "r"], "ignored")), Ok(true)));
    assert!(locker.holders(&"w".to_string()).is_none());
    assert!(locker.holders(&"r".to_string()).is_none());
    for uid in ["u1", "u2", "u3"] {
        assert!(locker.resource_of(&uid.to_string(), 0).is_none());
    }
    assert_eq!(locker.resource_of(&"u4".to_string(), 0).unwrap(), "other");
    assert_eq!(counts(&locker.stats()), (1, 1, 0));
    assert!(matches!(locker.force_unlock(&request("", &["w", "r"], "")), Ok(true)));
    assert_eq!(counts(&locker.stats()), (1, 1, 0));
}

#[test]
fn force_unlock_by_uid_follows_the_chain() {
    let mut locker = LocalLocker::new();
    assert!(matches!(locker.lock(&request("u1", &["a", "b", "c"], "o"), 0), Ok(true)));
    assert!(matches!(locker.lock(&request("u2", &["d"], "o"), 0), Ok(true)));
    assert!(matches!(locker.force_unlock(&request("u1", &["d"], "")), Ok(true)));
    for name in ["a", "b", "c"] {
        assert!(locker.holders(&name.to_string()).is_none());
    }
    for i in 0..3 {
        assert!(locker.resource_of(&"u1".to_string(), i).is_none());
    }
    assert_eq!(locker.holders(&"d".to_string()).unwrap()[0].uid, "u2");
    assert!(matches!(locker.force_unlock(&request("u1", &[], "")), Ok(false)));
    assert_eq!(counts(&locker.stats()), (1, 1, 0));
}

#[test]
fn force_unlock_by_uid_respects_the_owner() {
    let mut locker = LocalLocker::new();
    assert!(matches!(locker.lock(&request("u1", &["a"], "tenantA"), 0), Ok(true)));
    assert!(matches!(locker.force_unlock(&request("u1", &[], "tenantB")), Ok(true)));
    assert_eq!(locker.holders(&"a".to_string()).unwrap().len(), 1);
    assert_eq!(locker.resource_of(&"u1".to_string(), 0).unwrap(), "a");
    assert!(matches!(locker.force_unlock(&request("u1", &[], "tenantA")), Ok(true)));
    assert!(locker.holders(&"a".to_string()).is_none());
    assert!(locker.resource_of(&"u1".to_string(), 0).is_none());
}

#[test]
fn chain_stops_at_the_first_gap() {
    let mut locker = LocalLocker::new();
    assert!(matches!(locker.lock(&request("u1", &["a", "b", "c"], "o"), 0), Ok(true)));
    // position 1 is released on its own: the probe now ends after position 0
    assert!(matches!(locker.unlock(&request("u1", &["b"], "o")), Ok(true)));
    assert!(locker.resource_of(&"u1".to_string(), 1).is_none());
    assert!(matches!(locker.refresh(&request("u1", &[], ""), 9), Ok(true)));
    assert_eq!(locker.holders(&"a".to_string()).unwrap()[0].time_last_refresh, 9);
    assert_eq!(locker.holders(&"c".to_string()).unwrap()[0].time_last_refresh, 0);
    assert!(matches!(locker.force_unlock(&request("u1", &[], "")), Ok(true)));
    assert!(locker.holders(&"a".to_string()).is_none());
    assert_eq!(locker.holders(&"c".to_string()).unwrap()[0].uid, "u1");
    assert_eq!(locker.resource_of(&"u1".to_string(), 2).unwrap(), "c");
}

#[test]
fn stats_count_by_first_holder() {
    let mut locker = LocalLocker::new();
    assert!(matches!(locker.lock(&request("u1", &["w1", "w2"], "o"), 0), Ok(true)));
    assert!(matches!(locker.rlock(&request("u2", &["r1"], "o"), 0), Ok(true)));
    assert!(matches!(locker.rlock(&request("u3", &["r1"], "o"), 0), Ok(true)));
    assert!(matches!(locker.rlock(&request("u4", &["r2"], "o"), 0), Ok(true)));
    assert!(matches!(locker.rlock(&request("u5", &["r3"], "o"), 0), Ok(true)));
    assert_eq!(counts(&locker.stats()), (5, 2, 3));
}

#[test]
fn dump_is_an_independent_copy() {
    let mut locker = LocalLocker::new();
    assert!(matches!(locker.lock(&request("u1", &["a"], "o"), 3), Ok(true)));
    assert!(matches!(locker.rlock(&request("u2", &["b"], "o"), 4), Ok(true)));
    let mut copy = locker.dump_lock_map();
    assert_eq!(copy.len(), 2);
    assert!(copy.contains_key(&"a".to_string()));
    assert_eq!(copy.get(&"b".to_string()).unwrap()[0].uid, "u2");

    assert!(matches!(locker.unlock(&request("u1", &["a"], "o")), Ok(true)));
    assert!(copy.contains_key(&"a".to_string()));
    assert_eq!(copy.get(&"a".to_string()).unwrap()[0].time_stamp, 3);

    assert!(copy.remove(&"b".to_string()).is_some());
    assert_eq!(copy.len(), 1);
    assert_eq!(locker.holders(&"b".to_string()).unwrap().len(), 1);
}

#[test]
fn can_take_lock_sees_every_name() {
    let mut locker = LocalLocker::new();
    assert!(matches!(locker.rlock(&request("u1", &["b"], "o"), 0), Ok(true)));
    let free = vec!["a".to_string(), "c".to_string()];
    let held = vec!["a".to_string(), "b".to_string()];
    assert!(locker.can_take_lock(&free));
    assert!(!locker.can_take_lock(&held));
    assert!(locker.can_take_lock(&[]));
}

#[test]
fn node_reports_itself_online_and_local() {
    let locker = LocalLocker::new();
    assert!(locker.is_online());
    assert!(locker.is_local());
}
