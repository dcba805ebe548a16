use resp_kv::store::Database;
use resp_kv::worker::{plan_wait, WaitPlan, RECLAIM_BUDGET};

fn value_at(db: &Database, key: &str, now: u64) -> Option<Vec<u8>> {
    db.get_at(key, now).map(|e| e.value.clone())
}

#[test]
fn set_then_get() {
    let mut db = Database::new();
    assert_eq!(value_at(&db, "k", 0), None);
    db.set_at("k", b"v", None, 0);
    assert_eq!(value_at(&db, "k", 0), Some(b"v".to_vec()));
    assert_eq!(value_at(&db, "k", u64::MAX), Some(b"v".to_vec()));
    db.set("now", b"x", None);
    assert_eq!(db.get("now").map(|e| e.value.clone()), Some(b"x".to_vec()));
}

#[test]
fn version_counts_writes() {
    let mut db = Database::new();
    db.set_at("k", b"a", None, 0);
    assert_eq!(db.get_at("k", 0).unwrap().version, 1);
    db.set_at("k", b"b", Some(5), 0);
    let e = db.get_at("k", 0).unwrap();
    assert_eq!(e.version, 2);
    assert_eq!(e.expires_at, Some(5000));
    db.set_at("k", b"c", None, 0);
    let e = db.get_at("k", 0).unwrap();
    assert_eq!(e.version, 3);
    assert_eq!(e.expires_at, None);
}

#[test]
fn ttl_expires_lazily() {
    let mut db = Database::new();
    db.set_at("k", b"v", Some(1), 100);
    assert_eq!(value_at(&db, "k", 100), Some(b"v".to_vec()));
    assert_eq!(value_at(&db, "k", 1099), Some(b"v".to_vec()));
    assert_eq!(value_at(&db, "k", 1100), None);
    // still held in the map: a read at an earlier instant sees it
    assert_eq!(value_at(&db, "k", 100), Some(b"v".to_vec()));
}

#[test]
fn expiry_past_the_clock_range_is_dropped() {
    let mut db = Database::new();
    db.set_at("k", b"v", Some(10), u64::MAX - 5);
    assert_eq!(db.get_at("k", u64::MAX).unwrap().expires_at, None);
    assert_eq!(db.time_until_next_expiration_at(0), None);
}

#[test]
fn stale_schedule_does_not_delete_rewritten_key() {
    let mut db = Database::new();
    db.set_at("k", b"v1", Some(100), 0);
    db.set_at("k", b"v2", None, 10);
    db.delete_expired_keys_at(RECLAIM_BUDGET, 200_000);
    assert_eq!(value_at(&db, "k", 200_000), Some(b"v2".to_vec()));
    assert_eq!(db.time_until_next_expiration_at(200_000), None);
}

#[test]
fn stale_schedule_with_new_ttl_keeps_key_until_its_own_expiry() {
    let mut db = Database::new();
    db.set_at("k", b"v1", Some(1), 0);
    db.set_at("k", b"v2", Some(10), 500);
    db.delete_expired_keys_at(RECLAIM_BUDGET, 2000);
    assert_eq!(value_at(&db, "k", 2000), Some(b"v2".to_vec()));
    assert_eq!(db.time_until_next_expiration_at(2000), Some(8500));
    db.delete_expired_keys_at(RECLAIM_BUDGET, 10_500);
    assert_eq!(value_at(&db, "k", 0), None);
}

#[test]
fn reclamation_respects_budget() {
    let mut db = Database::new();
    let keys = ["a", "b", "c", "d", "e"];
    for (i, k) in keys.iter().enumerate() {
        db.set_at(k, b"v", Some(1), i as u64);
    }
    db.delete_expired_keys_at(3, 10_000);
    // the three earliest-due are gone from the map
    for k in &keys[..3] {
        assert_eq!(value_at(&db, k, 0), None);
    }
    // the others are masked by expiry but still held and scheduled
    for k in &keys[3..] {
        assert_eq!(value_at(&db, k, 0), Some(b"v".to_vec()));
        assert_eq!(value_at(&db, k, 10_000), None);
    }
    assert_eq!(db.time_until_next_expiration_at(10_000), Some(0));
    assert_eq!(db.time_until_next_expiration_at(0), Some(1003));
    db.delete_expired_keys_at(3, 10_000);
    assert_eq!(value_at(&db, "e", 0), None);
    assert_eq!(db.time_until_next_expiration_at(10_000), None);
}

#[test]
fn reclamation_stops_at_first_expiry_not_yet_due() {
    let mut db = Database::new();
    db.set_at("soon", b"1", Some(1), 0);
    db.set_at("later", b"2", Some(60), 0);
    db.delete_expired_keys_at(10, 5000);
    assert_eq!(value_at(&db, "soon", 0), None);
    assert_eq!(value_at(&db, "later", 5000), Some(b"2".to_vec()));
    assert_eq!(db.time_until_next_expiration_at(5000), Some(55_000));
    db.delete_expired_keys_at(0, 100_000);
    assert_eq!(value_at(&db, "later", 0), Some(b"2".to_vec()));
}

#[test]
fn delete_removes_key_and_leaves_orphan_expiry() {
    let mut db = Database::new();
    db.set_at("k", b"v", Some(1), 0);
    db.delete("k");
    assert_eq!(value_at(&db, "k", 0), None);
    assert_eq!(db.time_until_next_expiration_at(0), Some(1000));
    db.set_at("k", b"w", None, 10);
    db.delete_expired_keys_at(10, 5000);
    assert_eq!(value_at(&db, "k", 5000), Some(b"w".to_vec()));
}

#[test]
fn time_until_next_expiration_values() {
    let mut db = Database::new();
    assert_eq!(db.time_until_next_expiration_at(0), None);
    assert_eq!(db.time_until_next_expiration(), None);
    db.set_at("k", b"v", Some(5), 0);
    assert_eq!(db.time_until_next_expiration_at(1000), Some(4000));
    assert_eq!(db.time_until_next_expiration_at(9000), Some(0));
    assert!(db.time_until_next_expiration().is_some());
    db.delete_expired_keys(RECLAIM_BUDGET);
}

#[test]
fn wait_plans() {
    assert_eq!(plan_wait(None), WaitPlan::Forever);
    assert_eq!(plan_wait(Some(0)), WaitPlan::ReclaimNow);
    assert_eq!(plan_wait(Some(250)), WaitPlan::Wait(250));
}
