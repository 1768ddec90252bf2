use rscache::database::{Data, Database, DEFAULT_TTL_SECS};

#[test]
fn ttl_window_bounds() {
    // A key inserted at t0 = 100 with ttl 2 answers inside [100, 102)
    // and is gone from 102 on.
    let mut db = Database::new();
    db.insert_key(b"foo".to_vec(), 2, 100);
    db.insert_key_value(b"foo".to_vec(), b"bar".to_vec(), 100);
    let hit = db.get_or_remove(b"foo", 100).expect("alive at t0");
    assert_eq!(hit.inner, Some(b"bar".to_vec()));
    let hit = db.get_or_remove(b"foo", 101).expect("alive at t0 + 1");
    assert_eq!(hit.inner, Some(b"bar".to_vec()));
    assert!(db.get_or_remove(b"foo", 102).is_none());
    // The expired read evicted the entry; it stays gone.
    assert!(db.get_or_remove(b"foo", 101).is_none());
}

#[test]
fn first_write_wins() {
    let mut db = Database::new();
    db.insert_key(b"k".to_vec(), 100, 10);
    db.insert_key_value(b"k".to_vec(), b"first".to_vec(), 11);
    db.insert_key_value(b"k".to_vec(), b"second".to_vec(), 12);
    db.insert_key_value(b"k".to_vec(), b"third".to_vec(), 13);
    let hit = db.get_or_remove(b"k", 14).expect("still alive");
    assert_eq!(hit.inner, Some(b"first".to_vec()));
}

#[test]
fn get_on_never_set_key_is_absent() {
    let mut db = Database::new();
    assert!(db.get_or_remove(b"ghost", 0).is_none());
}

#[test]
fn get_on_key_without_value_is_empty() {
    let mut db = Database::new();
    db.insert_key(b"pending".to_vec(), 60, 5);
    let hit = db.get_or_remove(b"pending", 6).expect("entry exists");
    assert_eq!(hit.inner, None);
}

#[test]
fn insert_key_overwrites_and_restarts_window() {
    let mut db = Database::new();
    db.insert_key(b"k".to_vec(), 10, 0);
    db.insert_key_value(b"k".to_vec(), b"v".to_vec(), 1);
    // A second SET-key restarts the expiry window and clears the value.
    db.insert_key(b"k".to_vec(), 10, 5);
    let hit = db.get_or_remove(b"k", 6).expect("entry exists");
    assert_eq!(hit.inner, None);
    // The value slot is open again, so the next value lands.
    db.insert_key_value(b"k".to_vec(), b"w".to_vec(), 7);
    let hit = db.get_or_remove(b"k", 8).expect("entry exists");
    assert_eq!(hit.inner, Some(b"w".to_vec()));
}

#[test]
fn implicit_create_uses_default_ttl() {
    let mut db = Database::new();
    db.insert_key_value(b"k".to_vec(), b"v".to_vec(), 1000);
    let hit = db
        .get_or_remove(b"k", 1000 + DEFAULT_TTL_SECS - 1)
        .expect("alive just inside the default window");
    assert_eq!(hit.inner, Some(b"v".to_vec()));
    assert!(db.get_or_remove(b"k", 1000 + DEFAULT_TTL_SECS).is_none());
}

#[test]
fn sweep_evicts_exactly_the_expired() {
    let mut db = Database::new();
    db.insert_key(b"old".to_vec(), 5, 0);
    db.insert_key_value(b"old".to_vec(), b"x".to_vec(), 0);
    db.insert_key(b"fresh".to_vec(), 50, 0);
    db.insert_key_value(b"fresh".to_vec(), b"y".to_vec(), 0);
    db.sweep(10);
    assert!(db.get_or_remove(b"old", 10).is_none());
    let hit = db.get_or_remove(b"fresh", 10).expect("survives the sweep");
    assert_eq!(hit.inner, Some(b"y".to_vec()));
}

#[test]
fn validate_cache_boundaries() {
    let d = Data { inner: None, ttl_secs: 5, time_added: 100 };
    assert!(d.validate_cache(100));
    assert!(d.validate_cache(104));
    assert!(!d.validate_cache(105));
    assert!(!d.validate_cache(200));
    // A clock reading before the insertion counts as no elapsed time.
    assert!(d.validate_cache(99));
    let zero = Data::new(100);
    assert!(!zero.validate_cache(100));
}

#[test]
fn data_accessors() {
    let d = Data { inner: Some(b"v".to_vec()), ttl_secs: 1, time_added: 2 };
    assert_eq!(d.inner(), Some(b"v".to_vec()));
    let copy = d.duplicate();
    assert_eq!(copy.inner, Some(b"v".to_vec()));
    assert_eq!(copy.ttl_secs, 1);
    assert_eq!(copy.time_added, 2);
}
