use simple_kv_store::entry::StoreError;
use simple_kv_store::kv_store::KvStore;

fn set_ok(store: &mut KvStore, key: &str, value: &str, ttl: Option<u64>, now: u64) {
    let r = store.set_at(key.to_string(), value.to_string(), ttl, now);
    assert!(r.is_ok());
}

#[test]
fn set_then_get_without_ttl_returns_value() {
    let mut store = KvStore::new();
    set_ok(&mut store, "k", "v", None, 100);
    assert_eq!(store.get_at("k", 100), Some("v".to_string()));
    assert_eq!(store.get_at("k", u64::MAX), Some("v".to_string()));
}

#[test]
fn set_with_ttl_expires_exactly_at_deadline() {
    let mut store = KvStore::new();
    set_ok(&mut store, "k", "v", Some(10), 100);
    assert_eq!(store.get_at("k", 100), Some("v".to_string()));
    assert_eq!(store.get_at("k", 109), Some("v".to_string()));
    assert_eq!(store.get_at("k", 110), None);
    assert_eq!(store.get_at("k", 200), None);
}

#[test]
fn overwrite_replaces_value_and_ttl() {
    let mut store = KvStore::new();
    set_ok(&mut store, "k", "old", Some(5), 100);
    set_ok(&mut store, "k", "new", None, 104);
    assert_eq!(store.get_at("k", 1000), Some("new".to_string()));
    assert_eq!(store.len(), 1);
}

#[test]
fn empty_key_is_refused_and_store_unchanged() {
    let mut store = KvStore::new();
    let r = store.set_at(String::new(), "v".to_string(), None, 0);
    match r {
        Err(StoreError::EmptyKey) => {}
        _ => panic!("an empty key must be refused"),
    }
    assert!(store.is_empty());
    assert_eq!(StoreError::EmptyKey.message(), "key must not be empty");
}

#[test]
fn delete_present_returns_prior_value_and_get_not_found() {
    let mut store = KvStore::new();
    set_ok(&mut store, "k", "v", None, 0);
    assert_eq!(store.delete_at("k", 0), Some("v".to_string()));
    assert_eq!(store.get_at("k", 0), None);
    assert_eq!(store.len(), 0);
}

#[test]
fn delete_absent_is_a_reported_no_op() {
    let mut store = KvStore::new();
    set_ok(&mut store, "other", "v", None, 0);
    assert_eq!(store.delete_at("k", 0), None);
    assert_eq!(store.len(), 1);
    assert_eq!(store.get_at("other", 0), Some("v".to_string()));
}

#[test]
fn delete_on_an_expired_key_reports_not_found() {
    let mut store = KvStore::new();
    set_ok(&mut store, "k", "v", Some(1), 100);
    assert_eq!(store.get_at("k", 200), None);
    // The dead value is never observably returned; the entry is still
    // dropped as a side effect.
    assert_eq!(store.delete_at("k", 200), None);
    assert_eq!(store.len(), 0);
    assert_eq!(store.get_at("k", 200), None);
}

#[test]
fn list_never_includes_an_expired_entry() {
    let mut store = KvStore::new();
    set_ok(&mut store, "live1", "a", None, 100);
    set_ok(&mut store, "dead1", "b", Some(1), 100);
    set_ok(&mut store, "live2", "c", Some(1000), 100);
    set_ok(&mut store, "dead2", "d", Some(5), 100);
    let listed = store.list_at(500);
    assert_eq!(
        listed,
        vec![
            ("live1".to_string(), "a".to_string()),
            ("live2".to_string(), "c".to_string()),
        ]
    );
}

#[test]
fn cleanup_removes_exactly_the_expired_entries() {
    let mut store = KvStore::new();
    set_ok(&mut store, "a", "1", None, 100);
    set_ok(&mut store, "b", "2", Some(10), 100);
    set_ok(&mut store, "c", "3", Some(1000), 100);
    store.cleanup_expired_at(500);
    assert_eq!(store.len(), 2);
    assert_eq!(store.get_at("a", 500), Some("1".to_string()));
    assert_eq!(store.get_at("b", 500), None);
    assert_eq!(store.get_at("c", 500), Some("3".to_string()));
    let all = store.get_all_at(500);
    assert_eq!(all.len(), 2);
    assert_eq!(all[0].key, "a");
    assert_eq!(all[1].key, "c");
    assert_eq!(all[1].expires_at, Some(1100));
}

#[test]
fn get_ttl_reports_remaining_seconds() {
    let mut store = KvStore::new();
    set_ok(&mut store, "x", "v", Some(5), 100);
    let remaining = store.get_ttl_at("x", 102).expect("a live entry with ttl");
    assert!(remaining > 0 && remaining <= 5);
    assert_eq!(remaining, 3);
    assert_eq!(store.delete_at("x", 102), Some("v".to_string()));
    assert_eq!(store.get_ttl_at("x", 102), None);
}

#[test]
fn get_ttl_is_silent_without_expiry_and_after_it() {
    let mut store = KvStore::new();
    set_ok(&mut store, "forever", "v", None, 0);
    set_ok(&mut store, "brief", "v", Some(1), 0);
    assert_eq!(store.get_ttl_at("forever", 1000), None);
    assert_eq!(store.get_ttl_at("brief", 1000), None);
    assert_eq!(store.get_ttl_at("missing", 0), None);
}

#[test]
fn ttl_saturates_at_the_largest_deadline() {
    let mut store = KvStore::new();
    set_ok(&mut store, "k", "v", Some(u64::MAX), 100);
    assert_eq!(store.get_at("k", u64::MAX - 1), Some("v".to_string()));
    assert_eq!(store.get_at("k", u64::MAX), None);
}

#[test]
fn simulated_two_seconds_scenario() {
    let now = 1_000;
    let mut store = KvStore::new();
    set_ok(&mut store, "a", "1", None, now);
    set_ok(&mut store, "b", "2", Some(1), now);
    assert_eq!(store.get_at("b", now), Some("2".to_string()));
    assert_eq!(store.get_at("b", now + 2), None);
    assert_eq!(store.get_at("a", now + 2), Some("1".to_string()));
    assert_eq!(
        store.list_at(now + 2),
        vec![("a".to_string(), "1".to_string())]
    );
}

#[test]
fn clocked_operations_agree_with_the_store() {
    let mut store = KvStore::new();
    assert!(store.set("k".to_string(), "v".to_string(), None).is_ok());
    assert_eq!(store.get("k"), Some("v".to_string()));
    assert_eq!(store.get_ttl("k"), None);
    assert_eq!(store.list(), vec![("k".to_string(), "v".to_string())]);
    store.cleanup_expired();
    assert_eq!(store.delete("k"), Some("v".to_string()));
    assert_eq!(store.get("k"), None);
}

#[test]
fn get_all_never_enumerates_a_dead_entry() {
    let mut store = KvStore::new();
    set_ok(&mut store, "live", "a", None, 100);
    set_ok(&mut store, "dead", "b", Some(1), 100);
    let all = store.get_all_at(500);
    assert_eq!(all.len(), 1);
    assert_eq!(all[0].key, "live");
    assert_eq!(all[0].value, "a");
    assert_eq!(all[0].expires_at, None);
    // The dead entry is still stored until a sweep, just never enumerated.
    assert_eq!(store.len(), 2);
}
