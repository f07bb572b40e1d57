use simple_kv_store::kv_store::KvStore;
use simple_kv_store::persistence::FileStorage;

fn set_ok(store: &mut KvStore, key: &str, value: &str, ttl: Option<u64>, now: u64) {
    let r = store.set_at(key.to_string(), value.to_string(), ttl, now);
    assert!(r.is_ok());
}

#[test]
fn an_empty_store_renders_as_an_empty_object() {
    let storage = FileStorage::new();
    let store = KvStore::new();
    assert_eq!(storage.encode(&store), "{}");
}

#[test]
fn the_backing_text_is_exactly_the_documented_shape() {
    let storage = FileStorage::new();
    let mut store = KvStore::new();
    set_ok(&mut store, "a", "1", None, 100);
    set_ok(&mut store, "b", "2", Some(17), 100);
    assert_eq!(
        storage.encode(&store),
        "{\"a\":{\"value\":\"1\",\"expires_at\":null},\"b\":{\"value\":\"2\",\"expires_at\":117}}"
    );
}

#[test]
fn persist_reload_round_trip_keeps_the_live_entries() {
    let storage = FileStorage::new();
    let mut store = KvStore::new();
    set_ok(&mut store, "a", "1", None, 100);
    set_ok(&mut store, "b", "2", Some(10), 100);
    set_ok(&mut store, "c", "3", Some(1000), 100);
    assert_eq!(store.delete_at("a", 100), Some("1".to_string()));
    set_ok(&mut store, "a", "4", None, 100);

    let text = storage.encode(&store);
    let reloaded = storage.decode(&text, 100);
    assert_eq!(reloaded.list_at(100), store.list_at(100));
    assert_eq!(reloaded.get_ttl_at("b", 105), Some(5));

    // Entries that expired during the gap are swept at reload.
    let later = storage.decode(&text, 500);
    assert_eq!(later.len(), 2);
    assert_eq!(later.get_at("b", 500), None);
    assert_eq!(later.get_at("c", 500), Some("3".to_string()));
    assert_eq!(later.get_at("a", 500), Some("4".to_string()));
}

#[test]
fn quotes_and_backslashes_round_trip() {
    let storage = FileStorage::new();
    let mut store = KvStore::new();
    set_ok(&mut store, "ke\"y", "va\\l\"ue", None, 0);
    set_ok(&mut store, "plain", "sp ace", Some(9), 0);
    let text = storage.encode(&store);
    let reloaded = storage.decode(&text, 0);
    assert_eq!(reloaded.get_at("ke\"y", 0), Some("va\\l\"ue".to_string()));
    assert_eq!(reloaded.get_at("plain", 0), Some("sp ace".to_string()));
    assert_eq!(reloaded.len(), 2);
}

#[test]
fn escapes_appear_in_the_backing_text() {
    let storage = FileStorage::new();
    let mut store = KvStore::new();
    set_ok(&mut store, "k", "a\"b\\c", None, 0);
    assert_eq!(
        storage.encode(&store),
        "{\"k\":{\"value\":\"a\\\"b\\\\c\",\"expires_at\":null}}"
    );
}

#[test]
fn corrupt_contents_degrade_to_an_empty_store() {
    let storage = FileStorage::new();
    for bad in [
        "",
        "not json",
        "{",
        "{]",
        "{\"a\":{\"value\":\"1\"}}",
        "{\"a\":{\"value\":\"1\",\"expires_at\":null}} ",
        "{\"a\":{\"value\":\"1\",\"expires_at\":-3}}",
        "{\"a\":{\"value\":\"1\",\"expires_at\":null},}",
        "{\"\":{\"value\":\"1\",\"expires_at\":null}}",
        "{\"a\":{\"value\":\"1\",\"expires_at\":null},\"a\":{\"value\":\"2\",\"expires_at\":null}}",
        "{\"a\":{\"value\":\"1\",\"expires_at\":18446744073709551616}}",
    ] {
        let store = storage.decode(bad, 0);
        assert!(store.is_empty(), "must degrade to empty on: {bad}");
    }
}

#[test]
fn the_largest_deadline_survives_the_round_trip() {
    let storage = FileStorage::new();
    let mut store = KvStore::new();
    set_ok(&mut store, "k", "v", Some(u64::MAX), 0);
    let text = storage.encode(&store);
    assert_eq!(
        text,
        "{\"k\":{\"value\":\"v\",\"expires_at\":18446744073709551615}}"
    );
    let reloaded = storage.decode(&text, 1_000_000);
    assert_eq!(reloaded.get_at("k", 1_000_000), Some("v".to_string()));
}
