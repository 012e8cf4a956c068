use presence_gateway::meta::{
    stats_new_max, unique_sessions, upsert_record, MemoryMetaStore, MetaStore, SocketMetadata,
};

#[test]
fn distinct_sessions_count_two() {
    let mut store = MemoryMetaStore::new();
    store.upsert_identity("c1", String::from("s1"), 10);
    store.upsert_identity("c2", String::from("s2"), 11);
    assert_eq!(store.unique_session_count(), 2);
}

#[test]
fn shared_session_counts_one() {
    let mut store = MemoryMetaStore::new();
    store.upsert_identity("c1", String::from("s1"), 10);
    store.upsert_identity("c2", String::from("s1"), 11);
    assert_eq!(store.unique_session_count(), 1);
}

#[test]
fn update_sid_collapse_decrements() {
    let mut store = MemoryMetaStore::new();
    store.upsert_identity("c1", String::from("s1"), 10);
    store.upsert_identity("c2", String::from("s2"), 11);
    assert_eq!(store.unique_session_count(), 2);
    store.set_session_id("c2", String::from("s1"), 12);
    assert_eq!(store.unique_session_count(), 1);
}

#[test]
fn upsert_preserves_connect_time() {
    let mut store = MemoryMetaStore::new();
    store.upsert_identity("c1", String::from("s1"), 10);
    store.upsert_identity("c1", String::from("s9"), 99);
    assert_eq!(store.records.len(), 1);
    assert_eq!(store.records[0].connected_at_ms, 10);
    assert_eq!(store.records[0].updated_at_ms, 99);
    assert_eq!(store.records[0].session_id, "s9");
}

#[test]
fn set_session_id_of_unknown_is_noop() {
    let mut store = MemoryMetaStore::new();
    store.set_session_id("ghost", String::from("s"), 5);
    assert_eq!(store.records.len(), 0);
}

#[test]
fn join_and_leave_room_marks() {
    let mut store = MemoryMetaStore::new();
    store.upsert_identity("c1", String::from("s1"), 10);
    store.join_room("c1", "alpha", 20);
    let present = store.room_presence("alpha");
    assert_eq!(present.len(), 1);
    assert_eq!(present[0].identity, "c1");
    store.leave_room("c1", "alpha", 30);
    assert_eq!(store.room_presence("alpha").len(), 0);
}

#[test]
fn clear_removes_record() {
    let mut store = MemoryMetaStore::new();
    store.upsert_identity("c1", String::from("s1"), 10);
    store.clear("c1");
    assert_eq!(store.records.len(), 0);
    assert_eq!(store.unique_session_count(), 0);
}

#[test]
fn touch_by_session_bumps_matching_records() {
    let mut store = MemoryMetaStore::new();
    store.upsert_identity("c1", String::from("s1"), 10);
    store.upsert_identity("c2", String::from("s2"), 10);
    store.upsert_identity("c3", String::from("s1"), 10);
    store.touch_by_session("s1", 77);
    assert_eq!(store.records[0].updated_at_ms, 77);
    assert_eq!(store.records[1].updated_at_ms, 10);
    assert_eq!(store.records[2].updated_at_ms, 77);
}

#[test]
fn find_by_session_returns_first_match() {
    let mut store = MemoryMetaStore::new();
    store.upsert_identity("c1", String::from("s1"), 10);
    store.upsert_identity("c2", String::from("s2"), 11);
    let found = store.find_by_session("s2").unwrap();
    assert_eq!(found.identity, "c2");
    assert!(store.find_by_session("nope").is_none());
}

#[test]
fn memory_backend_keeps_no_daily_stats() {
    let store = MemoryMetaStore::new();
    assert!(store.online_stats_today().is_none());
    store.update_online_stats(42);
    assert!(store.online_stats_today().is_none());
}

#[test]
fn unique_sessions_counts_any_record_list() {
    // the same dedup serves a backend that decoded its records elsewhere
    let records = vec![
        SocketMetadata::fresh("c1", String::from("s1"), 1),
        SocketMetadata::fresh("c2", String::from("s2"), 2),
        SocketMetadata::fresh("c3", String::from("s1"), 3),
    ];
    assert_eq!(unique_sessions(&records), 2);
    assert_eq!(unique_sessions(&Vec::new()), 0);
}

#[test]
fn stats_max_is_monotone() {
    assert_eq!(stats_new_max(None, 5), 5);
    assert_eq!(stats_new_max(Some(3), 5), 5);
    assert_eq!(stats_new_max(Some(7), 5), 7);
    assert_eq!(stats_new_max(Some(7), 7), 7);
}

#[test]
fn upsert_record_fresh_and_update() {
    let fresh = upsert_record(None, "c1", String::from("s1"), 10);
    assert_eq!(fresh.identity, "c1");
    assert_eq!(fresh.session_id, "s1");
    assert_eq!(fresh.connected_at_ms, 10);
    assert_eq!(fresh.updated_at_ms, 10);
    assert_eq!(fresh.room_joined_at.len(), 0);

    let mut stored = fresh;
    stored.set_room("alpha", 15);
    let updated = upsert_record(Some(stored), "c1", String::from("s2"), 20);
    assert_eq!(updated.session_id, "s2");
    assert_eq!(updated.connected_at_ms, 10);
    assert_eq!(updated.updated_at_ms, 20);
    assert_eq!(updated.room_joined_at.len(), 1);
    assert_eq!(updated.room_joined_at[0].room, "alpha");
}

#[test]
fn record_encodes_to_stable_json() {
    let mut rec = SocketMetadata::fresh("c1", String::from("s1"), 10);
    rec.set_room("alpha", 15);
    rec.set_room("beta", 16);
    assert_eq!(
        rec.to_json(),
        "{\"identity\":\"c1\",\"session_id\":\"s1\",\"connected_at_ms\":10,\
         \"updated_at_ms\":16,\"room_joined_at\":{\"alpha\":15,\"beta\":16}}"
    );
    let parsed: serde_json::Value = serde_json::from_str(&rec.to_json()).unwrap();
    assert_eq!(parsed.get("identity").unwrap().as_str().unwrap(), "c1");
    assert_eq!(parsed.get("room_joined_at").unwrap().get("alpha").unwrap().as_u64().unwrap(), 15);
}

#[test]
fn room_marks_do_not_duplicate() {
    let mut rec = SocketMetadata::fresh("c1", String::from("s1"), 10);
    rec.set_room("alpha", 15);
    rec.set_room("alpha", 25);
    assert_eq!(rec.room_joined_at.len(), 1);
    assert_eq!(rec.room_joined_at[0].at_ms, 25);
    rec.unset_room("alpha", 30);
    assert_eq!(rec.room_joined_at.len(), 0);
}
