use presence_gateway::api::{
    online_today, presence_views, rooms_info, top_active_rooms, update_presence_event,
};
use presence_gateway::config::Config;
use presence_gateway::meta::SocketMetadata;

fn snapshot(pairs: &[(&str, usize)]) -> Vec<(String, usize)> {
    pairs.iter().map(|(n, c)| (n.to_string(), *c)).collect()
}

#[test]
fn top_rooms_sorts_by_count_then_name() {
    // a(3), b(3), c(5) with limit 2: c first, then a before b
    let list = snapshot(&[("a", 3), ("b", 3), ("c", 5)]);
    let top = top_active_rooms(list, Some(2));
    assert_eq!(top.len(), 2);
    assert_eq!(top[0].room, "c");
    assert_eq!(top[0].count, 5);
    assert_eq!(top[1].room, "a");
    assert_eq!(top[1].count, 3);
    assert_eq!(top[0].path, "c");
    assert_eq!(top[0].title, "c");
}

#[test]
fn top_rooms_default_and_capped_limit() {
    let list = snapshot(&[("r", 1)]);
    let top = top_active_rooms(list, None);
    assert_eq!(top.len(), 1);

    let many: Vec<(String, usize)> = (0..150).map(|i| (format!("room{:03}", i), 1)).collect();
    let top = top_active_rooms(many, Some(1000));
    assert_eq!(top.len(), 100);
    // equal counts fall back to name order
    assert_eq!(top[0].room, "room000");
    assert_eq!(top[99].room, "room099");
}

#[test]
fn rooms_info_keeps_names_and_counts_aligned() {
    let info = rooms_info(snapshot(&[("a", 2), ("b", 1)]));
    assert_eq!(info.rooms, vec!["a", "b"]);
    assert_eq!(info.room_count[0], ("a".to_string(), 2));
    assert_eq!(info.room_count[1], ("b".to_string(), 1));
}

#[test]
fn presence_views_pick_the_room_mark() {
    let mut rec = SocketMetadata::fresh("c1", String::from("s1"), 10);
    rec.set_room("alpha", 15);
    let other = SocketMetadata::fresh("c2", String::from("s2"), 20);
    let views = presence_views(&vec![rec, other], "alpha");
    assert_eq!(views.len(), 2);
    assert_eq!(views[0].identity, "c1");
    assert_eq!(views[0].joined_at, Some(15));
    assert_eq!(views[0].updated_at, 15);
    assert_eq!(views[1].identity, "c2");
    assert_eq!(views[1].joined_at, None);
}

#[test]
fn online_today_names_its_backend() {
    let remote = online_today(String::from("2026-10-12"), Some((9, 4)), 2);
    assert_eq!(remote.date, "2026-10-12");
    assert_eq!(remote.max, 9);
    assert_eq!(remote.total, 4);
    assert_eq!(remote.backend, "redis");

    let local = online_today(String::from("2026-10-12"), None, 2);
    assert_eq!(local.max, 2);
    assert_eq!(local.total, 0);
    assert_eq!(local.backend, "memory");
}

#[test]
fn update_presence_event_is_exact() {
    assert_eq!(
        update_presence_event("c1", "alpha", 7, Some(String::from("Ann")), None),
        "{\"type\":\"ACTIVITY_UPDATE_PRESENCE\",\"data\":{\"identity\":\"c1\",\
         \"roomName\":\"alpha\",\"updatedAt\":7,\"displayName\":\"Ann\"}}"
    );
}

#[test]
fn config_defaults_and_parsing() {
    let cfg = Config::from_values(None, None, None, None, None);
    assert_eq!(cfg.port, 8080);
    assert_eq!(cfg.ttl_secs, 30);
    assert_eq!(cfg.ping_interval_secs, None);
    assert!(cfg.allowed_origins.is_none());
    assert!(cfg.redis_url.is_none());

    let cfg = Config::from_values(
        Some(String::from("9000")),
        Some(String::from("60")),
        Some(String::from("15")),
        Some(String::from(" a.example , ,b.example,")),
        Some(String::from("redis://localhost:6379")),
    );
    assert_eq!(cfg.port, 9000);
    assert_eq!(cfg.ttl_secs, 60);
    assert_eq!(cfg.ping_interval_secs, Some(15));
    assert_eq!(cfg.allowed_origins, Some(vec![
        String::from("a.example"),
        String::from("b.example"),
    ]));
    assert_eq!(cfg.redis_url, Some(String::from("redis://localhost:6379")));
}

#[test]
fn config_rejects_garbage_numbers() {
    let cfg = Config::from_values(
        Some(String::from("70000")),
        Some(String::from("soon")),
        Some(String::from("0")),
        Some(String::from("  ,  ")),
        Some(String::new()),
    );
    assert_eq!(cfg.port, 8080);
    assert_eq!(cfg.ttl_secs, 30);
    assert_eq!(cfg.ping_interval_secs, None);
    assert!(cfg.allowed_origins.is_none());
    assert!(cfg.redis_url.is_none());
}
