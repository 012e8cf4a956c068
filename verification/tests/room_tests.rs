use presence_gateway::registry::Rooms;
use presence_gateway::room::Room;
use presence_gateway::session::{join_event_json, room_session_step, SessionAction, SessionEvent};

const TTL: u64 = 30_000;

#[test]
fn join_counts_members() {
    let mut room = Room::new();
    assert_eq!(room.published, 0);
    let c1 = room.join("a", 0, TTL);
    assert_eq!(c1, 1);
    assert_eq!(room.published, 1);
    let c2 = room.join("b", 0, TTL);
    assert_eq!(c2, 2);
    assert_eq!(room.published, 2);
}

#[test]
fn join_twice_keeps_one_membership() {
    let mut room = Room::new();
    room.join("a", 0, TTL);
    let c = room.join("a", 5, TTL);
    assert_eq!(c, 1);
    assert_eq!(room.members.len(), 1);
    assert_eq!(room.members[0].last_seen, 5);
    // the same state as a single join at time 5
    let mut fresh = Room::new();
    let c2 = fresh.join("a", 5, TTL);
    assert_eq!(c, c2);
    assert_eq!(room.published, fresh.published);
}

#[test]
fn heartbeat_keeps_member_alive() {
    // join at t=0, heartbeat at t=25s: still present at t=31s,
    // gone by t=56s with no further heartbeat
    let mut room = Room::new();
    room.join("a", 0, TTL);
    room.hb("a", 25_000);
    assert_eq!(room.active_count(31_000, TTL), 1);
    let c = room.cleanup(31_000, TTL);
    assert_eq!(c, 1);
    assert_eq!(room.published, 1);
    let c2 = room.cleanup(56_000, TTL);
    assert_eq!(c2, 0);
    assert_eq!(room.published, 0);
}

#[test]
fn heartbeat_for_unknown_identity_is_noop() {
    let mut room = Room::new();
    room.join("a", 0, TTL);
    room.hb("ghost", 10);
    assert_eq!(room.members.len(), 1);
    assert_eq!(room.members[0].sid, "a");
    assert_eq!(room.members[0].last_seen, 0);
}

#[test]
fn heartbeat_does_not_republish() {
    let mut room = Room::new();
    room.join("a", 0, TTL);
    let before = room.published;
    room.hb("a", 10_000);
    assert_eq!(room.published, before);
}

#[test]
fn leave_removes_and_republishes() {
    let mut room = Room::new();
    room.join("a", 0, TTL);
    room.join("b", 0, TTL);
    let c = room.leave("a", 100, TTL);
    assert_eq!(c, 1);
    assert_eq!(room.published, 1);
    let c2 = room.leave("missing", 100, TTL);
    assert_eq!(c2, 1);
}

#[test]
fn expired_member_not_counted_before_cleanup() {
    let mut room = Room::new();
    room.join("a", 0, TTL);
    // the latch lags until a membership change, but the count is current
    assert_eq!(room.active_count(40_000, TTL), 0);
    assert_eq!(room.published, 1);
    let c = room.cleanup(40_000, TTL);
    assert_eq!(c, 0);
    assert_eq!(room.published, 0);
}

#[test]
fn ttl_boundary_is_exclusive() {
    let mut room = Room::new();
    room.join("a", 0, TTL);
    // at exactly t = ttl the member is no longer effective
    assert_eq!(room.active_count(TTL - 1, TTL), 1);
    assert_eq!(room.active_count(TTL, TTL), 0);
}

#[test]
fn registry_converges_on_one_room() {
    let mut reg = Rooms::new();
    let i = reg.get_or_create("alpha");
    let j = reg.get_or_create("alpha");
    assert_eq!(i, j);
    assert_eq!(reg.rooms.len(), 1);
    let k = reg.get_or_create("beta");
    assert_ne!(i, k);
    assert_eq!(reg.rooms.len(), 2);
}

#[test]
fn cleanup_all_reaps_empty_rooms() {
    let mut reg = Rooms::new();
    let a = reg.get_or_create("a");
    reg.rooms[a].room.join("x", 0, TTL);
    let b = reg.get_or_create("b");
    reg.rooms[b].room.join("y", 40_000, TTL);
    reg.cleanup_all(50_000, TTL);
    // "a" expired and is gone; "b" survives with its member
    assert_eq!(reg.rooms.len(), 1);
    assert_eq!(reg.rooms[0].name, "b");
    assert_eq!(reg.rooms[0].room.published, 1);
}

#[test]
fn join_broadcast_reaches_existing_member() {
    // A sits in the room; when B joins, the join event published on the bus
    // is forwarded to A verbatim by A's running loop
    let mut room = Room::new();
    room.join("a", 0, TTL);
    let count_b = room.join("b", 10, TTL);
    assert_eq!(count_b, 2);
    let event = join_event_json("b", "alpha", 10);
    let (acts, go) = room_session_step(SessionEvent::BusEvent(event.clone()));
    assert!(go);
    assert_eq!(acts.len(), 1);
    match &acts[0] {
        SessionAction::SendText(f) => assert_eq!(f, &event),
        _ => panic!("expected the join event forwarded"),
    }
}

#[test]
fn snapshot_excludes_empty_rooms() {
    let mut reg = Rooms::new();
    let a = reg.get_or_create("a");
    reg.rooms[a].room.join("x", 0, TTL);
    reg.rooms[a].room.join("y", 0, TTL);
    let b = reg.get_or_create("b");
    reg.rooms[b].room.join("z", 0, TTL);
    reg.rooms[b].room.leave("z", 10, TTL);
    let snap = reg.snapshot_counts(100, TTL);
    assert_eq!(snap.len(), 1);
    assert_eq!(snap[0].0, "a");
    assert_eq!(snap[0].1, 2);
}
