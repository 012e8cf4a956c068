use presence_gateway::events::{
    escape_str, format_message, u64_to_dec, BusinessEvent, JoinPresencePayload,
    LeavePresencePayload, UpdatePresencePayload, VisitorOfflinePayload, VisitorOnlinePayload,
};

#[test]
fn decimal_rendering_is_exact() {
    assert_eq!(u64_to_dec(0), "0");
    assert_eq!(u64_to_dec(7), "7");
    assert_eq!(u64_to_dec(30), "30");
    assert_eq!(u64_to_dec(1234567890123), "1234567890123");
    assert_eq!(u64_to_dec(u64::MAX), "18446744073709551615");
}

#[test]
fn escaping_covers_quotes_backslashes_and_controls() {
    assert_eq!(escape_str("plain"), "plain");
    assert_eq!(escape_str("a\"b"), "a\\\"b");
    assert_eq!(escape_str("a\\b"), "a\\\\b");
    assert_eq!(escape_str("a\nb\tc\rd"), "a\\nb\\tc\\rd");
    assert_eq!(escape_str("\u{08}\u{0c}\u{01}\u{1f}"), "\\b\\f\\u0001\\u001f");
    assert_eq!(escape_str("héllo"), "héllo");
}

#[test]
fn join_event_envelope_is_exact() {
    let payload = JoinPresencePayload {
        identity: String::from("c1"),
        room_name: String::from("alpha"),
        joined_at: 5,
    };
    assert_eq!(
        payload.to_json(),
        "{\"identity\":\"c1\",\"roomName\":\"alpha\",\"joinedAt\":5}"
    );
    let msg = format_message(BusinessEvent::ActivityJoinPresence, &payload.to_json());
    assert_eq!(
        msg,
        "{\"type\":\"ACTIVITY_JOIN_PRESENCE\",\"data\":{\"identity\":\"c1\",\
         \"roomName\":\"alpha\",\"joinedAt\":5}}"
    );
}

#[test]
fn leave_event_envelope_is_exact() {
    let payload = LeavePresencePayload {
        identity: String::from("c1"),
        room_name: String::from("alpha"),
    };
    let msg = format_message(BusinessEvent::ActivityLeavePresence, &payload.to_json());
    assert_eq!(
        msg,
        "{\"type\":\"ACTIVITY_LEAVE_PRESENCE\",\"data\":{\"identity\":\"c1\",\"roomName\":\"alpha\"}}"
    );
}

#[test]
fn visitor_events_are_exact() {
    let online = VisitorOnlinePayload { online: 3, timestamp: 1000 };
    assert_eq!(online.to_json(), "{\"online\":3,\"timestamp\":1000}");
    let offline = VisitorOfflinePayload {
        online: 2,
        timestamp: 1001,
        session_id: String::from("s1"),
    };
    assert_eq!(
        offline.to_json(),
        "{\"online\":2,\"timestamp\":1001,\"sessionId\":\"s1\"}"
    );
}

#[test]
fn update_presence_optionals_appear_only_when_set() {
    let bare = UpdatePresencePayload {
        identity: String::from("c1"),
        room_name: String::from("alpha"),
        updated_at: 9,
        display_name: None,
        position: None,
    };
    assert_eq!(
        bare.to_json(),
        "{\"identity\":\"c1\",\"roomName\":\"alpha\",\"updatedAt\":9}"
    );
    let full = UpdatePresencePayload {
        identity: String::from("c1"),
        room_name: String::from("alpha"),
        updated_at: 9,
        display_name: Some(String::from("Ann")),
        position: Some(4),
    };
    assert_eq!(
        full.to_json(),
        "{\"identity\":\"c1\",\"roomName\":\"alpha\",\"updatedAt\":9,\
         \"displayName\":\"Ann\",\"position\":4}"
    );
}

#[test]
fn every_event_parses_to_the_envelope() {
    // the envelope holds a string type, a data member, and nothing else
    let kinds = [
        BusinessEvent::GatewayConnect,
        BusinessEvent::VisitorOnline,
        BusinessEvent::VisitorOffline,
        BusinessEvent::ActivityJoinPresence,
        BusinessEvent::ActivityUpdatePresence,
        BusinessEvent::ActivityLeavePresence,
    ];
    for kind in kinds {
        let msg = format_message(kind, "{\"x\":1}");
        let parsed: serde_json::Value = serde_json::from_str(&msg).unwrap();
        let obj = parsed.as_object().unwrap();
        assert_eq!(obj.len(), 2);
        assert!(obj.get("type").unwrap().is_string());
        assert!(obj.get("data").unwrap().is_object());
    }
}

#[test]
fn escaped_payload_survives_a_json_parser() {
    let offline = VisitorOfflinePayload {
        online: 1,
        timestamp: 7,
        session_id: String::from("we\"ird\\id\n"),
    };
    let msg = format_message(BusinessEvent::VisitorOffline, &offline.to_json());
    let parsed: serde_json::Value = serde_json::from_str(&msg).unwrap();
    assert_eq!(
        parsed.get("data").unwrap().get("sessionId").unwrap().as_str().unwrap(),
        "we\"ird\\id\n"
    );
}
