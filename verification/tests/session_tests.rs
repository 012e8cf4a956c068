use presence_gateway::session::{
    admit_room_ws, classify_inbound, effective_session_id, gateway_connect_event_json,
    hello_json, is_valid_room, join_event_json, leave_event_json, room_close_steps,
    room_connect_steps, room_session_step, sync_json, visitor_offline_event_json,
    visitor_online_event_json, web_session_step, Admission, CloseStep, ConnectStep, InboundMsg,
    SessionAction, SessionEvent,
};

#[test]
fn valid_room_names() {
    assert!(is_valid_room("alpha"));
    assert!(is_valid_room("a-b_c.d/e:f@g0"));
    assert!(!is_valid_room(""));
    assert!(!is_valid_room("has space"));
    assert!(!is_valid_room("emöji"));
    let long = "a".repeat(256);
    assert!(is_valid_room(&long));
    let too_long = "a".repeat(257);
    assert!(!is_valid_room(&too_long));
}

#[test]
fn session_id_fallback_order() {
    let header = String::from("h");
    let query = String::from("q");
    let empty = String::new();
    assert_eq!(effective_session_id(Some(&header), Some(&query), "sid"), "h");
    assert_eq!(effective_session_id(Some(&empty), Some(&query), "sid"), "q");
    assert_eq!(effective_session_id(None, Some(&query), "sid"), "q");
    assert_eq!(effective_session_id(None, None, "sid"), "sid");
}

#[test]
fn hello_frame_is_first_and_exact() {
    assert_eq!(
        hello_json("abc", 30, 1),
        "{\"type\":\"hello\",\"sid\":\"abc\",\"ttl\":30,\"count\":1}"
    );
}

#[test]
fn sync_frame_is_exact() {
    assert_eq!(sync_json(4), "{\"type\":\"sync\",\"count\":4}");
}

#[test]
fn classify_heartbeat_frames() {
    assert!(matches!(classify_inbound("{\"type\":\"hb\"}"), InboundMsg::Hb));
    assert!(matches!(classify_inbound("  { \"type\" : \"hb\" }  "), InboundMsg::Hb));
    assert!(matches!(
        classify_inbound("{\"type\":\"hb\",\"seq\":12}"),
        InboundMsg::Hb
    ));
}

#[test]
fn classify_update_sid_frames() {
    match classify_inbound("{\"type\":\"updateSid\",\"sessionId\":\"s9\"}") {
        InboundMsg::UpdateSid(v) => assert_eq!(v, "s9"),
        _ => panic!("expected an updateSid frame"),
    }
    // member order does not matter
    match classify_inbound("{\"sessionId\":\"s9\",\"type\":\"updateSid\"}") {
        InboundMsg::UpdateSid(v) => assert_eq!(v, "s9"),
        _ => panic!("expected an updateSid frame"),
    }
    // escapes in the value decode
    match classify_inbound("{\"type\":\"updateSid\",\"sessionId\":\"a\\\"b\"}") {
        InboundMsg::UpdateSid(v) => assert_eq!(v, "a\"b"),
        _ => panic!("expected an updateSid frame"),
    }
}

#[test]
fn classify_passes_over_nested_and_escaped_members() {
    // unknown members may hold nested structures or exotic strings
    assert!(matches!(
        classify_inbound("{\"type\":\"hb\",\"extra\":{\"a\":[1,2],\"b\":\"x}y\"}}"),
        InboundMsg::Hb
    ));
    assert!(matches!(
        classify_inbound("{\"note\":\"caf\\u00e9\",\"type\":\"hb\"}"),
        InboundMsg::Hb
    ));
    match classify_inbound(
        "{\"sessionId\":\"s1\",\"meta\":[true,{\"z\":\"\\\"q\\\"\"}],\"type\":\"updateSid\"}",
    ) {
        InboundMsg::UpdateSid(v) => assert_eq!(v, "s1"),
        _ => panic!("expected an updateSid frame"),
    }
    // a sessionId that does not decode leaves the frame unrecognized
    assert!(matches!(
        classify_inbound("{\"type\":\"updateSid\",\"sessionId\":\"\\u0041\"}"),
        InboundMsg::Other
    ));
}

#[test]
fn classify_ignores_the_rest() {
    assert!(matches!(classify_inbound("not json"), InboundMsg::Other));
    assert!(matches!(classify_inbound("{\"type\":\"dance\"}"), InboundMsg::Other));
    assert!(matches!(classify_inbound("{\"type\":\"updateSid\"}"), InboundMsg::Other));
    assert!(matches!(
        classify_inbound("{\"type\":\"updateSid\",\"sessionId\":7}"),
        InboundMsg::Other
    ));
    assert!(matches!(classify_inbound("{}"), InboundMsg::Other));
    assert!(matches!(classify_inbound("[1,2]"), InboundMsg::Other));
}

#[test]
fn admission_rejects_bad_rooms_and_origins() {
    let whitelist = vec![String::from("https://good.example")];
    let evil = String::from("https://evil.example");
    let good = String::from("https://good.example");
    assert!(matches!(
        admit_room_ws("bad room", Some(&good), Some(&whitelist)),
        Admission::InvalidRoom
    ));
    assert!(matches!(
        admit_room_ws("alpha", Some(&evil), Some(&whitelist)),
        Admission::Forbidden
    ));
    assert!(matches!(
        admit_room_ws("alpha", Some(&good), Some(&whitelist)),
        Admission::Admit
    ));
    // no whitelist, or an empty one, admits
    assert!(matches!(admit_room_ws("alpha", None, None), Admission::Admit));
    let empty: Vec<String> = Vec::new();
    assert!(matches!(admit_room_ws("alpha", None, Some(&empty)), Admission::Admit));
}

#[test]
fn room_step_decision_table() {
    let (acts, go) = room_session_step(SessionEvent::Text(String::from("{\"type\":\"hb\"}")));
    assert!(go);
    assert_eq!(acts.len(), 1);
    assert!(matches!(acts[0], SessionAction::Heartbeat));

    let (acts, go) = room_session_step(SessionEvent::Text(String::from(
        "{\"type\":\"updateSid\",\"sessionId\":\"s2\"}",
    )));
    assert!(go);
    assert_eq!(acts.len(), 2);
    match &acts[0] {
        SessionAction::SetSession(v) => assert_eq!(v, "s2"),
        _ => panic!("expected the session id to be stored first"),
    }
    assert!(matches!(acts[1], SessionAction::RecountOnline));

    let (acts, go) = room_session_step(SessionEvent::CountChanged(3));
    assert!(go);
    match &acts[0] {
        SessionAction::SendText(f) => assert_eq!(f, "{\"type\":\"sync\",\"count\":3}"),
        _ => panic!("expected a sync frame"),
    }

    let (acts, go) = room_session_step(SessionEvent::BusEvent(String::from("payload")));
    assert!(go);
    match &acts[0] {
        SessionAction::SendText(f) => assert_eq!(f, "payload"),
        _ => panic!("expected the bus payload forwarded verbatim"),
    }

    let (acts, go) = room_session_step(SessionEvent::CloseFrame);
    assert!(!go);
    assert!(acts.is_empty());
    assert!(!room_session_step(SessionEvent::ReadError).1);
    assert!(!room_session_step(SessionEvent::StreamEnd).1);
    assert!(room_session_step(SessionEvent::Binary).1);
    assert!(room_session_step(SessionEvent::BusLagged).1);
    let (acts, go) = room_session_step(SessionEvent::PingTick);
    assert!(go);
    assert!(matches!(acts[0], SessionAction::SendPing));
}

#[test]
fn web_step_decision_table() {
    // a heartbeat means nothing to a web session
    let (acts, go) = web_session_step(SessionEvent::Text(String::from("{\"type\":\"hb\"}")), 5);
    assert!(go);
    assert!(acts.is_empty());

    let (acts, go) = web_session_step(SessionEvent::CountChanged(2), 1000);
    assert!(go);
    match &acts[0] {
        SessionAction::SendText(f) => assert_eq!(
            f,
            "{\"type\":\"VISITOR_ONLINE\",\"data\":{\"online\":2,\"timestamp\":1000}}"
        ),
        _ => panic!("expected a visitor-online event"),
    }
    assert!(!web_session_step(SessionEvent::StreamEnd, 0).1);
    assert!(!web_session_step(SessionEvent::CloseFrame, 0).1);
}

#[test]
fn lifecycle_orders_membership_before_events() {
    // the join event follows the membership change; the hello frame is last
    let connect = room_connect_steps();
    assert!(matches!(connect[0], ConnectStep::JoinRoom));
    assert!(matches!(connect[3], ConnectStep::PublishJoinEvent));
    assert!(matches!(connect[5], ConnectStep::SendHello));
    // the leave event follows the removal; the closing path ends on a recount
    let close = room_close_steps();
    assert!(matches!(close[0], CloseStep::LeaveRoom));
    assert!(matches!(close[1], CloseStep::PublishLeaveEvent));
    assert!(matches!(close[4], CloseStep::RecountOnline));
}

#[test]
fn broadcast_events_are_exact() {
    assert_eq!(
        join_event_json("c1", "alpha", 5),
        "{\"type\":\"ACTIVITY_JOIN_PRESENCE\",\"data\":{\"identity\":\"c1\",\
         \"roomName\":\"alpha\",\"joinedAt\":5}}"
    );
    assert_eq!(
        leave_event_json("c1", "alpha"),
        "{\"type\":\"ACTIVITY_LEAVE_PRESENCE\",\"data\":{\"identity\":\"c1\",\
         \"roomName\":\"alpha\"}}"
    );
    assert_eq!(
        visitor_online_event_json(3, 9),
        "{\"type\":\"VISITOR_ONLINE\",\"data\":{\"online\":3,\"timestamp\":9}}"
    );
    assert_eq!(
        visitor_offline_event_json(2, 9, "s1"),
        "{\"type\":\"VISITOR_OFFLINE\",\"data\":{\"online\":2,\"timestamp\":9,\
         \"sessionId\":\"s1\"}}"
    );
    assert_eq!(
        gateway_connect_event_json("welcome"),
        "{\"type\":\"GATEWAY_CONNECT\",\"data\":\"welcome\"}"
    );
}
