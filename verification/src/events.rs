//! The wire codec for business events: every outbound event is the JSON
//! envelope `{"type": <EVENT>, "data": <payload>}`, built here character by
//! character so that the exact frame is pinned down by the contracts.
use vstd::prelude::*;

verus! {

/// The kinds of business events the gateway emits.
#[derive(Clone, Copy, PartialEq, Eq, Structural)]
pub enum BusinessEvent {
    GatewayConnect,
    VisitorOnline,
    VisitorOffline,
    ActivityJoinPresence,
    ActivityUpdatePresence,
    ActivityLeavePresence,
}

/// The wire name of each event kind.
pub open spec fn event_name_spec(kind: BusinessEvent) -> Seq<char> {
    match kind {
        BusinessEvent::GatewayConnect => "GATEWAY_CONNECT"@,
        BusinessEvent::VisitorOnline => "VISITOR_ONLINE"@,
        BusinessEvent::VisitorOffline => "VISITOR_OFFLINE"@,
        BusinessEvent::ActivityJoinPresence => "ACTIVITY_JOIN_PRESENCE"@,
        BusinessEvent::ActivityUpdatePresence => "ACTIVITY_UPDATE_PRESENCE"@,
        BusinessEvent::ActivityLeavePresence => "ACTIVITY_LEAVE_PRESENCE"@,
    }
}

/// The wire name of each event kind.
pub fn event_name(kind: BusinessEvent) -> (r: &'static str)
    ensures
        r@ == event_name_spec(kind),
{
    match kind {
        BusinessEvent::GatewayConnect => "GATEWAY_CONNECT",
        BusinessEvent::VisitorOnline => "VISITOR_ONLINE",
        BusinessEvent::VisitorOffline => "VISITOR_OFFLINE",
        BusinessEvent::ActivityJoinPresence => "ACTIVITY_JOIN_PRESENCE",
        BusinessEvent::ActivityUpdatePresence => "ACTIVITY_UPDATE_PRESENCE",
        BusinessEvent::ActivityLeavePresence => "ACTIVITY_LEAVE_PRESENCE",
    }
}

/// The hexadecimal digit for `n`.
pub open spec fn hex_char(n: int) -> char {
    if n == 0 {
        '0'
    } else if n == 1 {
        '1'
    } else if n == 2 {
        '2'
    } else if n == 3 {
        '3'
    } else if n == 4 {
        '4'
    } else if n == 5 {
        '5'
    } else if n == 6 {
        '6'
    } else if n == 7 {
        '7'
    } else if n == 8 {
        '8'
    } else if n == 9 {
        '9'
    } else if n == 10 {
        'a'
    } else if n == 11 {
        'b'
    } else if n == 12 {
        'c'
    } else if n == 13 {
        'd'
    } else if n == 14 {
        'e'
    } else {
        'f'
    }
}

/// How one character is written inside a JSON string literal: quotes and
/// backslashes take an escape, control characters take a short or `\u00..`
/// escape, and everything else stands as itself.
pub open spec fn json_escape_char(c: char) -> Seq<char> {
    if c == '"' {
        seq!['\\', '"']
    } else if c == '\\' {
        seq!['\\', '\\']
    } else if c == '\u{08}' {
        seq!['\\', 'b']
    } else if c == '\t' {
        seq!['\\', 't']
    } else if c == '\n' {
        seq!['\\', 'n']
    } else if c == '\u{0c}' {
        seq!['\\', 'f']
    } else if c == '\r' {
        seq!['\\', 'r']
    } else if (c as u32) < 0x20 {
        seq!['\\', 'u', '0', '0', hex_char((c as u32) as int / 16), hex_char((c as u32) as int % 16)]
    } else {
        seq![c]
    }
}

/// A whole string escaped for a JSON string literal.
pub open spec fn json_escape(s: Seq<char>) -> Seq<char>
    decreases s.len(),
{
    if s.len() == 0 {
        Seq::empty()
    } else {
        json_escape(s.drop_last()) + json_escape_char(s.last())
    }
}

/// A quoted, escaped JSON string literal.
pub open spec fn json_string(s: Seq<char>) -> Seq<char> {
    seq!['"'] + json_escape(s) + seq!['"']
}

/// The decimal digit for `n`.
pub open spec fn digit_char(n: int) -> char {
    if n == 0 {
        '0'
    } else if n == 1 {
        '1'
    } else if n == 2 {
        '2'
    } else if n == 3 {
        '3'
    } else if n == 4 {
        '4'
    } else if n == 5 {
        '5'
    } else if n == 6 {
        '6'
    } else if n == 7 {
        '7'
    } else if n == 8 {
        '8'
    } else {
        '9'
    }
}

/// The decimal digits of `n`, most significant first.
pub open spec fn dec_digits(n: int) -> Seq<char>
    recommends
        n >= 0,
    decreases n,
{
    if n < 10 {
        seq![digit_char(n)]
    } else {
        dec_digits(n / 10).push(digit_char(n % 10))
    }
}

fn digit_str(d: u64) -> (r: &'static str)
    requires
        d < 10,
    ensures
        r@ =~= seq![digit_char(d as int)],
{
    proof {
        reveal_strlit("0");
        reveal_strlit("1");
        reveal_strlit("2");
        reveal_strlit("3");
        reveal_strlit("4");
        reveal_strlit("5");
        reveal_strlit("6");
        reveal_strlit("7");
        reveal_strlit("8");
        reveal_strlit("9");
    }
    match d {
        0 => "0",
        1 => "1",
        2 => "2",
        3 => "3",
        4 => "4",
        5 => "5",
        6 => "6",
        7 => "7",
        8 => "8",
        _ => "9",
    }
}

fn hex_str(d: u32) -> (r: &'static str)
    requires
        d < 16,
    ensures
        r@ =~= seq![hex_char(d as int)],
{
    proof {
        reveal_strlit("0");
        reveal_strlit("1");
        reveal_strlit("2");
        reveal_strlit("3");
        reveal_strlit("4");
        reveal_strlit("5");
        reveal_strlit("6");
        reveal_strlit("7");
        reveal_strlit("8");
        reveal_strlit("9");
        reveal_strlit("a");
        reveal_strlit("b");
        reveal_strlit("c");
        reveal_strlit("d");
        reveal_strlit("e");
        reveal_strlit("f");
    }
    match d {
        0 => "0",
        1 => "1",
        2 => "2",
        3 => "3",
        4 => "4",
        5 => "5",
        6 => "6",
        7 => "7",
        8 => "8",
        9 => "9",
        10 => "a",
        11 => "b",
        12 => "c",
        13 => "d",
        14 => "e",
        _ => "f",
    }
}

/// `n` written in decimal.
pub fn u64_to_dec(n: u64) -> (r: String)
    ensures
        r@ == dec_digits(n as int),
    decreases n,
{
    if n < 10 {
        digit_str(n).to_owned()
    } else {
        let mut s = u64_to_dec(n / 10);
        s.append(digit_str(n % 10));
        proof {
            assert(s@ =~= dec_digits(n as int / 10).push(digit_char(n as int % 10)));
        }
        s
    }
}

/// `s` escaped for the inside of a JSON string literal.
pub fn escape_str(s: &str) -> (r: String)
    ensures
        r@ == json_escape(s@),
{
    let n = s.unicode_len();
    let mut out = String::new();
    let mut i: usize = 0;
    while i < n
        invariant
            i <= n,
            n == s@.len(),
            out@ == json_escape(s@.take(i as int)),
        decreases n - i,
    {
        proof {
            assert(s@.take(i + 1).drop_last() =~= s@.take(i as int));
            assert(s@.take(i + 1).last() == s@[i as int]);
        }
        let c = s.get_char(i);
        let code = c as u32;
        if c == '"' {
            out.append("\\\"");
            proof {
                reveal_strlit("\\\"");
                assert(out@ =~= json_escape(s@.take(i + 1)));
            }
        } else if c == '\\' {
            out.append("\\\\");
            proof {
                reveal_strlit("\\\\");
                assert(out@ =~= json_escape(s@.take(i + 1)));
            }
        } else if code == 0x08 {
            out.append("\\b");
            proof {
                reveal_strlit("\\b");
                assert(out@ =~= json_escape(s@.take(i + 1)));
            }
        } else if code == 0x09 {
            out.append("\\t");
            proof {
                reveal_strlit("\\t");
                assert(out@ =~= json_escape(s@.take(i + 1)));
            }
        } else if code == 0x0a {
            out.append("\\n");
            proof {
                reveal_strlit("\\n");
                assert(out@ =~= json_escape(s@.take(i + 1)));
            }
        } else if code == 0x0c {
            out.append("\\f");
            proof {
                reveal_strlit("\\f");
                assert(out@ =~= json_escape(s@.take(i + 1)));
            }
        } else if code == 0x0d {
            out.append("\\r");
            proof {
                reveal_strlit("\\r");
                assert(out@ =~= json_escape(s@.take(i + 1)));
            }
        } else if code < 0x20 {
            out.append("\\u00");
            out.append(hex_str(code / 16));
            out.append(hex_str(code % 16));
            proof {
                reveal_strlit("\\u00");
                assert(out@ =~= json_escape(s@.take(i + 1)));
            }
        } else {
            let piece = s.substring_char(i, i + 1);
            out.append(piece);
            proof {
                assert(piece@ =~= seq![s@[i as int]]);
                assert(out@ =~= json_escape(s@.take(i + 1)));
            }
        }
        i = i + 1;
    }
    proof {
        assert(s@.take(n as int) =~= s@);
    }
    out
}

/// The JSON envelope around a business event: a `type` key holding the event
/// name and a `data` key holding the payload, nothing else.
pub open spec fn envelope(t: Seq<char>, d: Seq<char>) -> Seq<char> {
    "{\"type\":\""@ + t + "\",\"data\":"@ + d + "}"@
}

/// The envelope frame for `kind` around an already-encoded payload.
pub fn format_message(kind: BusinessEvent, data_json: &str) -> (r: String)
    ensures
        r@ == envelope(event_name_spec(kind), data_json@),
{
    let mut out = String::new();
    out.append("{\"type\":\"");
    out.append(event_name(kind));
    out.append("\",\"data\":");
    out.append(data_json);
    out.append("}");
    proof {
        assert(out@ =~= envelope(event_name_spec(kind), data_json@));
    }
    out
}

/// The payload of a `VISITOR_ONLINE` event.
pub open spec fn visitor_online_json(online: int, timestamp: int) -> Seq<char> {
    "{\"online\":"@ + dec_digits(online) + ",\"timestamp\":"@ + dec_digits(timestamp) + "}"@
}

/// The payload of a `VISITOR_OFFLINE` event.
pub open spec fn visitor_offline_json(online: int, timestamp: int, session_id: Seq<char>) -> Seq<
    char,
> {
    "{\"online\":"@ + dec_digits(online) + ",\"timestamp\":"@ + dec_digits(timestamp)
        + ",\"sessionId\":"@ + json_string(session_id) + "}"@
}

/// The payload of an `ACTIVITY_JOIN_PRESENCE` event.
pub open spec fn join_presence_json(identity: Seq<char>, room: Seq<char>, joined_at: int) -> Seq<
    char,
> {
    "{\"identity\":"@ + json_string(identity) + ",\"roomName\":"@ + json_string(room)
        + ",\"joinedAt\":"@ + dec_digits(joined_at) + "}"@
}

/// The payload of an `ACTIVITY_LEAVE_PRESENCE` event.
pub open spec fn leave_presence_json(identity: Seq<char>, room: Seq<char>) -> Seq<char> {
    "{\"identity\":"@ + json_string(identity) + ",\"roomName\":"@ + json_string(room) + "}"@
}

/// The payload of an `ACTIVITY_UPDATE_PRESENCE` event; the display name and
/// position keys appear only when given.
pub open spec fn update_presence_json(
    identity: Seq<char>,
    room: Seq<char>,
    updated_at: int,
    display_name: Option<Seq<char>>,
    position: Option<u32>,
) -> Seq<char> {
    "{\"identity\":"@ + json_string(identity) + ",\"roomName\":"@ + json_string(room)
        + ",\"updatedAt\":"@ + dec_digits(updated_at) + (match display_name {
        Some(d) => ",\"displayName\":"@ + json_string(d),
        None => Seq::empty(),
    }) + (match position {
        Some(p) => ",\"position\":"@ + dec_digits(p as int),
        None => Seq::empty(),
    }) + "}"@
}

/// Appends `s` as a quoted JSON string literal.
pub fn append_json_string(out: &mut String, s: &str)
    ensures
        final(out)@ == old(out)@ + json_string(s@),
{
    out.append("\"");
    let esc = escape_str(s);
    out.append(esc.as_str());
    out.append("\"");
    proof {
        reveal_strlit("\"");
        assert(final(out)@ =~= old(out)@ + json_string(s@));
    }
}

/// `VISITOR_ONLINE` data: the online count and the moment of the reading.
pub struct VisitorOnlinePayload {
    pub online: usize,
    pub timestamp: u64,
}

impl VisitorOnlinePayload {
    /// This payload encoded as JSON.
    pub fn to_json(&self) -> (r: String)
        ensures
            r@ == visitor_online_json(self.online as int, self.timestamp as int),
    {
        let mut out = String::new();
        out.append("{\"online\":");
        let d1 = u64_to_dec(self.online as u64);
        out.append(d1.as_str());
        out.append(",\"timestamp\":");
        let d2 = u64_to_dec(self.timestamp);
        out.append(d2.as_str());
        out.append("}");
        proof {
            assert(out@ =~= visitor_online_json(self.online as int, self.timestamp as int));
        }
        out
    }
}

/// `VISITOR_OFFLINE` data: the count, the moment, and the session that left.
pub struct VisitorOfflinePayload {
    pub online: usize,
    pub timestamp: u64,
    pub session_id: String,
}

impl VisitorOfflinePayload {
    /// This payload encoded as JSON.
    pub fn to_json(&self) -> (r: String)
        ensures
            r@ == visitor_offline_json(
                self.online as int,
                self.timestamp as int,
                self.session_id@,
            ),
    {
        let mut out = String::new();
        out.append("{\"online\":");
        let d1 = u64_to_dec(self.online as u64);
        out.append(d1.as_str());
        out.append(",\"timestamp\":");
        let d2 = u64_to_dec(self.timestamp);
        out.append(d2.as_str());
        out.append(",\"sessionId\":");
        append_json_string(&mut out, self.session_id.as_str());
        out.append("}");
        proof {
            assert(out@ =~= visitor_offline_json(
                self.online as int,
                self.timestamp as int,
                self.session_id@,
            ));
        }
        out
    }
}

/// `ACTIVITY_JOIN_PRESENCE` data: who joined which room, and when.
pub struct JoinPresencePayload {
    pub identity: String,
    pub room_name: String,
    pub joined_at: u64,
}

impl JoinPresencePayload {
    /// This payload encoded as JSON.
    pub fn to_json(&self) -> (r: String)
        ensures
            r@ == join_presence_json(self.identity@, self.room_name@, self.joined_at as int),
    {
        let mut out = String::new();
        out.append("{\"identity\":");
        append_json_string(&mut out, self.identity.as_str());
        out.append(",\"roomName\":");
        append_json_string(&mut out, self.room_name.as_str());
        out.append(",\"joinedAt\":");
        let d = u64_to_dec(self.joined_at);
        out.append(d.as_str());
        out.append("}");
        proof {
            assert(out@ =~= join_presence_json(
                self.identity@,
                self.room_name@,
                self.joined_at as int,
            ));
        }
        out
    }
}

/// `ACTIVITY_LEAVE_PRESENCE` data: who left which room.
pub struct LeavePresencePayload {
    pub identity: String,
    pub room_name: String,
}

impl LeavePresencePayload {
    /// This payload encoded as JSON.
    pub fn to_json(&self) -> (r: String)
        ensures
            r@ == leave_presence_json(self.identity@, self.room_name@),
    {
        let mut out = String::new();
        out.append("{\"identity\":");
        append_json_string(&mut out, self.identity.as_str());
        out.append(",\"roomName\":");
        append_json_string(&mut out, self.room_name.as_str());
        out.append("}");
        proof {
            assert(out@ =~= leave_presence_json(self.identity@, self.room_name@));
        }
        out
    }
}

/// `ACTIVITY_UPDATE_PRESENCE` data: a presence touch with optional display
/// name and position.
pub struct UpdatePresencePayload {
    pub identity: String,
    pub room_name: String,
    pub updated_at: u64,
    pub display_name: Option<String>,
    pub position: Option<u32>,
}

impl UpdatePresencePayload {
    /// The display name's view, if one is set.
    pub open spec fn display_name_view(&self) -> Option<Seq<char>> {
        match self.display_name {
            Some(ref d) => Some(d@),
            None => None,
        }
    }

    /// This payload encoded as JSON.
    pub fn to_json(&self) -> (r: String)
        ensures
            r@ == update_presence_json(
                self.identity@,
                self.room_name@,
                self.updated_at as int,
                self.display_name_view(),
                self.position,
            ),
    {
        let mut out = String::new();
        out.append("{\"identity\":");
        append_json_string(&mut out, self.identity.as_str());
        out.append(",\"roomName\":");
        append_json_string(&mut out, self.room_name.as_str());
        out.append(",\"updatedAt\":");
        let d = u64_to_dec(self.updated_at);
        out.append(d.as_str());
        match &self.display_name {
            Some(name) => {
                out.append(",\"displayName\":");
                append_json_string(&mut out, name.as_str());
            },
            None => {},
        }
        match self.position {
            Some(p) => {
                out.append(",\"position\":");
                let dp = u64_to_dec(p as u64);
                out.append(dp.as_str());
            },
            None => {},
        }
        out.append("}");
        proof {
            assert(out@ =~= update_presence_json(
                self.identity@,
                self.room_name@,
                self.updated_at as int,
                self.display_name_view(),
                self.position,
            ));
        }
        out
    }
}

/// No event name holds a quote, a backslash or a control character, and none
/// is empty: the `type` field always reads back as the event name itself.
pub proof fn lemma_event_names_clean(kind: BusinessEvent)
    ensures
        event_name_spec(kind).len() > 0,
        forall|i: int|
            0 <= i < event_name_spec(kind).len() ==> (#[trigger] event_name_spec(kind)[i]) != '"'
                && event_name_spec(kind)[i] != '\\' && (event_name_spec(kind)[i] as u32) >= 0x20,
{
    reveal_strlit("GATEWAY_CONNECT");
    reveal_strlit("VISITOR_ONLINE");
    reveal_strlit("VISITOR_OFFLINE");
    reveal_strlit("ACTIVITY_JOIN_PRESENCE");
    reveal_strlit("ACTIVITY_UPDATE_PRESENCE");
    reveal_strlit("ACTIVITY_LEAVE_PRESENCE");
}

/// An envelope frame determines its event name and payload: two frames over
/// quote-free names agree only when name and payload agree. Every outbound
/// business event therefore parses back to exactly one `type` and one `data`.
pub proof fn lemma_envelope_unambiguous(
    t1: Seq<char>,
    d1: Seq<char>,
    t2: Seq<char>,
    d2: Seq<char>,
)
    requires
        forall|i: int| 0 <= i < t1.len() ==> (#[trigger] t1[i]) != '"',
        forall|i: int| 0 <= i < t2.len() ==> (#[trigger] t2[i]) != '"',
        envelope(t1, d1) == envelope(t2, d2),
    ensures
        t1 == t2,
        d1 == d2,
{
    let p = "{\"type\":\""@;
    let m = "\",\"data\":"@;
    let z = "}"@;
    reveal_strlit("{\"type\":\"");
    reveal_strlit("\",\"data\":");
    reveal_strlit("}");
    let e1 = envelope(t1, d1);
    let e2 = envelope(t2, d2);
    if t1.len() < t2.len() {
        // the closing quote of t1 would sit inside t2
        assert(e1[p.len() + t1.len() as int] == m[0]);
        assert(e2[p.len() + t1.len() as int] == t2[t1.len() as int]);
        assert(false);
    }
    if t2.len() < t1.len() {
        assert(e2[p.len() + t2.len() as int] == m[0]);
        assert(e1[p.len() + t2.len() as int] == t1[t2.len() as int]);
        assert(false);
    }
    assert(t1 =~= t2) by {
        assert forall|i: int| 0 <= i < t1.len() implies t1[i] == t2[i] by {
            assert(e1[p.len() + i as int] == t1[i]);
            assert(e2[p.len() + i as int] == t2[i]);
        }
    }
    assert(e1.len() == e2.len());
    assert(e1.len() == p.len() + t1.len() + m.len() + d1.len() + z.len());
    assert(e2.len() == p.len() + t2.len() + m.len() + d2.len() + z.len());
    assert(d1.len() == d2.len());
    assert(d1 =~= d2) by {
        assert forall|i: int| 0 <= i < d1.len() implies d1[i] == d2[i] by {
            assert(e1[(p.len() + t1.len() + m.len()) as int + i] == d1[i]);
            assert(e2[(p.len() + t2.len() + m.len()) as int + i] == d2[i]);
        }
    }
}

} // verus!
