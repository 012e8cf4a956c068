//! The WebSocket session lifecycle, as decisions on plain values: admission
//! of an upgrade, the session-id fallback, the inbound frame grammar, the
//! outbound frames, and the decision table of the running loop. The I/O shell
//! performs each returned action in order.
use vstd::prelude::*;

use crate::events::{dec_digits, envelope, format_message, u64_to_dec, BusinessEvent};
use crate::events::{
    event_name_spec, join_presence_json, leave_presence_json, visitor_offline_json,
    visitor_online_json, JoinPresencePayload, LeavePresencePayload, VisitorOfflinePayload,
    VisitorOnlinePayload,
};
use crate::origin::{allowed_spec, origin_allowed};
use crate::strutil::{is_sp, str_eq};

verus! {

/// A character a room name may carry: ASCII letters and digits, and the
/// punctuation `_ . / : @ -`.
pub open spec fn is_room_char(c: char) -> bool {
    ||| ('a' <= c && c <= 'z')
    ||| ('A' <= c && c <= 'Z')
    ||| ('0' <= c && c <= '9')
    ||| c == '_'
    ||| c == '.'
    ||| c == '/'
    ||| c == ':'
    ||| c == '@'
    ||| c == '-'
}

/// A valid room name: one to 256 characters from the room alphabet.
pub open spec fn is_valid_room_spec(s: Seq<char>) -> bool {
    &&& 1 <= s.len() <= 256
    &&& forall|i: int| 0 <= i < s.len() ==> is_room_char(#[trigger] s[i])
}

/// Is `room` a name the gateway accepts?
pub fn is_valid_room(room: &str) -> (r: bool)
    ensures
        r == is_valid_room_spec(room@),
{
    let n = room.unicode_len();
    if n == 0 || n > 256 {
        return false;
    }
    let mut i: usize = 0;
    while i < n
        invariant
            i <= n,
            n == room@.len(),
            forall|j: int| 0 <= j < i ==> is_room_char(#[trigger] room@[j]),
        decreases n - i,
    {
        let c = room.get_char(i);
        let ok = (c >= 'a' && c <= 'z') || (c >= 'A' && c <= 'Z') || (c >= '0' && c <= '9') || c
            == '_' || c == '.' || c == '/' || c == ':' || c == '@' || c == '-';
        if !ok {
            return false;
        }
        i = i + 1;
    }
    true
}

/// The session id a connection runs under: the header value when present and
/// non-empty, else the query value, else the connection's own identity.
pub open spec fn effective_session_spec(
    header: Option<Seq<char>>,
    query: Option<Seq<char>>,
    sid: Seq<char>,
) -> Seq<char> {
    match header {
        Some(h) => if h.len() > 0 {
            h
        } else {
            match query {
                Some(q) => q,
                None => sid,
            }
        },
        None => match query {
            Some(q) => q,
            None => sid,
        },
    }
}

/// Pick the session id for a connection, falling back to its identity.
pub fn effective_session_id(header: Option<&String>, query: Option<&String>, sid: &str) -> (r:
    String)
    ensures
        r@ == effective_session_spec(
            match header {
                Some(h) => Some(h@),
                None => None,
            },
            match query {
                Some(q) => Some(q@),
                None => None,
            },
            sid@,
        ),
{
    match header {
        Some(h) => {
            if h.as_str().unicode_len() > 0 {
                return h.clone();
            }
        },
        None => {},
    }
    match query {
        Some(q) => q.clone(),
        None => sid.to_owned(),
    }
}

/// The query of a room upgrade: the room to join and an optional visitor
/// session id.
pub struct WsQuery {
    pub room: String,
    pub socket_session_id: Option<String>,
}

/// The query of a web upgrade: only the optional visitor session id.
pub struct WebQuery {
    pub socket_session_id: Option<String>,
}

/// The admission verdict on a room upgrade request.
pub enum Admission {
    /// Upgrade may proceed.
    Admit,
    /// The room name is malformed: answer 400 and do not upgrade.
    InvalidRoom,
    /// The origin policy rejects the request: answer 403 and do not upgrade.
    Forbidden,
}

/// What admission decides: an invalid room name fails first; then, when a
/// non-empty whitelist is configured, the origin policy must admit.
pub open spec fn admission_spec(
    room: Seq<char>,
    origin: Option<Seq<char>>,
    whitelist: Option<Seq<Seq<char>>>,
) -> Admission {
    if !is_valid_room_spec(room) {
        Admission::InvalidRoom
    } else {
        match whitelist {
            Some(wl) => if wl.len() > 0 && !allowed_spec(origin, wl) {
                Admission::Forbidden
            } else {
                Admission::Admit
            },
            None => Admission::Admit,
        }
    }
}

/// Decide whether a room upgrade may proceed.
pub fn admit_room_ws(room: &str, origin: Option<&String>, whitelist: Option<&Vec<String>>) -> (r:
    Admission)
    ensures
        r == admission_spec(
            room@,
            match origin {
                Some(o) => Some(o@),
                None => None,
            },
            match whitelist {
                Some(wl) => Some(wl@.map_values(|w: String| w@)),
                None => None,
            },
        ),
{
    if !is_valid_room(room) {
        return Admission::InvalidRoom;
    }
    match whitelist {
        Some(wl) => {
            if wl.len() > 0 && !origin_allowed(origin, wl) {
                Admission::Forbidden
            } else {
                Admission::Admit
            }
        },
        None => Admission::Admit,
    }
}

/// The first outbound frame of a room session.
pub open spec fn hello_json_spec(sid: Seq<char>, ttl_secs: int, count: int) -> Seq<char> {
    "{\"type\":\"hello\",\"sid\":\""@ + crate::events::json_escape(sid) + "\",\"ttl\":"@
        + dec_digits(ttl_secs) + ",\"count\":"@ + dec_digits(count) + "}"@
}

/// The hello frame: the fresh identity, the room TTL in seconds, and the
/// room's effective count at join.
pub fn hello_json(sid: &str, ttl_secs: u64, count: usize) -> (r: String)
    ensures
        r@ == hello_json_spec(sid@, ttl_secs as int, count as int),
{
    let mut out = String::new();
    out.append("{\"type\":\"hello\",\"sid\":\"");
    let esc = crate::events::escape_str(sid);
    out.append(esc.as_str());
    out.append("\",\"ttl\":");
    let d1 = u64_to_dec(ttl_secs);
    out.append(d1.as_str());
    out.append(",\"count\":");
    let d2 = u64_to_dec(count as u64);
    out.append(d2.as_str());
    out.append("}");
    proof {
        assert(out@ =~= hello_json_spec(sid@, ttl_secs as int, count as int));
    }
    out
}

/// A count-update frame.
pub open spec fn sync_json_spec(count: int) -> Seq<char> {
    "{\"type\":\"sync\",\"count\":"@ + dec_digits(count) + "}"@
}

/// The frame sent when the room's count latch moves.
pub fn sync_json(count: usize) -> (r: String)
    ensures
        r@ == sync_json_spec(count as int),
{
    let mut out = String::new();
    out.append("{\"type\":\"sync\",\"count\":");
    let d = u64_to_dec(count as u64);
    out.append(d.as_str());
    out.append("}");
    proof {
        assert(out@ =~= sync_json_spec(count as int));
    }
    out
}

/// The join broadcast for a room, ready for the room's event bus.
pub fn join_event_json(identity: &str, room: &str, joined_at_ms: u64) -> (r: String)
    ensures
        r@ == envelope(
            event_name_spec(BusinessEvent::ActivityJoinPresence),
            join_presence_json(identity@, room@, joined_at_ms as int),
        ),
{
    let payload = JoinPresencePayload {
        identity: identity.to_owned(),
        room_name: room.to_owned(),
        joined_at: joined_at_ms,
    };
    let data = payload.to_json();
    format_message(BusinessEvent::ActivityJoinPresence, data.as_str())
}

/// The leave broadcast for a room, published after the member is removed.
pub fn leave_event_json(identity: &str, room: &str) -> (r: String)
    ensures
        r@ == envelope(
            event_name_spec(BusinessEvent::ActivityLeavePresence),
            leave_presence_json(identity@, room@),
        ),
{
    let payload = LeavePresencePayload {
        identity: identity.to_owned(),
        room_name: room.to_owned(),
    };
    let data = payload.to_json();
    format_message(BusinessEvent::ActivityLeavePresence, data.as_str())
}

/// The global online-count event for web listeners.
pub fn visitor_online_event_json(online: usize, timestamp_ms: u64) -> (r: String)
    ensures
        r@ == envelope(
            event_name_spec(BusinessEvent::VisitorOnline),
            visitor_online_json(online as int, timestamp_ms as int),
        ),
{
    let payload = VisitorOnlinePayload { online, timestamp: timestamp_ms };
    let data = payload.to_json();
    format_message(BusinessEvent::VisitorOnline, data.as_str())
}

/// The global offline event carrying the leaving session id.
pub fn visitor_offline_event_json(online: usize, timestamp_ms: u64, session_id: &str) -> (r:
    String)
    ensures
        r@ == envelope(
            event_name_spec(BusinessEvent::VisitorOffline),
            visitor_offline_json(online as int, timestamp_ms as int, session_id@),
        ),
{
    let payload = VisitorOfflinePayload {
        online,
        timestamp: timestamp_ms,
        session_id: session_id.to_owned(),
    };
    let data = payload.to_json();
    format_message(BusinessEvent::VisitorOffline, data.as_str())
}

/// The first index at or after `i` that holds no whitespace.
pub open spec fn ws_end(s: Seq<char>, i: int) -> int
    decreases s.len() - i,
{
    if 0 <= i < s.len() && is_sp(s[i]) {
        ws_end(s, i + 1)
    } else {
        i
    }
}

proof fn lemma_ws_end_bounds(s: Seq<char>, i: int)
    requires
        0 <= i <= s.len(),
    ensures
        i <= ws_end(s, i) <= s.len(),
    decreases s.len() - i,
{
    if i < s.len() && is_sp(s[i]) {
        lemma_ws_end_bounds(s, i + 1);
    }
}

fn ws_end_x(s: &str, i: usize) -> (r: usize)
    requires
        i <= s@.len(),
    ensures
        r == ws_end(s@, i as int),
        i <= r <= s@.len(),
{
    let n = s.unicode_len();
    let mut r = i;
    while r < n
        invariant
            i <= r <= n,
            n == s@.len(),
            ws_end(s@, i as int) == ws_end(s@, r as int),
        ensures
            i <= r <= n,
            n == s@.len(),
            ws_end(s@, i as int) == ws_end(s@, r as int),
            r == n || !is_sp(s@[r as int]),
        decreases n - r,
    {
        let c = s.get_char(r);
        if !(c == ' ' || c == '\t' || c == '\n' || c == '\r') {
            break ;
        }
        r = r + 1;
    }
    r
}

/// Is `e` one of the short escapes allowed after a backslash?
pub open spec fn is_short_escape(e: char) -> bool {
    e == '"' || e == '\\' || e == '/' || e == 'b' || e == 'f' || e == 'n' || e == 'r' || e == 't'
}

/// The character a short escape denotes.
pub open spec fn short_escape_char(e: char) -> char {
    if e == '"' {
        '"'
    } else if e == '\\' {
        '\\'
    } else if e == '/' {
        '/'
    } else if e == 'b' {
        '\u{08}'
    } else if e == 'f' {
        '\u{0c}'
    } else if e == 'n' {
        '\n'
    } else if e == 'r' {
        '\r'
    } else {
        '\t'
    }
}

fn unescape_char(e: char) -> (r: Option<&'static str>)
    ensures
        match r {
            Some(p) => is_short_escape(e) && p@ == seq![short_escape_char(e)],
            None => !is_short_escape(e),
        },
{
    if e == '"' {
        proof {
            reveal_strlit("\"");
        }
        return Some("\"");
    }
    if e == '\\' {
        proof {
            reveal_strlit("\\");
        }
        return Some("\\");
    }
    if e == '/' {
        proof {
            reveal_strlit("/");
        }
        return Some("/");
    }
    if e == 'b' {
        proof {
            reveal_strlit("\u{08}");
        }
        return Some("\u{08}");
    }
    if e == 'f' {
        proof {
            reveal_strlit("\u{0c}");
        }
        return Some("\u{0c}");
    }
    if e == 'n' {
        proof {
            reveal_strlit("\n");
        }
        return Some("\n");
    }
    if e == 'r' {
        proof {
            reveal_strlit("\r");
        }
        return Some("\r");
    }
    if e == 't' {
        proof {
            reveal_strlit("\t");
        }
        return Some("\t");
    }
    None
}

/// A JSON string body starting at `i` (just past the opening quote): its
/// decoded characters and the index past the closing quote. Unicode escapes
/// are not decoded here; a string using them is passed over undecoded.
pub open spec fn scan_string(s: Seq<char>, i: int) -> Option<(Seq<char>, int)>
    decreases s.len() - i,
{
    if i < 0 || i >= s.len() {
        None
    } else if s[i] == '"' {
        Some((Seq::empty(), i + 1))
    } else if s[i] == '\\' {
        if i + 1 < s.len() && is_short_escape(s[i + 1]) {
            match scan_string(s, i + 2) {
                Some((v, j)) => Some((seq![short_escape_char(s[i + 1])] + v, j)),
                None => None,
            }
        } else {
            None
        }
    } else {
        match scan_string(s, i + 1) {
            Some((v, j)) => Some((seq![s[i]] + v, j)),
            None => None,
        }
    }
}

proof fn lemma_scan_string_bounds(s: Seq<char>, i: int)
    requires
        0 <= i,
    ensures
        match scan_string(s, i) {
            Some((v, j)) => i < j <= s.len(),
            None => true,
        },
    decreases s.len() - i,
{
    if 0 <= i < s.len() {
        if s[i] == '\\' {
            if i + 1 < s.len() && is_short_escape(s[i + 1]) {
                lemma_scan_string_bounds(s, i + 2);
            }
        } else if s[i] != '"' {
            lemma_scan_string_bounds(s, i + 1);
        }
    }
}

fn scan_string_x(s: &str, i: usize) -> (r: Option<(String, usize)>)
    requires
        i <= s@.len(),
    ensures
        match r {
            Some(p) => scan_string(s@, i as int) == Some((p.0@, p.1 as int)) && i < p.1
                <= s@.len(),
            None => scan_string(s@, i as int) is None,
        },
    decreases s@.len() - i,
{
    proof {
        lemma_scan_string_bounds(s@, i as int);
    }
    let n = s.unicode_len();
    if i == n {
        return None;
    }
    let c = s.get_char(i);
    if c == '"' {
        return Some((String::new(), i + 1));
    }
    if c == '\\' {
        if i + 1 < n {
            let e = s.get_char(i + 1);
            match unescape_char(e) {
                Some(piece) => {
                    match scan_string_x(s, i + 2) {
                        Some(rest) => {
                            let mut out = piece.to_owned();
                            out.append(rest.0.as_str());
                            proof {
                                assert(out@ =~= seq![short_escape_char(s@[i + 1])] + rest.0@);
                            }
                            return Some((out, rest.1));
                        },
                        None => {
                            return None;
                        },
                    }
                },
                None => {
                    return None;
                },
            }
        } else {
            return None;
        }
    }
    let piece = s.substring_char(i, i + 1);
    match scan_string_x(s, i + 1) {
        Some(rest) => {
            let mut out = piece.to_owned();
            out.append(rest.0.as_str());
            proof {
                assert(piece@ =~= seq![s@[i as int]]);
                assert(out@ =~= seq![s@[i as int]] + rest.0@);
            }
            Some((out, rest.1))
        },
        None => None,
    }
}

/// The end of a bare scalar starting at `i`: the first comma, closing brace
/// or whitespace.
pub open spec fn scalar_end(s: Seq<char>, i: int) -> int
    decreases s.len() - i,
{
    if 0 <= i < s.len() && !(s[i] == ',' || s[i] == '}' || is_sp(s[i])) {
        scalar_end(s, i + 1)
    } else {
        i
    }
}

proof fn lemma_scalar_end_bounds(s: Seq<char>, i: int)
    requires
        0 <= i <= s.len(),
    ensures
        i <= scalar_end(s, i) <= s.len(),
    decreases s.len() - i,
{
    if i < s.len() && !(s[i] == ',' || s[i] == '}' || is_sp(s[i])) {
        lemma_scalar_end_bounds(s, i + 1);
    }
}

fn scalar_end_x(s: &str, i: usize) -> (r: usize)
    requires
        i <= s@.len(),
    ensures
        r == scalar_end(s@, i as int),
        i <= r <= s@.len(),
{
    let n = s.unicode_len();
    let mut r = i;
    while r < n
        invariant
            i <= r <= n,
            n == s@.len(),
            scalar_end(s@, i as int) == scalar_end(s@, r as int),
        ensures
            i <= r <= n,
            n == s@.len(),
            scalar_end(s@, i as int) == scalar_end(s@, r as int),
            r == n || s@[r as int] == ',' || s@[r as int] == '}' || is_sp(s@[r as int]),
        decreases n - r,
    {
        let c = s.get_char(r);
        if c == ',' || c == '}' || c == ' ' || c == '\t' || c == '\n' || c == '\r' {
            break ;
        }
        r = r + 1;
    }
    r
}

/// The index past a JSON string body starting at `i` (just past the opening
/// quote), without decoding: a backslash hides the next character, whatever
/// it is, so any escape — unicode escapes included — is passed over.
pub open spec fn skip_string(s: Seq<char>, i: int) -> Option<int>
    decreases s.len() - i,
{
    if i < 0 || i >= s.len() {
        None
    } else if s[i] == '"' {
        Some(i + 1)
    } else if s[i] == '\\' {
        if i + 1 < s.len() {
            skip_string(s, i + 2)
        } else {
            None
        }
    } else {
        skip_string(s, i + 1)
    }
}

proof fn lemma_skip_string_bounds(s: Seq<char>, i: int)
    requires
        0 <= i,
    ensures
        match skip_string(s, i) {
            Some(j) => i < j <= s.len(),
            None => true,
        },
    decreases s.len() - i,
{
    if 0 <= i < s.len() {
        if s[i] == '\\' {
            if i + 1 < s.len() {
                lemma_skip_string_bounds(s, i + 2);
            }
        } else if s[i] != '"' {
            lemma_skip_string_bounds(s, i + 1);
        }
    }
}

fn skip_string_x(s: &str, i: usize) -> (r: Option<usize>)
    requires
        i <= s@.len(),
    ensures
        match r {
            Some(j) => skip_string(s@, i as int) == Some(j as int) && i < j <= s@.len(),
            None => skip_string(s@, i as int) is None,
        },
    decreases s@.len() - i,
{
    proof {
        lemma_skip_string_bounds(s@, i as int);
    }
    let n = s.unicode_len();
    if i == n {
        return None;
    }
    let c = s.get_char(i);
    if c == '"' {
        Some(i + 1)
    } else if c == '\\' {
        if i + 1 < n {
            skip_string_x(s, i + 2)
        } else {
            None
        }
    } else {
        skip_string_x(s, i + 1)
    }
}

/// The index past a nested object or array whose opening bracket sits just
/// before `i`: brackets of either kind are counted, strings are passed over
/// whole so brackets inside them do not count. `fuel` bounds the scan; the
/// string's length always suffices.
pub open spec fn skip_composite(s: Seq<char>, i: int, depth: nat, fuel: nat) -> Option<int>
    decreases fuel,
{
    if fuel == 0 || i < 0 || i >= s.len() {
        None
    } else if s[i] == '"' {
        match skip_string(s, i + 1) {
            Some(j) => skip_composite(s, j, depth, (fuel - 1) as nat),
            None => None,
        }
    } else if s[i] == '{' || s[i] == '[' {
        skip_composite(s, i + 1, depth + 1, (fuel - 1) as nat)
    } else if s[i] == '}' || s[i] == ']' {
        if depth == 1 {
            Some(i + 1)
        } else {
            skip_composite(s, i + 1, (depth - 1) as nat, (fuel - 1) as nat)
        }
    } else {
        skip_composite(s, i + 1, depth, (fuel - 1) as nat)
    }
}

fn skip_composite_x(s: &str, i: usize, depth: usize, fuel: u64) -> (r: Option<usize>)
    requires
        i <= s@.len(),
        1 <= depth <= i,
    ensures
        match r {
            Some(j) => skip_composite(s@, i as int, depth as nat, fuel as nat) == Some(j as int)
                && i < j <= s@.len(),
            None => skip_composite(s@, i as int, depth as nat, fuel as nat) is None,
        },
    decreases fuel,
{
    let n = s.unicode_len();
    if fuel == 0 || i == n {
        return None;
    }
    let c = s.get_char(i);
    if c == '"' {
        match skip_string_x(s, i + 1) {
            Some(j) => skip_composite_x(s, j, depth, fuel - 1),
            None => None,
        }
    } else if c == '{' || c == '[' {
        skip_composite_x(s, i + 1, depth + 1, fuel - 1)
    } else if c == '}' || c == ']' {
        if depth == 1 {
            Some(i + 1)
        } else {
            skip_composite_x(s, i + 1, depth - 1, fuel - 1)
        }
    } else {
        skip_composite_x(s, i + 1, depth, fuel - 1)
    }
}

/// A member value starting at `i` and the index just past it. A string that
/// decodes yields its characters; a string outside the decoded escape set,
/// a nested object or array, and a bare scalar are passed over and yield
/// nothing.
pub open spec fn scan_value(s: Seq<char>, i: int) -> Option<(Option<Seq<char>>, int)> {
    if 0 <= i < s.len() && s[i] == '"' {
        match scan_string(s, i + 1) {
            Some((v, j)) => Some((Some(v), j)),
            None => match skip_string(s, i + 1) {
                Some(j) => Some((None, j)),
                None => None,
            },
        }
    } else if 0 <= i < s.len() && (s[i] == '{' || s[i] == '[') {
        match skip_composite(s, i + 1, 1, s.len() as nat) {
            Some(j) => Some((None, j)),
            None => None,
        }
    } else {
        let e = scalar_end(s, i);
        if 0 <= i && e > i {
            Some((None, e))
        } else {
            None
        }
    }
}

fn scan_value_x(s: &str, i: usize) -> (r: Option<(Option<String>, usize)>)
    requires
        i <= s@.len(),
    ensures
        match r {
            Some(p) => scan_value(s@, i as int) == Some(
                (
                    match p.0 {
                        Some(ref v) => Some(v@),
                        None => None,
                    },
                    p.1 as int,
                ),
            ) && i < p.1 <= s@.len(),
            None => scan_value(s@, i as int) is None,
        },
{
    let n = s.unicode_len();
    if i < n {
        let c = s.get_char(i);
        if c == '"' {
            return match scan_string_x(s, i + 1) {
                Some(p) => Some((Some(p.0), p.1)),
                None => match skip_string_x(s, i + 1) {
                    Some(j) => Some((None, j)),
                    None => None,
                },
            };
        }
        if c == '{' || c == '[' {
            return match skip_composite_x(s, i + 1, 1, n as u64) {
                Some(j) => Some((None, j)),
                None => None,
            };
        }
    }
    let e = scalar_end_x(s, i);
    if e > i {
        Some((None, e))
    } else {
        None
    }
}

/// The members of a JSON object from `i` on: each key with its decoded
/// string value (or nothing where the value is no decodable string), and
/// the index just past the closing brace. `fuel` bounds the recursion; one
/// unit is spent per member.
pub open spec fn scan_members(s: Seq<char>, i: int, fuel: nat) -> Option<
    (Seq<(Seq<char>, Option<Seq<char>>)>, int),
>
    decreases fuel,
{
    if fuel == 0 {
        None
    } else if 0 <= i < s.len() && s[i] == '"' {
        match scan_string(s, i + 1) {
            Some((k, j)) => {
                let j2 = ws_end(s, j);
                if j2 < s.len() && s[j2] == ':' {
                    let j3 = ws_end(s, j2 + 1);
                    match scan_value(s, j3) {
                        Some((v, j4)) => {
                            let j5 = ws_end(s, j4);
                            if j5 < s.len() && s[j5] == ',' {
                                let j6 = ws_end(s, j5 + 1);
                                match scan_members(s, j6, (fuel - 1) as nat) {
                                    Some((rest, j7)) => Some((seq![(k, v)] + rest, j7)),
                                    None => None,
                                }
                            } else if j5 < s.len() && s[j5] == '}' {
                                Some((seq![(k, v)], j5 + 1))
                            } else {
                                None
                            }
                        },
                        None => None,
                    }
                } else {
                    None
                }
            },
            None => None,
        }
    } else {
        None
    }
}

/// The view of parsed member pairs.
pub open spec fn pairs_view(ps: Seq<(String, Option<String>)>) -> Seq<
    (Seq<char>, Option<Seq<char>>),
> {
    ps.map_values(
        |p: (String, Option<String>)| (
            p.0@,
            match p.1 {
                Some(v) => Some(v@),
                None => None,
            },
        ),
    )
}

fn scan_members_x(s: &str, i: usize, fuel: u64) -> (r: Option<
    (Vec<(String, Option<String>)>, usize),
>)
    requires
        i <= s@.len(),
    ensures
        match r {
            Some(p) => scan_members(s@, i as int, fuel as nat) == Some(
                (pairs_view(p.0@), p.1 as int),
            ) && p.1 <= s@.len(),
            None => scan_members(s@, i as int, fuel as nat) is None,
        },
    decreases fuel,
{
    if fuel == 0 {
        return None;
    }
    let n = s.unicode_len();
    if !(i < n && s.get_char(i) == '"') {
        return None;
    }
    let (k, j) = match scan_string_x(s, i + 1) {
        Some(p) => p,
        None => {
            return None;
        },
    };
    let j2 = ws_end_x(s, j);
    if !(j2 < n && s.get_char(j2) == ':') {
        return None;
    }
    let j3 = ws_end_x(s, j2 + 1);
    let (v, j4) = match scan_value_x(s, j3) {
        Some(p) => p,
        None => {
            return None;
        },
    };
    let j5 = ws_end_x(s, j4);
    if j5 < n && s.get_char(j5) == ',' {
        let j6 = ws_end_x(s, j5 + 1);
        match scan_members_x(s, j6, fuel - 1) {
            Some(p) => {
                let (mut rest, j7) = p;
                let mut out: Vec<(String, Option<String>)> = Vec::new();
                out.push((k, v));
                out.append(&mut rest);
                proof {
                    assert(pairs_view(out@) =~= seq![
                        (
                            k@,
                            match v {
                                Some(ref x) => Some(x@),
                                None => None,
                            },
                        ),
                    ] + pairs_view(p.0@));
                }
                Some((out, j7))
            },
            None => None,
        }
    } else if j5 < n && s.get_char(j5) == '}' {
        let mut out: Vec<(String, Option<String>)> = Vec::new();
        out.push((k, v));
        proof {
            assert(pairs_view(out@) =~= seq![
                (
                    k@,
                    match v {
                        Some(ref x) => Some(x@),
                        None => None,
                    },
                ),
            ]);
        }
        Some((out, j5 + 1))
    } else {
        None
    }
}

/// The inbound frame grammar: a whole text frame read as one JSON object.
/// Members are read at the top level; nested values are passed over whole.
pub open spec fn flat_object_spec(s: Seq<char>) -> Option<
    Seq<(Seq<char>, Option<Seq<char>>)>,
> {
    let i = ws_end(s, 0);
    if i < s.len() && s[i] == '{' {
        let j = ws_end(s, i + 1);
        if j < s.len() && s[j] == '}' {
            if ws_end(s, j + 1) == s.len() {
                Some(Seq::empty())
            } else {
                None
            }
        } else {
            match scan_members(s, j, s.len()) {
                Some((ps, k)) => if ws_end(s, k) == s.len() {
                    Some(ps)
                } else {
                    None
                },
                None => None,
            }
        }
    } else {
        None
    }
}

fn flat_object_x(s: &str) -> (r: Option<Vec<(String, Option<String>)>>)
    ensures
        match r {
            Some(ps) => flat_object_spec(s@) == Some(pairs_view(ps@)),
            None => flat_object_spec(s@) is None,
        },
{
    let n = s.unicode_len();
    let i = ws_end_x(s, 0);
    if !(i < n && s.get_char(i) == '{') {
        return None;
    }
    let j = ws_end_x(s, i + 1);
    if j < n && s.get_char(j) == '}' {
        if ws_end_x(s, j + 1) == n {
            let empty: Vec<(String, Option<String>)> = Vec::new();
            proof {
                assert(pairs_view(empty@) =~= Seq::<(Seq<char>, Option<Seq<char>>)>::empty());
            }
            return Some(empty);
        } else {
            return None;
        }
    }
    match scan_members_x(s, j, n as u64) {
        Some(p) => {
            if ws_end_x(s, p.1) == n {
                Some(p.0)
            } else {
                None
            }
        },
        None => None,
    }
}

/// The first member under `key`: its string value, or nothing where the
/// first such member holds a bare scalar.
pub open spec fn first_val(
    ps: Seq<(Seq<char>, Option<Seq<char>>)>,
    key: Seq<char>,
) -> Option<Option<Seq<char>>>
    decreases ps.len(),
{
    if ps.len() == 0 {
        None
    } else if ps[0].0 == key {
        Some(ps[0].1)
    } else {
        first_val(ps.drop_first(), key)
    }
}

fn first_val_x(ps: &Vec<(String, Option<String>)>, key: &str) -> (r: Option<Option<String>>)
    ensures
        match r {
            Some(Some(v)) => first_val(pairs_view(ps@), key@) == Some(Some(v@)),
            Some(None) => first_val(pairs_view(ps@), key@) == Some(
                None::<Seq<char>>,
            ),
            None => first_val(pairs_view(ps@), key@) is None,
        },
{
    let ghost full = pairs_view(ps@);
    let n = ps.len();
    let mut i: usize = 0;
    proof {
        assert(full.skip(0) =~= full);
    }
    while i < n
        invariant
            i <= n,
            n == ps@.len(),
            full == pairs_view(ps@),
            first_val(full, key@) == first_val(full.skip(i as int), key@),
        decreases n - i,
    {
        proof {
            assert(full.skip(i as int)[0] == full[i as int]);
            assert(full.skip(i as int).drop_first() =~= full.skip(i + 1));
        }
        if str_eq(ps[i].0.as_str(), key) {
            return match &ps[i].1 {
                Some(v) => Some(Some(v.clone())),
                None => Some(None),
            };
        }
        i = i + 1;
    }
    proof {
        assert(full.skip(n as int) =~= Seq::<(Seq<char>, Option<Seq<char>>)>::empty());
    }
    None
}

/// Does the frame read as a heartbeat?
pub open spec fn inbound_hb_spec(s: Seq<char>) -> bool {
    match flat_object_spec(s) {
        Some(ps) => first_val(ps, "type"@) == Some(Some("hb"@)),
        None => false,
    }
}

/// The session id an `updateSid` frame carries, if the frame is one.
pub open spec fn inbound_update_sid_spec(s: Seq<char>) -> Option<Seq<char>> {
    match flat_object_spec(s) {
        Some(ps) => if first_val(ps, "type"@) == Some(Some("updateSid"@)) {
            match first_val(ps, "sessionId"@) {
                Some(Some(v)) => Some(v),
                _ => None,
            }
        } else {
            None
        },
        None => None,
    }
}

/// An inbound text frame, classified.
pub enum InboundMsg {
    /// `{"type":"hb"}`: refresh the member's heartbeat.
    Hb,
    /// `{"type":"updateSid","sessionId":...}`: adopt this session id.
    UpdateSid(String),
    /// Anything else, malformed frames included: ignored.
    Other,
}

/// Read one inbound text frame. Unknown types, values that are no decodable
/// string where one is needed, and frames outside the grammar all land on
/// `Other`.
pub fn classify_inbound(t: &str) -> (r: InboundMsg)
    ensures
        match r {
            InboundMsg::Hb => inbound_hb_spec(t@),
            InboundMsg::UpdateSid(v) => inbound_update_sid_spec(t@) == Some(v@) && !inbound_hb_spec(
                t@,
            ),
            InboundMsg::Other => !inbound_hb_spec(t@) && inbound_update_sid_spec(t@) is None,
        },
{
    let ps = match flat_object_x(t) {
        Some(ps) => ps,
        None => {
            return InboundMsg::Other;
        },
    };
    match first_val_x(&ps, "type") {
        Some(Some(tv)) => {
            if str_eq(tv.as_str(), "hb") {
                InboundMsg::Hb
            } else if str_eq(tv.as_str(), "updateSid") {
                match first_val_x(&ps, "sessionId") {
                    Some(Some(sv)) => InboundMsg::UpdateSid(sv),
                    _ => InboundMsg::Other,
                }
            } else {
                InboundMsg::Other
            }
        },
        _ => InboundMsg::Other,
    }
}

/// One wakeup of a running session's multiplexing loop.
pub enum SessionEvent {
    /// An inbound text frame.
    Text(String),
    /// An inbound binary frame: ignored.
    Binary,
    /// A protocol ping from the peer: the transport answers it.
    PingFrame,
    /// A protocol pong: ignored.
    PongFrame,
    /// The peer closed.
    CloseFrame,
    /// Reading failed.
    ReadError,
    /// The inbound stream ended.
    StreamEnd,
    /// The count latch moved to this value.
    CountChanged(usize),
    /// The count latch closed.
    CountClosed,
    /// The event bus handed this pre-serialized frame on.
    BusEvent(String),
    /// The event bus dropped old messages for this slow reader: the session
    /// goes on, only those messages are lost.
    BusLagged,
    /// The event bus closed.
    BusClosed,
    /// The ping timer fired.
    PingTick,
}

/// What the loop does in response to one wakeup, in order.
pub enum SessionAction {
    /// Refresh this member's heartbeat in the room, at the present instant.
    Heartbeat,
    /// Store this session id for the connection's identity.
    SetSession(String),
    /// Recompute the global unique-session count and publish it.
    RecountOnline,
    /// Send this text frame to the peer.
    SendText(String),
    /// Send a protocol ping to the peer.
    SendPing,
}

/// The decision table of a room session's running loop: what to do on one
/// wakeup, and whether the loop goes on. A heartbeat touches only the room;
/// a session-id update also recounts the online total; count changes become
/// `sync` frames; bus events are forwarded verbatim; close, error, stream
/// end and closed channels end the loop.
pub fn room_session_step(e: SessionEvent) -> (r: (Vec<SessionAction>, bool))
    ensures
        match e {
            SessionEvent::Text(t) => r.1 && (if inbound_hb_spec(t@) {
                r.0@.len() == 1 && r.0@[0] == SessionAction::Heartbeat
            } else if inbound_update_sid_spec(t@) is Some {
                r.0@.len() == 2 && (r.0@[0] matches SessionAction::SetSession(v) && v@
                    == inbound_update_sid_spec(t@)->0) && r.0@[1]
                    == SessionAction::RecountOnline
            } else {
                r.0@.len() == 0
            }),
            SessionEvent::Binary => r.1 && r.0@.len() == 0,
            SessionEvent::PingFrame => r.1 && r.0@.len() == 0,
            SessionEvent::PongFrame => r.1 && r.0@.len() == 0,
            SessionEvent::CloseFrame => !r.1 && r.0@.len() == 0,
            SessionEvent::ReadError => !r.1 && r.0@.len() == 0,
            SessionEvent::StreamEnd => !r.1 && r.0@.len() == 0,
            SessionEvent::CountChanged(n) => r.1 && r.0@.len() == 1 && (r.0@[0] matches
                SessionAction::SendText(f) && f@ == sync_json_spec(n as int)),
            SessionEvent::CountClosed => !r.1 && r.0@.len() == 0,
            SessionEvent::BusEvent(p) => r.1 && r.0@.len() == 1 && (r.0@[0] matches
                SessionAction::SendText(f) && f@ == p@),
            SessionEvent::BusLagged => r.1 && r.0@.len() == 0,
            SessionEvent::BusClosed => !r.1 && r.0@.len() == 0,
            SessionEvent::PingTick => r.1 && r.0@.len() == 1 && r.0@[0]
                == SessionAction::SendPing,
        },
{
    let mut acts: Vec<SessionAction> = Vec::new();
    match e {
        SessionEvent::Text(t) => {
            match classify_inbound(t.as_str()) {
                InboundMsg::Hb => {
                    acts.push(SessionAction::Heartbeat);
                },
                InboundMsg::UpdateSid(v) => {
                    acts.push(SessionAction::SetSession(v));
                    acts.push(SessionAction::RecountOnline);
                },
                InboundMsg::Other => {},
            }
            (acts, true)
        },
        SessionEvent::Binary | SessionEvent::PingFrame | SessionEvent::PongFrame
            | SessionEvent::BusLagged => (acts, true),
        SessionEvent::CloseFrame | SessionEvent::ReadError | SessionEvent::StreamEnd
            | SessionEvent::CountClosed | SessionEvent::BusClosed => (acts, false),
        SessionEvent::CountChanged(n) => {
            let f = sync_json(n);
            acts.push(SessionAction::SendText(f));
            (acts, true)
        },
        SessionEvent::BusEvent(p) => {
            acts.push(SessionAction::SendText(p));
            (acts, true)
        },
        SessionEvent::PingTick => {
            acts.push(SessionAction::SendPing);
            (acts, true)
        },
    }
}

/// The decision table of a web session's running loop: heartbeats mean
/// nothing here; a session-id update recounts; a latch move becomes a
/// `VISITOR_ONLINE` event stamped `now_ms`; global events are forwarded
/// verbatim.
pub fn web_session_step(e: SessionEvent, now_ms: u64) -> (r: (Vec<SessionAction>, bool))
    ensures
        match e {
            SessionEvent::Text(t) => r.1 && (if inbound_update_sid_spec(t@) is Some {
                r.0@.len() == 2 && (r.0@[0] matches SessionAction::SetSession(v) && v@
                    == inbound_update_sid_spec(t@)->0) && r.0@[1]
                    == SessionAction::RecountOnline
            } else {
                r.0@.len() == 0
            }),
            SessionEvent::Binary => r.1 && r.0@.len() == 0,
            SessionEvent::PingFrame => r.1 && r.0@.len() == 0,
            SessionEvent::PongFrame => r.1 && r.0@.len() == 0,
            SessionEvent::CloseFrame => !r.1 && r.0@.len() == 0,
            SessionEvent::ReadError => !r.1 && r.0@.len() == 0,
            SessionEvent::StreamEnd => !r.1 && r.0@.len() == 0,
            SessionEvent::CountChanged(n) => r.1 && r.0@.len() == 1 && (r.0@[0] matches
                SessionAction::SendText(f) && f@ == envelope(
                event_name_spec(BusinessEvent::VisitorOnline),
                visitor_online_json(n as int, now_ms as int),
            )),
            SessionEvent::CountClosed => !r.1 && r.0@.len() == 0,
            SessionEvent::BusEvent(p) => r.1 && r.0@.len() == 1 && (r.0@[0] matches
                SessionAction::SendText(f) && f@ == p@),
            SessionEvent::BusLagged => r.1 && r.0@.len() == 0,
            SessionEvent::BusClosed => !r.1 && r.0@.len() == 0,
            SessionEvent::PingTick => r.1 && r.0@.len() == 1 && r.0@[0]
                == SessionAction::SendPing,
        },
{
    let mut acts: Vec<SessionAction> = Vec::new();
    match e {
        SessionEvent::Text(t) => {
            match classify_inbound(t.as_str()) {
                InboundMsg::UpdateSid(v) => {
                    acts.push(SessionAction::SetSession(v));
                    acts.push(SessionAction::RecountOnline);
                },
                InboundMsg::Hb => {
                    proof {
                        reveal_strlit("hb");
                        reveal_strlit("updateSid");
                        assert("hb"@.len() == 2);
                        assert("updateSid"@.len() == 9);
                        assert("hb"@ != "updateSid"@);
                        let ps = flat_object_spec(t@)->0;
                        assert(first_val(ps, "type"@) == Some(Some("hb"@)));
                        assert(first_val(ps, "type"@) != Some(Some("updateSid"@)));
                        assert(inbound_update_sid_spec(t@) is None);
                    }
                },
                InboundMsg::Other => {},
            }
            (acts, true)
        },
        SessionEvent::Binary | SessionEvent::PingFrame | SessionEvent::PongFrame
            | SessionEvent::BusLagged => (acts, true),
        SessionEvent::CloseFrame | SessionEvent::ReadError | SessionEvent::StreamEnd
            | SessionEvent::CountClosed | SessionEvent::BusClosed => (acts, false),
        SessionEvent::CountChanged(n) => {
            let f = visitor_online_event_json(n, now_ms);
            acts.push(SessionAction::SendText(f));
            (acts, true)
        },
        SessionEvent::BusEvent(p) => {
            acts.push(SessionAction::SendText(p));
            (acts, true)
        },
        SessionEvent::PingTick => {
            acts.push(SessionAction::SendPing);
            (acts, true)
        },
    }
}

/// One effect of a room session's admitted phase.
pub enum ConnectStep {
    /// Insert the fresh identity into the room and read the count.
    JoinRoom,
    /// Create the metadata record under the effective session id.
    StoreIdentity,
    /// Mark the room as joined in the record.
    MarkRoomJoined,
    /// Publish the join event on the room's bus.
    PublishJoinEvent,
    /// Recompute the global unique-session count and publish it.
    RecountOnline,
    /// Send the hello frame, the session's first outbound frame.
    SendHello,
}

/// The admitted phase in order: membership changes first, the join event
/// goes out only after membership is updated, and the hello frame closes
/// the sequence with the count that the join returned.
pub fn room_connect_steps() -> (r: Vec<ConnectStep>)
    ensures
        r@.len() == 6,
        r@[0] == ConnectStep::JoinRoom,
        r@[1] == ConnectStep::StoreIdentity,
        r@[2] == ConnectStep::MarkRoomJoined,
        r@[3] == ConnectStep::PublishJoinEvent,
        r@[4] == ConnectStep::RecountOnline,
        r@[5] == ConnectStep::SendHello,
{
    let mut r: Vec<ConnectStep> = Vec::new();
    r.push(ConnectStep::JoinRoom);
    r.push(ConnectStep::StoreIdentity);
    r.push(ConnectStep::MarkRoomJoined);
    r.push(ConnectStep::PublishJoinEvent);
    r.push(ConnectStep::RecountOnline);
    r.push(ConnectStep::SendHello);
    r
}

/// One effect of a room session's closing path.
pub enum CloseStep {
    /// Remove the identity from the room.
    LeaveRoom,
    /// Publish the leave event on the room's bus.
    PublishLeaveEvent,
    /// Drop the room mark from the record.
    UnmarkRoomJoined,
    /// Remove the record entirely.
    ClearIdentity,
    /// Recompute the global unique-session count and publish it.
    RecountOnline,
}

/// The closing path in order, run to completion whatever ended the loop:
/// the leave event goes out only after the member is removed.
pub fn room_close_steps() -> (r: Vec<CloseStep>)
    ensures
        r@.len() == 5,
        r@[0] == CloseStep::LeaveRoom,
        r@[1] == CloseStep::PublishLeaveEvent,
        r@[2] == CloseStep::UnmarkRoomJoined,
        r@[3] == CloseStep::ClearIdentity,
        r@[4] == CloseStep::RecountOnline,
{
    let mut r: Vec<CloseStep> = Vec::new();
    r.push(CloseStep::LeaveRoom);
    r.push(CloseStep::PublishLeaveEvent);
    r.push(CloseStep::UnmarkRoomJoined);
    r.push(CloseStep::ClearIdentity);
    r.push(CloseStep::RecountOnline);
    r
}

/// The greeting event sent first on a web session.
pub fn gateway_connect_event_json(greeting: &str) -> (r: String)
    ensures
        r@ == envelope(
            event_name_spec(BusinessEvent::GatewayConnect),
            crate::events::json_string(greeting@),
        ),
{
    let mut data = String::new();
    crate::events::append_json_string(&mut data, greeting);
    format_message(BusinessEvent::GatewayConnect, data.as_str())
}

} // verus!
