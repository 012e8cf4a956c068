//! The origin authorization policy for upgrade requests.
//!
//! A whitelist entry admits an origin by one of five rules, tried in this
//! order: a lone `*` admits everything; an entry written as a URL must match
//! the origin's normalized `scheme://host:port`; a `*.suffix` or `.suffix`
//! entry matches the host against a DNS suffix; a `host:port` entry demands
//! that host and port; a bare host matches the host alone. An absent origin
//! is rejected whenever a whitelist is in force, unless `*` admits it.
use vstd::prelude::*;

use crate::strutil::{
    find_char, lower_seq, parse_u16, parse_u16_spec, str_eq, str_starts_with, to_ascii_lower,
    trim_end_slash_spec, trim_end_slashes, trim_spec, trim_start_dot_spec, trim_start_dots,
    trim_str,
};

verus! {

/// What WHATWG URL parsing extracts from an origin-shaped string: the
/// normalized scheme, the normalized host, and the port with known defaults
/// filled in. `None` where the string is no absolute URL with a host.
pub uninterp spec fn origin_parse_of(s: Seq<char>) -> Option<(Seq<char>, Seq<char>, Option<u16>)>;

/// An origin broken into its normalized parts.
pub struct OriginParts {
    pub scheme: String,
    pub host: String,
    pub port: Option<u16>,
}

/// Relies on url::Url::parse and its accessors scheme(), host_str() and
/// port_or_known_default(): the parse depends on the input string alone, and
/// for the web origins at stake it hands back a lowercase scheme and host
/// with the default port of known schemes (80 for http, 443 for https)
/// filled in.
#[verifier::external_body]
fn parse_origin(s: &str) -> (r: Option<OriginParts>)
    ensures
        match r {
            Some(p) => origin_parse_of(s@) == Some((p.scheme@, p.host@, p.port)),
            None => origin_parse_of(s@) is None,
        },
{
    match url::Url::parse(s) {
        Ok(u) => {
            let scheme = u.scheme().to_owned();
            let port = u.port_or_known_default();
            match u.host_str() {
                Some(h) => Some(OriginParts { scheme, host: h.to_owned(), port }),
                None => None,
            }
        },
        Err(_) => None,
    }
}

/// A whitelist entry as the matcher sees it: trimmed, without trailing
/// slashes, ASCII-lowercased.
pub open spec fn normal_entry(e: Seq<char>) -> Seq<char> {
    lower_seq(trim_end_slash_spec(trim_spec(e)))
}

/// The host matches `suffix` as a DNS suffix: it is the suffix itself or
/// ends with a dot and the suffix.
pub open spec fn host_suffix_match(host: Seq<char>, suffix: Seq<char>) -> bool {
    ||| host == suffix
    ||| (host.len() > suffix.len() && host.skip(host.len() - suffix.len()) == suffix && host[host.len() - suffix.len() - 1] == '.')
}

/// Does one whitelist entry admit an origin with these normalized parts?
pub open spec fn entry_admits_spec(
    e: Seq<char>,
    scheme: Seq<char>,
    host: Seq<char>,
    port: Option<u16>,
) -> bool {
    let n = normal_entry(e);
    if n.len() == 0 {
        false
    } else if "http://"@.is_prefix_of(n) || "https://"@.is_prefix_of(n) {
        match origin_parse_of(n) {
            Some((es, eh, ep)) => es == scheme && eh == host && ep == port,
            None => false,
        }
    } else if n.len() >= 2 && n[0] == '*' && n[1] == '.' {
        host_suffix_match(host, trim_start_dot_spec(n.skip(2)))
    } else if n[0] == '.' {
        host_suffix_match(host, trim_start_dot_spec(n.skip(1)))
    } else if n.contains(':') {
        let i = choose|i: int| 0 <= i < n.len() && n[i] == ':' && forall|j: int|
            0 <= j < i ==> n[j] != ':';
        &&& n.take(i) == host
        &&& match parse_u16_spec(n.skip(i + 1)) {
            Some(p) => port == Some(p),
            None => false,
        }
    } else {
        n == host
    }
}

/// Does the whitelist admit this origin header? `*` admits everything, even
/// an absent origin; otherwise the origin must parse and some entry must
/// admit its parts.
pub open spec fn allowed_spec(origin: Option<Seq<char>>, wl: Seq<Seq<char>>) -> bool {
    if exists|i: int| 0 <= i < wl.len() && trim_spec(#[trigger] wl[i]) == "*"@ {
        true
    } else {
        match origin {
            Some(o) => {
                let ot = trim_spec(o);
                ot.len() > 0 && match origin_parse_of(ot) {
                    Some((scheme, host, port)) => exists|i: int|
                        0 <= i < wl.len() && entry_admits_spec(
                            #[trigger] wl[i],
                            lower_seq(scheme),
                            lower_seq(host),
                            port,
                        ),
                    None => false,
                }
            },
            None => false,
        }
    }
}

/// Does the entry `e` admit an origin whose normalized parts are given?
///
/// This is the matcher behind the policy, on plain values: the scheme, host
/// and port come from parsing the origin header.
pub fn entry_admits(e: &str, scheme: &str, host: &str, port: Option<u16>) -> (r: bool)
    ensures
        r == entry_admits_spec(e@, scheme@, host@, port),
{
    let trimmed = trim_str(e);
    let unslashed = trim_end_slashes(trimmed.as_str());
    let n = to_ascii_lower(unslashed.as_str());
    let nlen = n.as_str().unicode_len();
    if nlen == 0 {
        return false;
    }
    if str_starts_with(n.as_str(), "http://") || str_starts_with(n.as_str(), "https://") {
        return match parse_origin(n.as_str()) {
            Some(p) => str_eq(p.scheme.as_str(), scheme) && str_eq(p.host.as_str(), host) && match (
                p.port,
                port,
            ) {
                (Some(a), Some(b)) => a == b,
                (None, None) => true,
                _ => false,
            },
            None => false,
        };
    }
    let c0 = n.as_str().get_char(0);
    let starred = nlen >= 2 && c0 == '*' && n.as_str().get_char(1) == '.';
    if starred || c0 == '.' {
        let rest = if starred {
            n.as_str().substring_char(2, nlen)
        } else {
            n.as_str().substring_char(1, nlen)
        };
        proof {
            if starred {
                assert(rest@ =~= n@.skip(2));
            } else {
                assert(rest@ =~= n@.skip(1));
            }
        }
        let suffix = trim_start_dots(rest);
        return host_suffix(host, suffix.as_str());
    }
    match find_char(n.as_str(), ':') {
        Some(i) => {
            let eh = n.as_str().substring_char(0, i);
            let ep = n.as_str().substring_char(i + 1, nlen);
            proof {
                assert(eh@ =~= n@.take(i as int));
                assert(ep@ =~= n@.skip(i as int + 1));
                assert(n@.contains(':'));
                let w = choose|w: int| 0 <= w < n@.len() && n@[w] == ':' && forall|j: int|
                    0 <= j < w ==> n@[j] != ':';
                assert(n@[i as int] == ':');
                if w < i {
                    assert(n@[w] == ':');
                }
                if i < w {
                    assert(n@[i as int] != ':');
                }
                assert(w == i as int);
            }
            if !str_eq(eh, host) {
                return false;
            }
            match (parse_u16(ep), port) {
                (Some(a), Some(b)) => a == b,
                _ => false,
            }
        },
        None => str_eq(n.as_str(), host),
    }
}

/// Is `host` equal to `suffix`, or under it as a DNS suffix?
fn host_suffix(host: &str, suffix: &str) -> (r: bool)
    ensures
        r == host_suffix_match(host@, suffix@),
{
    if str_eq(host, suffix) {
        return true;
    }
    let hn = host.unicode_len();
    let sn = suffix.unicode_len();
    if hn <= sn {
        proof {
            if host@.len() == suffix@.len() && host@.skip(0) == suffix@ {
                assert(host@ =~= host@.skip(0));
            }
        }
        return false;
    }
    let tail = host.substring_char(hn - sn, hn);
    proof {
        assert(tail@ =~= host@.skip(hn as int - sn as int));
    }
    str_eq(tail, suffix) && host.get_char(hn - sn - 1) == '.'
}

/// Does the configured whitelist admit this origin header?
///
/// This is the full admission rule: the absent-origin default, the `*`
/// bypass, origin normalization through URL parsing, and the per-entry
/// matcher above.
pub fn origin_allowed(origin: Option<&String>, whitelist: &Vec<String>) -> (r: bool)
    ensures
        r == allowed_spec(
            match origin {
                Some(o) => Some(o@),
                None => None,
            },
            whitelist@.map_values(|w: String| w@),
        ),
{
    let ghost wl = whitelist@.map_values(|w: String| w@);
    let wn = whitelist.len();
    let mut i: usize = 0;
    while i < wn
        invariant
            i <= wn,
            wn == whitelist@.len(),
            wl == whitelist@.map_values(|w: String| w@),
            forall|j: int| 0 <= j < i ==> trim_spec(#[trigger] wl[j]) != "*"@,
        decreases wn - i,
    {
        let t = trim_str(whitelist[i].as_str());
        if str_eq(t.as_str(), "*") {
            proof {
                assert(trim_spec(wl[i as int]) == "*"@);
            }
            return true;
        }
        proof {
            assert(wl[i as int] == whitelist@[i as int]@);
        }
        i = i + 1;
    }
    proof {
        if exists|j: int| 0 <= j < wl.len() && trim_spec(#[trigger] wl[j]) == "*"@ {
            let j = choose|j: int| 0 <= j < wl.len() && trim_spec(#[trigger] wl[j]) == "*"@;
            assert(false);
        }
    }
    let o = match origin {
        Some(o) => o,
        None => {
            return false;
        },
    };
    let ot = trim_str(o.as_str());
    if ot.as_str().unicode_len() == 0 {
        return false;
    }
    let parts = match parse_origin(ot.as_str()) {
        Some(p) => p,
        None => {
            return false;
        },
    };
    // normalize the origin's parts the way the entries are normalized; URL
    // parsing already lowercases the scheme and any special-scheme host
    let scheme = to_ascii_lower(parts.scheme.as_str());
    let host = to_ascii_lower(parts.host.as_str());
    let mut i: usize = 0;
    while i < wn
        invariant
            i <= wn,
            wn == whitelist@.len(),
            wl == whitelist@.map_values(|w: String| w@),
            origin is Some && origin->0@ == o@,
            trim_spec(o@).len() > 0,
            origin_parse_of(trim_spec(o@)) == Some((parts.scheme@, parts.host@, parts.port)),
            scheme@ == lower_seq(parts.scheme@),
            host@ == lower_seq(parts.host@),
            forall|j: int|
                0 <= j < i ==> !entry_admits_spec(
                    #[trigger] wl[j],
                    lower_seq(parts.scheme@),
                    lower_seq(parts.host@),
                    parts.port,
                ),
        decreases wn - i,
    {
        if entry_admits(whitelist[i].as_str(), scheme.as_str(), host.as_str(), parts.port) {
            proof {
                assert(entry_admits_spec(
                    wl[i as int],
                    lower_seq(parts.scheme@),
                    lower_seq(parts.host@),
                    parts.port,
                ));
            }
            return true;
        }
        proof {
            assert(wl[i as int] == whitelist@[i as int]@);
        }
        i = i + 1;
    }
    proof {
        if exists|j: int|
            0 <= j < wl.len() && entry_admits_spec(
                #[trigger] wl[j],
                lower_seq(parts.scheme@),
                lower_seq(parts.host@),
                parts.port,
            ) {
            let j = choose|j: int|
                0 <= j < wl.len() && entry_admits_spec(
                    #[trigger] wl[j],
                    lower_seq(parts.scheme@),
                    lower_seq(parts.host@),
                    parts.port,
                );
            assert(false);
        }
    }
    false
}

} // verus!
