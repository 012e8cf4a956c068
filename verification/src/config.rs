//! Gateway configuration from plain setting values: the listen port, the
//! presence TTL, the ping interval, the origin whitelist and the choice of
//! metadata backend. The environment is read outside the library; parsing
//! happens here.
use vstd::prelude::*;

use crate::strutil::{parse_u16, parse_u16_spec, parse_u64, parse_u64_spec, trim_spec, trim_str};

verus! {

/// The index of the first comma at or after `i`, or the string's end.
pub open spec fn comma_end(s: Seq<char>, i: int) -> int
    decreases s.len() - i,
{
    if 0 <= i < s.len() && s[i] != ',' {
        comma_end(s, i + 1)
    } else {
        i
    }
}

proof fn lemma_comma_end_bounds(s: Seq<char>, i: int)
    requires
        0 <= i <= s.len(),
    ensures
        i <= comma_end(s, i) <= s.len(),
        comma_end(s, i) < s.len() ==> s[comma_end(s, i)] == ',',
    decreases s.len() - i,
{
    if i < s.len() && s[i] != ',' {
        lemma_comma_end_bounds(s, i + 1);
    }
}

fn comma_end_x(s: &str, i: usize) -> (r: usize)
    requires
        i <= s@.len(),
    ensures
        r == comma_end(s@, i as int),
        i <= r <= s@.len(),
{
    let n = s.unicode_len();
    let mut r = i;
    while r < n
        invariant
            i <= r <= n,
            n == s@.len(),
            comma_end(s@, i as int) == comma_end(s@, r as int),
        ensures
            i <= r <= n,
            n == s@.len(),
            comma_end(s@, i as int) == comma_end(s@, r as int),
            r == n || s@[r as int] == ',',
        decreases n - r,
    {
        if s.get_char(r) == ',' {
            break ;
        }
        r = r + 1;
    }
    r
}

/// The comma-separated pieces of `s` from `i` on; `fuel` bounds the piece
/// count and one more than the length always suffices.
pub open spec fn split_from(s: Seq<char>, i: int, fuel: nat) -> Seq<Seq<char>>
    decreases fuel,
{
    let e = comma_end(s, i);
    if e >= s.len() {
        seq![s.subrange(i, s.len() as int)]
    } else if fuel == 0 {
        Seq::empty()
    } else {
        seq![s.subrange(i, e)] + split_from(s, e + 1, (fuel - 1) as nat)
    }
}

/// The comma-separated pieces of `s`.
pub open spec fn split_commas(s: Seq<char>) -> Seq<Seq<char>> {
    split_from(s, 0, s.len() as nat)
}

fn split_from_x(s: &str, i: usize, fuel: u64) -> (r: Vec<String>)
    requires
        i <= s@.len(),
        fuel >= s@.len() - i,
    ensures
        r@.map_values(|p: String| p@) == split_from(s@, i as int, fuel as nat),
    decreases fuel,
{
    let n = s.unicode_len();
    let e = comma_end_x(s, i);
    if e >= n {
        let piece = s.substring_char(i, n);
        let mut out: Vec<String> = Vec::new();
        out.push(piece.to_owned());
        proof {
            assert(piece@ =~= s@.subrange(i as int, s@.len() as int));
            assert(out@.map_values(|p: String| p@) =~= seq![
                s@.subrange(i as int, s@.len() as int),
            ]);
        }
        out
    } else {
        let piece = s.substring_char(i, e);
        let mut rest = split_from_x(s, e + 1, fuel - 1);
        let mut out: Vec<String> = Vec::new();
        out.push(piece.to_owned());
        let ghost restv = rest@;
        out.append(&mut rest);
        proof {
            assert(piece@ =~= s@.subrange(i as int, e as int));
            assert(out@.map_values(|p: String| p@) =~= seq![s@.subrange(i as int, e as int)]
                + restv.map_values(|p: String| p@));
        }
        out
    }
}

/// The whitelist entries a raw setting holds: each comma piece trimmed, the
/// empty ones dropped.
pub open spec fn origins_of(raw: Seq<char>) -> Seq<Seq<char>> {
    split_commas(raw).map_values(|p: Seq<char>| trim_spec(p)).filter(
        |p: Seq<char>| p.len() > 0,
    )
}

/// Splits, trims and filters a raw whitelist setting.
fn parse_origins(raw: &str) -> (r: Vec<String>)
    ensures
        r@.map_values(|p: String| p@) == origins_of(raw@),
{
    let n = raw.unicode_len();
    let pieces = split_from_x(raw, 0, n as u64);
    let ghost trimmed = split_commas(raw@).map_values(|p: Seq<char>| trim_spec(p));
    let ghost keep = |p: Seq<char>| p.len() > 0;
    let m = pieces.len();
    let mut out: Vec<String> = Vec::new();
    let mut i: usize = 0;
    proof {
        crate::room::lemma_filter_empty_take(trimmed, keep);
        assert(out@.map_values(|p: String| p@) =~= trimmed.take(0).filter(keep));
    }
    while i < m
        invariant
            i <= m,
            m == pieces@.len(),
            pieces@.map_values(|p: String| p@) == split_commas(raw@),
            trimmed == split_commas(raw@).map_values(|p: Seq<char>| trim_spec(p)),
            keep == (|p: Seq<char>| p.len() > 0),
            out@.map_values(|p: String| p@) =~= trimmed.take(i as int).filter(keep),
        decreases m - i,
    {
        proof {
            crate::room::lemma_filter_take_step(trimmed, i as int, keep);
            assert(trimmed[i as int] == trim_spec(pieces@[i as int]@));
        }
        let t = trim_str(pieces[i].as_str());
        if t.as_str().unicode_len() > 0 {
            let ghost out0 = out@;
            out.push(t);
            proof {
                assert(out@.map_values(|p: String| p@) =~= out0.map_values(|p: String| p@).push(
                    trimmed[i as int],
                ));
            }
        }
        i = i + 1;
    }
    proof {
        assert(trimmed.take(m as int) =~= trimmed);
    }
    out
}

/// The gateway's settings.
pub struct Config {
    pub port: u16,
    pub ttl_secs: u64,
    pub ping_interval_secs: Option<u64>,
    pub allowed_origins: Option<Vec<String>>,
    pub redis_url: Option<String>,
}

/// The view of an optional setting string.
pub open spec fn opt_view(o: Option<String>) -> Option<Seq<char>> {
    match o {
        Some(s) => Some(s@),
        None => None,
    }
}

/// What a numeric setting reads as, against its default.
pub open spec fn u64_setting(raw: Option<Seq<char>>, default: u64) -> u64 {
    match raw {
        Some(s) => match parse_u64_spec(s) {
            Some(v) => v,
            None => default,
        },
        None => default,
    }
}

impl Config {
    /// Builds the configuration from raw setting values: an unreadable port
    /// falls back to 8080, an unreadable TTL to 30 seconds, an unreadable or
    /// zero ping interval disables pings, a whitelist comes from the
    /// comma-separated entries, and a non-empty address selects the remote
    /// metadata backend.
    pub fn from_values(
        port: Option<String>,
        ttl: Option<String>,
        ping: Option<String>,
        origins: Option<String>,
        redis_url: Option<String>,
    ) -> (r: Config)
        ensures
            r.port == (match opt_view(port) {
                Some(s) => match parse_u16_spec(s) {
                    Some(v) => v,
                    None => 8080u16,
                },
                None => 8080u16,
            }),
            r.ttl_secs == u64_setting(opt_view(ttl), 30),
            r.ping_interval_secs == (if u64_setting(opt_view(ping), 0) > 0 {
                Some(u64_setting(opt_view(ping), 0))
            } else {
                None::<u64>
            }),
            ({
                let entries = origins_of(
                    match opt_view(origins) {
                        Some(s) => s,
                        None => Seq::empty(),
                    },
                );
                match r.allowed_origins {
                    Some(ref v) => entries.len() > 0 && v@.map_values(|p: String| p@) == entries,
                    None => entries.len() == 0,
                }
            }),
            r.redis_url == (match redis_url {
                Some(ref s) => if s@.len() > 0 {
                    Some(*s)
                } else {
                    None::<String>
                },
                None => None::<String>,
            }),
    {
        let port_v: u16 = match port {
            Some(s) => match parse_u16(s.as_str()) {
                Some(v) => v,
                None => 8080,
            },
            None => 8080,
        };
        let ttl_v: u64 = match ttl {
            Some(s) => match parse_u64(s.as_str()) {
                Some(v) => v,
                None => 30,
            },
            None => 30,
        };
        let ping_v: u64 = match ping {
            Some(s) => match parse_u64(s.as_str()) {
                Some(v) => v,
                None => 0,
            },
            None => 0,
        };
        let entries = match origins {
            Some(s) => parse_origins(s.as_str()),
            None => {
                let empty: Vec<String> = Vec::new();
                proof {
                    let e: Seq<char> = Seq::empty();
                    assert(comma_end(e, 0) == 0);
                    assert(e.subrange(0, 0) =~= e);
                    assert(split_commas(e) =~= seq![e]);
                    let trimmed = split_commas(e).map_values(|p: Seq<char>| trim_spec(p));
                    assert(trimmed[0] == trim_spec(e));
                    assert(trimmed =~= seq![e]);
                    reveal_with_fuel(Seq::filter, 2);
                    assert(trimmed.drop_last() =~= Seq::<Seq<char>>::empty());
                    assert(trimmed.drop_last().filter(|p: Seq<char>| p.len() > 0) =~= Seq::<
                        Seq<char>,
                    >::empty());
                    assert(origins_of(e).len() == 0);
                    assert(empty@.map_values(|p: String| p@) =~= Seq::<Seq<char>>::empty());
                }
                empty
            },
        };
        let allowed = if entries.len() > 0 {
            Some(entries)
        } else {
            None
        };
        let redis = match redis_url {
            Some(s) => {
                if s.as_str().unicode_len() > 0 {
                    Some(s)
                } else {
                    None
                }
            },
            None => None,
        };
        Config {
            port: port_v,
            ttl_secs: ttl_v,
            ping_interval_secs: if ping_v > 0 {
                Some(ping_v)
            } else {
                None
            },
            allowed_origins: allowed,
            redis_url: redis,
        }
    }
}

} // verus!
