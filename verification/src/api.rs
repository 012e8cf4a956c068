//! The read surface over the gateway's state: the top active rooms, room
//! presence views, the rooms overview, and the daily online metric.
use vstd::prelude::*;

use crate::meta::SocketMetadata;
use crate::strutil::{lemma_lex_le_antisym, lemma_lex_le_total, lemma_lex_le_trans, lex_le,
    str_lex_le};
use vstd::multiset::Multiset;
use vstd::relations::{sorted_by, total_ordering};

verus! {

/// One line of the active-rooms listing. With no richer metadata source,
/// `path` and `title` repeat the room name.
pub struct TopRoom {
    pub room: String,
    pub count: usize,
    pub path: String,
    pub title: String,
}

/// The view of a name-and-count pair.
pub open spec fn pair_view(p: (String, usize)) -> (Seq<char>, nat) {
    (p.0@, p.1 as nat)
}

/// The views of a snapshot list.
pub open spec fn pairs_view(s: Seq<(String, usize)>) -> Seq<(Seq<char>, nat)> {
    s.map_values(|p: (String, usize)| pair_view(p))
}

/// The listing order: higher counts first, names in lexicographic order
/// among equal counts.
pub open spec fn room_order() -> spec_fn((Seq<char>, nat), (Seq<char>, nat)) -> bool {
    |a: (Seq<char>, nat), b: (Seq<char>, nat)|
        a.1 > b.1 || (a.1 == b.1 && lex_le(a.0, b.0))
}

/// The listing order sorts: it is a total order on name-and-count pairs.
pub proof fn lemma_room_order_total()
    ensures
        total_ordering(room_order()),
{
    let leq = room_order();
    assert forall|a: (Seq<char>, nat)| #[trigger] leq(a, a) by {
        lemma_lex_le_total(a.0, a.0);
    }
    assert forall|a: (Seq<char>, nat), b: (Seq<char>, nat)|
        #[trigger] leq(a, b) && #[trigger] leq(b, a) implies a == b by {
        lemma_lex_le_antisym(a.0, b.0);
    }
    assert forall|a: (Seq<char>, nat), b: (Seq<char>, nat), c: (Seq<char>, nat)|
        #[trigger] leq(a, b) && #[trigger] leq(b, c) implies leq(a, c) by {
        if a.1 == b.1 && b.1 == c.1 {
            lemma_lex_le_trans(a.0, b.0, c.0);
        }
    }
    assert forall|a: (Seq<char>, nat), b: (Seq<char>, nat)|
        #[trigger] leq(a, b) || #[trigger] leq(b, a) by {
        lemma_lex_le_total(a.0, b.0);
    }
}

fn room_le(a: &(String, usize), b: &(String, usize)) -> (r: bool)
    ensures
        r == room_order()(pair_view(*a), pair_view(*b)),
{
    if a.1 > b.1 {
        true
    } else if a.1 == b.1 {
        str_lex_le(a.0.as_str(), b.0.as_str())
    } else {
        false
    }
}

/// Sorts a snapshot by the listing order.
fn sort_rooms(list: Vec<(String, usize)>) -> (r: Vec<(String, usize)>)
    ensures
        pairs_view(r@) == pairs_view(list@).sort_by(room_order()),
{
    broadcast use vstd::seq_lib::group_to_multiset_ensures;

    let ghost full = pairs_view(list@);
    let ghost leq = room_order();
    let mut src = list;
    let mut out: Vec<(String, usize)> = Vec::new();
    proof {
        lemma_room_order_total();
        assert(pairs_view(out@).to_multiset() =~= Multiset::<(Seq<char>, nat)>::empty());
        assert(pairs_view(out@).to_multiset().add(pairs_view(src@).to_multiset()) =~= pairs_view(
            src@,
        ).to_multiset());
    }
    while src.len() > 0
        invariant
            leq == room_order(),
            total_ordering(leq),
            full == pairs_view(list@),
            pairs_view(out@).to_multiset().add(pairs_view(src@).to_multiset())
                =~= full.to_multiset(),
            sorted_by(pairs_view(out@), leq),
            forall|i: int, j: int|
                0 <= i < out@.len() && 0 <= j < src@.len() ==> leq(
                    #[trigger] pairs_view(out@)[i],
                    #[trigger] pairs_view(src@)[j],
                ),
        decreases src@.len(),
    {
        broadcast use vstd::seq_lib::group_to_multiset_ensures;

        let n = src.len();
        let mut m: usize = 0;
        let mut j: usize = 1;
        while j < n
            invariant
                m < j <= n,
                n == src@.len(),
                leq == room_order(),
                total_ordering(leq),
                forall|k: int| 0 <= k < j ==> leq(
                    pairs_view(src@)[m as int],
                    #[trigger] pairs_view(src@)[k],
                ),
            decreases n - j,
        {
            if room_le(&src[j], &src[m]) {
                proof {
                    assert forall|k: int| 0 <= k < j + 1 implies leq(
                        pairs_view(src@)[j as int],
                        #[trigger] pairs_view(src@)[k],
                    ) by {
                        if k < j {
                            assert(leq(pairs_view(src@)[m as int], pairs_view(src@)[k]));
                        } else {
                            assert(leq(pairs_view(src@)[j as int], pairs_view(src@)[j as int]));
                        }
                    }
                }
                m = j;
            }
            j = j + 1;
        }
        let ghost src0 = src@;
        let ghost out0 = out@;
        let e = src.remove(m);
        out.push(e);
        proof {
            assert(pairs_view(out@) =~= pairs_view(out0).push(pair_view(e)));
            assert(pairs_view(src@) =~= pairs_view(src0).remove(m as int));
            assert(pairs_view(src0)[m as int] == pair_view(e));
            // the multisets rebalance: one copy moved from src to out
            assert(pairs_view(out@).to_multiset() =~= pairs_view(out0).to_multiset().insert(
                pair_view(e),
            ));
            assert(pairs_view(src@).to_multiset() =~= pairs_view(src0).to_multiset().remove(
                pair_view(e),
            ));
            assert(pairs_view(src0).to_multiset().contains(pair_view(e)));
            assert(pairs_view(out@).to_multiset().add(pairs_view(src@).to_multiset())
                =~= full.to_multiset());
            // the minimum follows everything already placed and bounds the rest
            assert(sorted_by(pairs_view(out@), leq)) by {
                assert forall|i: int, j2: int|
                    0 <= i < j2 < pairs_view(out@).len() implies #[trigger] leq(
                    pairs_view(out@)[i],
                    pairs_view(out@)[j2],
                ) by {
                    if j2 < out0.len() {
                        assert(leq(pairs_view(out0)[i], pairs_view(out0)[j2]));
                    } else {
                        assert(leq(pairs_view(out0)[i], pairs_view(src0)[m as int]));
                    }
                }
            }
            assert forall|i: int, j2: int|
                0 <= i < out@.len() && 0 <= j2 < src@.len() implies leq(
                #[trigger] pairs_view(out@)[i],
                #[trigger] pairs_view(src@)[j2],
            ) by {
                let orig: int = if j2 < m { j2 } else { j2 + 1 };
                assert(pairs_view(src@)[j2] == pairs_view(src0)[orig]);
                assert(leq(pairs_view(src0)[m as int], pairs_view(src0)[orig]));
                if i < out0.len() {
                    assert(leq(pairs_view(out0)[i], pairs_view(src0)[m as int]));
                } else {
                    assert(pairs_view(out@)[i] == pair_view(e));
                }
            }
        }
    }
    proof {
        assert(pairs_view(src@).to_multiset() =~= Multiset::<(Seq<char>, nat)>::empty());
        assert(pairs_view(out@).to_multiset() =~= full.to_multiset());
        full.lemma_sort_by_ensures(leq);
        vstd::seq_lib::lemma_sorted_unique(pairs_view(out@), full.sort_by(leq), leq);
    }
    out
}

/// The top `limit` active rooms: the snapshot sorted by count falling and
/// name rising, cut to the limit (10 when absent, at most 100), each line
/// carrying the room name as its path and title.
pub fn top_active_rooms(list: Vec<(String, usize)>, limit: Option<usize>) -> (r: Vec<TopRoom>)
    ensures
        ({
            let lim: int = match limit {
                Some(l) => if l < 100 {
                    l as int
                } else {
                    100
                },
                None => 10,
            };
            let sorted = pairs_view(list@).sort_by(room_order());
            let k: int = if lim < sorted.len() {
                lim
            } else {
                sorted.len() as int
            };
            &&& r@.len() == k
            &&& forall|i: int|
                0 <= i < k ==> {
                    &&& (#[trigger] r@[i]).room@ == sorted[i].0
                    &&& r@[i].count as nat == sorted[i].1
                    &&& r@[i].path@ == sorted[i].0
                    &&& r@[i].title@ == sorted[i].0
                }
        }),
{
    let lim: usize = match limit {
        Some(l) => if l < 100 {
            l
        } else {
            100
        },
        None => 10,
    };
    let mut sorted = sort_rooms(list);
    if lim < sorted.len() {
        sorted.truncate(lim);
        proof {
            assert(pairs_view(sorted@) =~= pairs_view(list@).sort_by(room_order()).take(
                lim as int,
            ));
        }
    }
    let mut r: Vec<TopRoom> = Vec::new();
    let n = sorted.len();
    let mut i: usize = 0;
    while i < n
        invariant
            i <= n,
            n == sorted@.len(),
            r@.len() == i,
            forall|j: int|
                0 <= j < i ==> {
                    &&& (#[trigger] r@[j]).room@ == sorted@[j].0@
                    &&& r@[j].count == sorted@[j].1
                    &&& r@[j].path@ == sorted@[j].0@
                    &&& r@[j].title@ == sorted@[j].0@
                },
        decreases n - i,
    {
        let name = sorted[i].0.clone();
        let count = sorted[i].1;
        r.push(
            TopRoom { room: name.clone(), count, path: name.clone(), title: name },
        );
        i = i + 1;
    }
    proof {
        assert forall|j: int| 0 <= j < n implies pairs_view(sorted@)[j] == (
            sorted@[j].0@,
            sorted@[j].1 as nat,
        ) by {}
    }
    r
}

/// The query of the active-rooms listing.
pub struct ActiveQuery {
    pub limit: Option<usize>,
}

/// The query naming the room whose presence is asked for.
pub struct GetPresenceQuery {
    pub room_name: String,
}

/// The body of a presence update: the room it lands on and what changed.
pub struct PresenceUpdateBody {
    pub room_name: String,
    pub display_name: Option<String>,
    pub position: Option<u32>,
}

/// One presence line: a member's identity, when it joined this room, and
/// when its record last moved.
pub struct PresenceView {
    pub identity: String,
    pub joined_at: Option<u64>,
    pub updated_at: u64,
}

/// The presence lines for `room` drawn from its records.
pub fn presence_views(records: &Vec<SocketMetadata>, room: &str) -> (r: Vec<PresenceView>)
    requires
        forall|i: int| 0 <= i < records@.len() ==> (#[trigger] records@[i]).wf(),
    ensures
        r@.len() == records@.len(),
        forall|i: int|
            0 <= i < records@.len() ==> {
                let m = (#[trigger] records@[i]).model();
                &&& r@[i].identity@ == m.identity
                &&& r@[i].updated_at == m.updated_at_ms
                &&& r@[i].joined_at == (if m.rooms.contains_key(room@) {
                    Some(m.rooms[room@])
                } else {
                    None::<u64>
                })
            },
{
    let n = records.len();
    let mut r: Vec<PresenceView> = Vec::new();
    let mut i: usize = 0;
    while i < n
        invariant
            i <= n,
            n == records@.len(),
            forall|k: int| 0 <= k < records@.len() ==> (#[trigger] records@[k]).wf(),
            r@.len() == i,
            forall|k: int|
                0 <= k < i ==> {
                    let m = (#[trigger] records@[k]).model();
                    &&& r@[k].identity@ == m.identity
                    &&& r@[k].updated_at == m.updated_at_ms
                    &&& r@[k].joined_at == (if m.rooms.contains_key(room@) {
                        Some(m.rooms[room@])
                    } else {
                        None::<u64>
                    })
                },
        decreases n - i,
    {
        let rec = &records[i];
        let joined_at = rec.room_joined(room);
        r.push(
            PresenceView {
                identity: rec.identity.clone(),
                joined_at,
                updated_at: rec.updated_at_ms,
            },
        );
        i = i + 1;
    }
    r
}

/// The rooms overview: the names with a live member, and each one's count.
pub struct RoomsInfo {
    pub rooms: Vec<String>,
    pub room_count: Vec<(String, usize)>,
}

/// Folds a snapshot into the overview shape: the name list and the counts
/// carry the same rooms in the same order.
pub fn rooms_info(list: Vec<(String, usize)>) -> (r: RoomsInfo)
    ensures
        r.room_count@ == list@,
        r.rooms@.len() == list@.len(),
        forall|i: int| 0 <= i < list@.len() ==> (#[trigger] r.rooms@[i])@ == list@[i].0@,
{
    let n = list.len();
    let mut rooms: Vec<String> = Vec::new();
    let mut i: usize = 0;
    while i < n
        invariant
            i <= n,
            n == list@.len(),
            rooms@.len() == i,
            forall|k: int| 0 <= k < i ==> (#[trigger] rooms@[k])@ == list@[k].0@,
        decreases n - i,
    {
        rooms.push(list[i].0.clone());
        i = i + 1;
    }
    RoomsInfo { rooms, room_count: list }
}

/// The daily online metric in response shape.
pub struct OnlineTodayResp {
    pub date: String,
    pub max: usize,
    pub total: usize,
    pub backend: String,
}

/// Builds the daily metric answer: persisted statistics name the remote
/// backend; without them the live count stands in, with a zero total.
pub fn online_today(day: String, stats: Option<(usize, usize)>, current: usize) -> (r:
    OnlineTodayResp)
    ensures
        r.date@ == day@,
        match stats {
            Some((mx, total)) => r.max == mx && r.total == total && r.backend@ == "redis"@,
            None => r.max == current && r.total == 0 && r.backend@ == "memory"@,
        },
{
    match stats {
        Some((mx, total)) => OnlineTodayResp {
            date: day,
            max: mx,
            total,
            backend: "redis".to_owned(),
        },
        None => OnlineTodayResp {
            date: day,
            max: current,
            total: 0,
            backend: "memory".to_owned(),
        },
    }
}

/// The `ACTIVITY_UPDATE_PRESENCE` broadcast a presence update fans out on
/// its room.
pub fn update_presence_event(
    identity: &str,
    room: &str,
    updated_at_ms: u64,
    display_name: Option<String>,
    position: Option<u32>,
) -> (r: String)
    ensures
        r@ == crate::events::envelope(
            crate::events::event_name_spec(crate::events::BusinessEvent::ActivityUpdatePresence),
            crate::events::update_presence_json(
                identity@,
                room@,
                updated_at_ms as int,
                match display_name {
                    Some(ref d) => Some(d@),
                    None => None,
                },
                position,
            ),
        ),
{
    let payload = crate::events::UpdatePresencePayload {
        identity: identity.to_owned(),
        room_name: room.to_owned(),
        updated_at: updated_at_ms,
        display_name,
        position,
    };
    let data = payload.to_json();
    crate::events::format_message(
        crate::events::BusinessEvent::ActivityUpdatePresence,
        data.as_str(),
    )
}

} // verus!
