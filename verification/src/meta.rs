//! The session/identity metadata store: per-connection records keyed by
//! identity, unique-session counting, and the daily online statistics rule.
//!
//! The in-memory backend lives here in full. A remote key/value backend does
//! the same record surgery through the pure transition functions below; only
//! the reads and writes of the remote hash stay outside the library.
use vstd::prelude::*;

use crate::room::{lemma_filter_empty_take, lemma_filter_take_step};

verus! {

/// One room-join mark inside a record: the room and the join time.
pub struct RoomStamp {
    pub room: String,
    pub at_ms: u64,
}

/// The names of a stamp sequence, in order.
pub open spec fn stamp_names(s: Seq<RoomStamp>) -> Seq<Seq<char>> {
    s.map_values(|t: RoomStamp| t.room@)
}

/// A stamp sequence is well formed when no room repeats.
pub open spec fn wf_stamps(s: Seq<RoomStamp>) -> bool {
    stamp_names(s).no_duplicates()
}

/// The room-to-time map a stamp sequence holds.
pub open spec fn stamp_map(s: Seq<RoomStamp>) -> Map<Seq<char>, u64>
    decreases s.len(),
{
    if s.len() == 0 {
        Map::empty()
    } else {
        stamp_map(s.drop_last()).insert(s.last().room@, s.last().at_ms)
    }
}

proof fn lemma_stamp_names_drop_last(s: Seq<RoomStamp>)
    requires
        s.len() > 0,
    ensures
        stamp_names(s.drop_last()) =~= stamp_names(s).drop_last(),
{
}

proof fn lemma_stamp_map_contains(s: Seq<RoomStamp>, k: Seq<char>)
    ensures
        stamp_map(s).contains_key(k) <==> stamp_names(s).contains(k),
    decreases s.len(),
{
    if s.len() == 0 {
        assert(!stamp_names(s).contains(k));
    } else {
        lemma_stamp_map_contains(s.drop_last(), k);
        lemma_stamp_names_drop_last(s);
        assert(stamp_names(s)[s.len() - 1] == s.last().room@);
        if stamp_names(s).contains(k) {
            let i = choose|i: int| 0 <= i < stamp_names(s).len() && stamp_names(s)[i] == k;
            if i < s.len() - 1 {
                assert(stamp_names(s).drop_last()[i] == k);
                assert(stamp_names(s.drop_last()).contains(k));
            } else {
                assert(k == s.last().room@);
            }
        }
        if stamp_names(s.drop_last()).contains(k) {
            let i = choose|i: int|
                0 <= i < stamp_names(s.drop_last()).len() && stamp_names(s.drop_last())[i] == k;
            assert(stamp_names(s)[i] == k);
            assert(stamp_names(s).contains(k));
        }
        if k == s.last().room@ {
            assert(stamp_names(s).contains(k));
        }
    }
}

proof fn lemma_stamp_map_index(s: Seq<RoomStamp>, i: int)
    requires
        wf_stamps(s),
        0 <= i < s.len(),
    ensures
        stamp_map(s).contains_key(s[i].room@),
        stamp_map(s)[s[i].room@] == s[i].at_ms,
    decreases s.len(),
{
    lemma_stamp_names_drop_last(s);
    if i < s.len() - 1 {
        assert(stamp_names(s)[i] == s[i].room@);
        assert(stamp_names(s)[s.len() - 1] == s.last().room@);
        assert(s[i].room@ != s.last().room@);
        lemma_stamp_map_index(s.drop_last(), i);
        assert(s.drop_last()[i] == s[i]);
    }
}

proof fn lemma_stamp_map_push(s: Seq<RoomStamp>, t: RoomStamp)
    ensures
        stamp_map(s.push(t)) == stamp_map(s).insert(t.room@, t.at_ms),
{
    assert(s.push(t).drop_last() =~= s);
    assert(s.push(t).last() == t);
}

proof fn lemma_stamp_map_update(s: Seq<RoomStamp>, i: int, v: u64)
    requires
        wf_stamps(s),
        0 <= i < s.len(),
    ensures
        wf_stamps(s.update(i, RoomStamp { room: s[i].room, at_ms: v })),
        stamp_map(s.update(i, RoomStamp { room: s[i].room, at_ms: v })) =~= stamp_map(s).insert(
            s[i].room@,
            v,
        ),
    decreases s.len(),
{
    let s2 = s.update(i, RoomStamp { room: s[i].room, at_ms: v });
    assert(stamp_names(s2) =~= stamp_names(s));
    lemma_stamp_names_drop_last(s);
    lemma_stamp_names_drop_last(s2);
    if i == s.len() - 1 {
        assert(s2.drop_last() =~= s.drop_last());
        assert(s2.last() == RoomStamp { room: s[i].room, at_ms: v });
    } else {
        assert(s2.drop_last() =~= s.drop_last().update(
            i,
            RoomStamp { room: s.drop_last()[i].room, at_ms: v },
        ));
        lemma_stamp_map_update(s.drop_last(), i, v);
        assert(s2.last() == s.last());
        assert(stamp_names(s)[i] == s[i].room@);
        assert(stamp_names(s)[s.len() - 1] == s.last().room@);
        assert(s[i].room@ != s.last().room@);
    }
}

proof fn lemma_stamp_map_remove(s: Seq<RoomStamp>, i: int)
    requires
        wf_stamps(s),
        0 <= i < s.len(),
    ensures
        wf_stamps(s.remove(i)),
        stamp_map(s.remove(i)) =~= stamp_map(s).remove(s[i].room@),
    decreases s.len(),
{
    let s2 = s.remove(i);
    assert(stamp_names(s2) =~= stamp_names(s).remove(i));
    stamp_names(s).remove_ensures(i);
    lemma_stamp_names_drop_last(s);
    lemma_stamp_map_contains(s.drop_last(), s[i].room@);
    if i == s.len() - 1 {
        assert(s2 =~= s.drop_last());
        assert(stamp_names(s)[s.len() - 1] == s[i].room@);
        if stamp_names(s.drop_last()).contains(s[i].room@) {
            let j = choose|j: int|
                0 <= j < stamp_names(s.drop_last()).len() && stamp_names(s.drop_last())[j]
                    == s[i].room@;
            assert(stamp_names(s)[j] == s[i].room@);
            assert(false);
        }
    } else {
        assert(s2.drop_last() =~= s.drop_last().remove(i));
        assert(s2.last() == s.last());
        lemma_stamp_map_remove(s.drop_last(), i);
        assert(stamp_names(s)[i] == s[i].room@);
        assert(stamp_names(s)[s.len() - 1] == s.last().room@);
        assert(s[i].room@ != s.last().room@);
    }
}

/// One connection's metadata record.
pub struct SocketMetadata {
    pub identity: String,
    pub session_id: String,
    pub connected_at_ms: u64,
    pub updated_at_ms: u64,
    pub room_joined_at: Vec<RoomStamp>,
}

/// What a record holds, abstractly.
pub ghost struct MetaModel {
    pub identity: Seq<char>,
    pub session_id: Seq<char>,
    pub connected_at_ms: u64,
    pub updated_at_ms: u64,
    pub rooms: Map<Seq<char>, u64>,
}

/// A fresh record for `sid` under `session_id`, created at `now_ms`.
pub open spec fn fresh_model(sid: Seq<char>, session_id: Seq<char>, now_ms: u64) -> MetaModel {
    MetaModel {
        identity: sid,
        session_id: session_id,
        connected_at_ms: now_ms,
        updated_at_ms: now_ms,
        rooms: Map::empty(),
    }
}

/// `m` with its session id replaced and its update time bumped.
pub open spec fn msession(m: MetaModel, session_id: Seq<char>, now_ms: u64) -> MetaModel {
    MetaModel { session_id: session_id, updated_at_ms: now_ms, ..m }
}

/// `m` with its update time bumped.
pub open spec fn mtouch(m: MetaModel, now_ms: u64) -> MetaModel {
    MetaModel { updated_at_ms: now_ms, ..m }
}

/// `m` marked as joined to `room` at `now_ms`.
pub open spec fn mjoin(m: MetaModel, room: Seq<char>, now_ms: u64) -> MetaModel {
    MetaModel { rooms: m.rooms.insert(room, now_ms), updated_at_ms: now_ms, ..m }
}

/// `m` with its mark for `room` removed.
pub open spec fn mleave(m: MetaModel, room: Seq<char>, now_ms: u64) -> MetaModel {
    MetaModel { rooms: m.rooms.remove(room), updated_at_ms: now_ms, ..m }
}

fn find_stamp(v: &Vec<RoomStamp>, room: &str) -> (r: Option<usize>)
    ensures
        match r {
            Some(i) => i < v@.len() && v@[i as int].room@ == room@,
            None => !stamp_names(v@).contains(room@),
        },
{
    let n = v.len();
    let mut i: usize = 0;
    while i < n
        invariant
            i <= n,
            n == v@.len(),
            forall|j: int| 0 <= j < i ==> stamp_names(v@)[j] != room@,
        decreases n - i,
    {
        if crate::strutil::str_eq(v[i].room.as_str(), room) {
            return Some(i);
        }
        proof {
            assert(stamp_names(v@)[i as int] == v@[i as int].room@);
        }
        i = i + 1;
    }
    proof {
        if stamp_names(v@).contains(room@) {
            let j = choose|j: int|
                0 <= j < stamp_names(v@).len() && stamp_names(v@)[j] == room@;
            assert(false);
        }
    }
    None
}

impl SocketMetadata {
    /// Room marks are distinct.
    pub open spec fn wf(self) -> bool {
        wf_stamps(self.room_joined_at@)
    }

    /// The abstract record.
    pub open spec fn model(self) -> MetaModel {
        MetaModel {
            identity: self.identity@,
            session_id: self.session_id@,
            connected_at_ms: self.connected_at_ms,
            updated_at_ms: self.updated_at_ms,
            rooms: stamp_map(self.room_joined_at@),
        }
    }

    /// A fresh record: the session defaults to whatever the caller passes.
    pub fn fresh(sid: &str, session_id: String, now_ms: u64) -> (r: SocketMetadata)
        ensures
            r.wf(),
            r.model() == fresh_model(sid@, session_id@, now_ms),
    {
        let r = SocketMetadata {
            identity: sid.to_owned(),
            session_id: session_id,
            connected_at_ms: now_ms,
            updated_at_ms: now_ms,
            room_joined_at: Vec::new(),
        };
        proof {
            assert(r.model().rooms =~= Map::<Seq<char>, u64>::empty());
            assert(r.model() == fresh_model(sid@, r.session_id@, now_ms));
        }
        r
    }

    /// Replace the session id and bump the update time.
    pub fn set_session(&mut self, session_id: String, now_ms: u64)
        requires
            old(self).wf(),
        ensures
            final(self).wf(),
            final(self).model() == msession(old(self).model(), session_id@, now_ms),
    {
        self.session_id = session_id;
        self.updated_at_ms = now_ms;
    }

    /// Bump the update time.
    pub fn touch(&mut self, now_ms: u64)
        requires
            old(self).wf(),
        ensures
            final(self).wf(),
            final(self).model() == mtouch(old(self).model(), now_ms),
    {
        self.updated_at_ms = now_ms;
    }

    /// Mark `room` as joined at `now_ms`.
    pub fn set_room(&mut self, room: &str, now_ms: u64)
        requires
            old(self).wf(),
        ensures
            final(self).wf(),
            final(self).model() == mjoin(old(self).model(), room@, now_ms),
    {
        match find_stamp(&self.room_joined_at, room) {
            Some(i) => {
                let ghost s0 = self.room_joined_at@;
                let mut t = self.room_joined_at.remove(i);
                t.at_ms = now_ms;
                self.room_joined_at.insert(i, t);
                proof {
                    assert(self.room_joined_at@ =~= s0.update(
                        i as int,
                        RoomStamp { room: s0[i as int].room, at_ms: now_ms },
                    ));
                    lemma_stamp_map_update(s0, i as int, now_ms);
                    assert(stamp_map(self.room_joined_at@) =~= stamp_map(s0).insert(
                        room@,
                        now_ms,
                    ));
                }
            },
            None => {
                let ghost s0 = self.room_joined_at@;
                self.room_joined_at.push(RoomStamp { room: room.to_owned(), at_ms: now_ms });
                proof {
                    lemma_stamp_map_push(s0, self.room_joined_at@.last());
                    assert(stamp_names(self.room_joined_at@).drop_last() =~= stamp_names(s0));
                    assert(stamp_names(self.room_joined_at@)[s0.len() as int] == room@);
                    assert(wf_stamps(self.room_joined_at@)) by {
                        assert forall|a: int, b: int|
                            0 <= a < b < stamp_names(self.room_joined_at@).len() implies
                            stamp_names(self.room_joined_at@)[a] != stamp_names(
                            self.room_joined_at@,
                        )[b] by {
                            if b == s0.len() {
                                assert(stamp_names(self.room_joined_at@)[a] == stamp_names(s0)[a]);
                                if stamp_names(s0)[a] == room@ {
                                    assert(stamp_names(s0).contains(room@));
                                }
                            } else {
                                assert(stamp_names(self.room_joined_at@)[a] == stamp_names(s0)[a]);
                                assert(stamp_names(self.room_joined_at@)[b] == stamp_names(s0)[b]);
                            }
                        }
                    }
                }
            },
        }
        self.updated_at_ms = now_ms;
    }

    /// Remove the mark for `room` and bump the update time.
    pub fn unset_room(&mut self, room: &str, now_ms: u64)
        requires
            old(self).wf(),
        ensures
            final(self).wf(),
            final(self).model() == mleave(old(self).model(), room@, now_ms),
    {
        proof {
            lemma_stamp_map_contains(self.room_joined_at@, room@);
        }
        match find_stamp(&self.room_joined_at, room) {
            Some(i) => {
                let ghost s0 = self.room_joined_at@;
                let _ = self.room_joined_at.remove(i);
                proof {
                    lemma_stamp_map_remove(s0, i as int);
                    assert(stamp_names(s0)[i as int] == room@);
                    assert(stamp_map(self.room_joined_at@) =~= stamp_map(s0).remove(room@));
                }
            },
            None => {
                proof {
                    assert(stamp_map(self.room_joined_at@) =~= stamp_map(
                        self.room_joined_at@,
                    ).remove(room@));
                }
            },
        }
        self.updated_at_ms = now_ms;
    }

    /// Is `room` marked as joined?
    pub fn has_room(&self, room: &str) -> (r: bool)
        ensures
            r == self.model().rooms.contains_key(room@),
    {
        proof {
            lemma_stamp_map_contains(self.room_joined_at@, room@);
        }
        match find_stamp(&self.room_joined_at, room) {
            Some(i) => {
                proof {
                    assert(stamp_names(self.room_joined_at@)[i as int] == room@);
                    assert(stamp_names(self.room_joined_at@).contains(room@));
                }
                true
            },
            None => false,
        }
    }

    /// The join time recorded for `room`, if any.
    pub fn room_joined(&self, room: &str) -> (r: Option<u64>)
        requires
            self.wf(),
        ensures
            match r {
                Some(t) => self.model().rooms.contains_key(room@) && self.model().rooms[room@]
                    == t,
                None => !self.model().rooms.contains_key(room@),
            },
    {
        proof {
            lemma_stamp_map_contains(self.room_joined_at@, room@);
        }
        match find_stamp(&self.room_joined_at, room) {
            Some(i) => {
                proof {
                    lemma_stamp_map_index(self.room_joined_at@, i as int);
                }
                Some(self.room_joined_at[i].at_ms)
            },
            None => None,
        }
    }

    /// An owned copy of this record.
    pub fn duplicate(&self) -> (r: SocketMetadata)
        requires
            self.wf(),
        ensures
            r.wf(),
            r.model() == self.model(),
    {
        let mut stamps: Vec<RoomStamp> = Vec::new();
        let n = self.room_joined_at.len();
        let mut i: usize = 0;
        while i < n
            invariant
                i <= n,
                n == self.room_joined_at@.len(),
                stamps@.len() == i,
                forall|j: int| 0 <= j < i ==> #[trigger] stamps@[j].room@
                    == self.room_joined_at@[j].room@ && stamps@[j].at_ms
                    == self.room_joined_at@[j].at_ms,
            decreases n - i,
        {
            let t = &self.room_joined_at[i];
            stamps.push(RoomStamp { room: t.room.clone(), at_ms: t.at_ms });
            i = i + 1;
        }
        let r = SocketMetadata {
            identity: self.identity.clone(),
            session_id: self.session_id.clone(),
            connected_at_ms: self.connected_at_ms,
            updated_at_ms: self.updated_at_ms,
            room_joined_at: stamps,
        };
        proof {
            assert(stamp_names(r.room_joined_at@) =~= stamp_names(self.room_joined_at@));
            lemma_stamp_map_agree(r.room_joined_at@, self.room_joined_at@);
            assert(r.model() == self.model());
        }
        r
    }
}

/// Stamp sequences equal pointwise on room and time hold the same map.
proof fn lemma_stamp_map_agree(a: Seq<RoomStamp>, b: Seq<RoomStamp>)
    requires
        a.len() == b.len(),
        forall|j: int| 0 <= j < a.len() ==> (#[trigger] a[j]).room@ == b[j].room@ && a[j].at_ms
            == b[j].at_ms,
    ensures
        stamp_map(a) =~= stamp_map(b),
    decreases a.len(),
{
    if a.len() > 0 {
        assert(a.last().room@ == b.last().room@);
        lemma_stamp_map_agree(a.drop_last(), b.drop_last());
    }
}

/// What `upsert_identity` leaves behind: a fresh record appended, or the
/// record under `sid` given the new session id and update time.
pub open spec fn upsert_post(
    pre: Seq<MetaModel>,
    post: Seq<MetaModel>,
    sid: Seq<char>,
    session_id: Seq<char>,
    now_ms: u64,
) -> bool {
    if !has_identity(pre, sid) {
        post == pre.push(fresh_model(sid, session_id, now_ms))
    } else {
        exists|i: int|
            0 <= i < pre.len() && (#[trigger] pre[i]).identity == sid && post == pre.update(
                i,
                msession(pre[i], session_id, now_ms),
            )
    }
}

/// Some record carries this identity.
pub open spec fn has_identity(ms: Seq<MetaModel>, sid: Seq<char>) -> bool {
    exists|i: int| 0 <= i < ms.len() && (#[trigger] ms[i]).identity == sid
}

/// The record under `sid` given a new session id, or nothing changed.
pub open spec fn set_session_post(
    pre: Seq<MetaModel>,
    post: Seq<MetaModel>,
    sid: Seq<char>,
    session_id: Seq<char>,
    now_ms: u64,
) -> bool {
    if !has_identity(pre, sid) {
        post == pre
    } else {
        exists|i: int|
            0 <= i < pre.len() && (#[trigger] pre[i]).identity == sid && post == pre.update(
                i,
                msession(pre[i], session_id, now_ms),
            )
    }
}

/// The record under `sid` marked joined to `room`, or nothing changed.
pub open spec fn join_room_post(
    pre: Seq<MetaModel>,
    post: Seq<MetaModel>,
    sid: Seq<char>,
    room: Seq<char>,
    now_ms: u64,
) -> bool {
    if !has_identity(pre, sid) {
        post == pre
    } else {
        exists|i: int|
            0 <= i < pre.len() && (#[trigger] pre[i]).identity == sid && post == pre.update(
                i,
                mjoin(pre[i], room, now_ms),
            )
    }
}

/// The record under `sid` with its mark for `room` removed, or nothing
/// changed.
pub open spec fn leave_room_post(
    pre: Seq<MetaModel>,
    post: Seq<MetaModel>,
    sid: Seq<char>,
    room: Seq<char>,
    now_ms: u64,
) -> bool {
    if !has_identity(pre, sid) {
        post == pre
    } else {
        exists|i: int|
            0 <= i < pre.len() && (#[trigger] pre[i]).identity == sid && post == pre.update(
                i,
                mleave(pre[i], room, now_ms),
            )
    }
}

/// The record under `sid` removed, or nothing changed.
pub open spec fn clear_post(pre: Seq<MetaModel>, post: Seq<MetaModel>, sid: Seq<char>) -> bool {
    if !has_identity(pre, sid) {
        post == pre
    } else {
        exists|i: int|
            0 <= i < pre.len() && (#[trigger] pre[i]).identity == sid && post == pre.remove(i)
    }
}

/// Every record whose session matches is touched; the rest stand untouched.
pub open spec fn touch_post(
    pre: Seq<MetaModel>,
    post: Seq<MetaModel>,
    session_id: Seq<char>,
    now_ms: u64,
) -> bool {
    &&& post.len() == pre.len()
    &&& forall|i: int|
        0 <= i < pre.len() ==> post[i] == (if (#[trigger] pre[i]).session_id == session_id {
            mtouch(pre[i], now_ms)
        } else {
            pre[i]
        })
}

/// The session ids on record, as a sequence.
pub open spec fn session_seq(ms: Seq<MetaModel>) -> Seq<Seq<char>> {
    ms.map_values(|m: MetaModel| m.session_id)
}

/// The distinct session ids on record: what "online" counts.
pub open spec fn session_set(ms: Seq<MetaModel>) -> Set<Seq<char>> {
    session_seq(ms).to_set()
}

/// Membership of `room` in a record's marks, as a predicate.
pub open spec fn in_room_pred(room: Seq<char>) -> spec_fn(MetaModel) -> bool {
    |m: MetaModel| m.rooms.contains_key(room)
}

/// The metadata capability: what any backend must do to the records.
///
/// The in-memory backend below implements it in full; a remote hash backend
/// performs the same transitions through the record operations above, with
/// only its reads and writes outside the library.
pub trait MetaStore {
    /// The records this store holds, in some order.
    spec fn model(&self) -> Seq<MetaModel>;

    /// Identities are distinct and every record is well formed.
    spec fn inv(&self) -> bool;

    /// Create or update the record for `sid`: its session id and update time
    /// are set; its connect time and room marks survive an update.
    fn upsert_identity(&mut self, sid: &str, session_id: String, now_ms: u64)
        requires
            old(self).inv(),
        ensures
            final(self).inv(),
            upsert_post(old(self).model(), final(self).model(), sid@, session_id@, now_ms),
    ;

    /// Update the session id of `sid`'s record; unknown identities are left
    /// alone.
    fn set_session_id(&mut self, sid: &str, session_id: String, now_ms: u64)
        requires
            old(self).inv(),
        ensures
            final(self).inv(),
            set_session_post(old(self).model(), final(self).model(), sid@, session_id@, now_ms),
    ;

    /// Mark `sid` as joined to `room` at `now_ms`; unknown identities are
    /// left alone.
    fn join_room(&mut self, sid: &str, room: &str, now_ms: u64)
        requires
            old(self).inv(),
        ensures
            final(self).inv(),
            join_room_post(old(self).model(), final(self).model(), sid@, room@, now_ms),
    ;

    /// Drop `sid`'s mark for `room`; unknown identities are left alone.
    fn leave_room(&mut self, sid: &str, room: &str, now_ms: u64)
        requires
            old(self).inv(),
        ensures
            final(self).inv(),
            leave_room_post(old(self).model(), final(self).model(), sid@, room@, now_ms),
    ;

    /// Remove `sid`'s record entirely.
    fn clear(&mut self, sid: &str)
        requires
            old(self).inv(),
        ensures
            final(self).inv(),
            clear_post(old(self).model(), final(self).model(), sid@),
    ;

    /// How many distinct session ids are on record.
    fn unique_session_count(&self) -> (r: usize)
        ensures
            r == session_set(self.model()).len(),
    ;

    /// Bump the update time of every record under this session id.
    fn touch_by_session(&mut self, session_id: &str, now_ms: u64)
        requires
            old(self).inv(),
        ensures
            final(self).inv(),
            touch_post(old(self).model(), final(self).model(), session_id@, now_ms),
    ;

    /// Every record marked as joined to `room`.
    fn room_presence(&self, room: &str) -> (r: Vec<SocketMetadata>)
        requires
            self.inv(),
        ensures
            store_view(r@) == self.model().filter(in_room_pred(room@)),
            forall|j: int| 0 <= j < r@.len() ==> (#[trigger] r@[j]).wf(),
    ;

    /// Record an online reading in the daily statistics, where the backend
    /// keeps any.
    fn update_online_stats(&self, online: usize);

    /// Any one record under this session id: the first on record here.
    fn find_by_session(&self, session_id: &str) -> (r: Option<SocketMetadata>)
        requires
            self.inv(),
        ensures
            match r {
                Some(m) => m.wf() && exists|i: int|
                    0 <= i < self.model().len() && (#[trigger] self.model()[i]).session_id
                        == session_id@ && m.model() == self.model()[i] && forall|j: int|
                        0 <= j < i ==> (#[trigger] self.model()[j]).session_id != session_id@,
                None => forall|j: int|
                    0 <= j < self.model().len() ==> (#[trigger] self.model()[j]).session_id
                        != session_id@,
            },
    ;

    /// Today's persisted statistics, where the backend keeps any.
    fn online_stats_today(&self) -> (r: Option<(usize, usize)>);
}

/// The records a record vector holds, abstractly and in order.
pub open spec fn store_view(s: Seq<SocketMetadata>) -> Seq<MetaModel> {
    s.map_values(|r: SocketMetadata| r.model())
}

/// The identities a record vector holds, in order.
pub open spec fn idents(s: Seq<SocketMetadata>) -> Seq<Seq<char>> {
    s.map_values(|r: SocketMetadata| r.identity@)
}

/// The in-memory metadata backend: a record list keyed by identity. It keeps
/// no daily statistics; callers fall back to the live count.
pub struct MemoryMetaStore {
    pub records: Vec<SocketMetadata>,
}

fn contains_str(v: &Vec<String>, s: &str) -> (r: bool)
    ensures
        r == v@.map_values(|x: String| x@).contains(s@),
{
    let ghost vals = v@.map_values(|x: String| x@);
    let n = v.len();
    let mut i: usize = 0;
    while i < n
        invariant
            i <= n,
            n == v@.len(),
            vals == v@.map_values(|x: String| x@),
            forall|j: int| 0 <= j < i ==> vals[j] != s@,
        decreases n - i,
    {
        if crate::strutil::str_eq(v[i].as_str(), s) {
            proof {
                assert(vals[i as int] == s@);
            }
            return true;
        }
        proof {
            assert(vals[i as int] == v@[i as int]@);
        }
        i = i + 1;
    }
    proof {
        if vals.contains(s@) {
            let j = choose|j: int| 0 <= j < vals.len() && vals[j] == s@;
            assert(false);
        }
    }
    false
}

impl MemoryMetaStore {
    /// An empty store.
    pub fn new() -> (r: MemoryMetaStore)
        ensures
            r.inv(),
            r.model() == Seq::<MetaModel>::empty(),
    {
        let r = MemoryMetaStore { records: Vec::new() };
        proof {
            assert(r.model() =~= Seq::<MetaModel>::empty());
        }
        r
    }

    fn find_record(&self, sid: &str) -> (r: Option<usize>)
        ensures
            match r {
                Some(i) => i < self.records@.len() && self.records@[i as int].identity@ == sid@,
                None => !has_identity(store_view(self.records@), sid@),
            },
    {
        let n = self.records.len();
        let mut i: usize = 0;
        while i < n
            invariant
                i <= n,
                n == self.records@.len(),
                forall|j: int| 0 <= j < i ==> (#[trigger] self.records@[j]).identity@ != sid@,
            decreases n - i,
        {
            if crate::strutil::str_eq(self.records[i].identity.as_str(), sid) {
                return Some(i);
            }
            i = i + 1;
        }
        proof {
            if has_identity(store_view(self.records@), sid@) {
                let j = choose|j: int|
                    0 <= j < store_view(self.records@).len() && (#[trigger] store_view(
                        self.records@,
                    )[j]).identity == sid@;
                assert(store_view(self.records@)[j] == self.records@[j].model());
                assert(false);
            }
        }
        None
    }
}

/// How many distinct session ids a record list carries: what any backend
/// reports as the online count once its records are in hand.
pub fn unique_sessions(records: &Vec<SocketMetadata>) -> (r: usize)
    ensures
    r == session_set(store_view(records@)).len(),
{
    let ghost ms = store_view(records@);
    let n = records.len();
    let mut seen: Vec<String> = Vec::new();
    let mut i: usize = 0;
    proof {
        assert(session_seq(ms.take(0)) =~= Seq::<Seq<char>>::empty());
        assert(session_seq(ms.take(0)).to_set() =~= seen@.map_values(
            |x: String| x@,
        ).to_set());
    }
    while i < n
        invariant
            i <= n,
            n == records@.len(),
            ms == store_view(records@),
            seen@.map_values(|x: String| x@).no_duplicates(),
            seen@.map_values(|x: String| x@).to_set() == session_seq(
                ms.take(i as int),
            ).to_set(),
        decreases n - i,
    {
        let ghost svals = seen@.map_values(|x: String| x@);
        let ghost cur = records@[i as int].session_id@;
        proof {
            assert(session_seq(ms.take(i + 1)) =~= session_seq(ms.take(i as int)) + seq![cur]);
            Seq::lemma_to_set_insert_commutes(session_seq(ms.take(i as int)), cur);
        }
        let present = contains_str(&seen, records[i].session_id.as_str());
        if !present {
            let ghost seen0 = seen@;
            seen.push(records[i].session_id.clone());
            proof {
                assert(seen@.map_values(|x: String| x@) =~= svals + seq![cur]);
                Seq::lemma_to_set_insert_commutes(svals, cur);
                assert(seen@.map_values(|x: String| x@).no_duplicates()) by {
                    assert forall|a: int, b: int|
                        0 <= a < b < svals.len() + 1 implies (svals + seq![cur])[a] != (svals
                        + seq![cur])[b] by {
                        if b == svals.len() {
                            if svals[a] == cur {
                                assert(svals.contains(cur));
                            }
                        }
                    }
                }
            }
        } else {
            proof {
                assert(svals.contains(cur));
                assert(svals.to_set().contains(cur));
                assert(svals.to_set().insert(cur) =~= svals.to_set());
            }
        }
        i = i + 1;
    }
    proof {
        assert(ms.take(n as int) =~= ms);
        seen@.map_values(|x: String| x@).unique_seq_to_set();
    }
    seen.len()
}


impl MetaStore for MemoryMetaStore {
    open spec fn model(&self) -> Seq<MetaModel> {
        store_view(self.records@)
    }

    open spec fn inv(&self) -> bool {
        &&& idents(self.records@).no_duplicates()
        &&& forall|i: int| 0 <= i < self.records@.len() ==> (#[trigger] self.records@[i]).wf()
    }

    fn upsert_identity(&mut self, sid: &str, session_id: String, now_ms: u64) {
        match self.find_record(sid) {
            Some(i) => {
                let ghost s0 = self.records@;
                let mut m = self.records.remove(i);
                m.set_session(session_id, now_ms);
                self.records.insert(i, m);
                proof {
                    lemma_store_update(s0, self.records@, i as int);
                    assert(store_view(self.records@) =~= store_view(s0).update(
                        i as int,
                        msession(store_view(s0)[i as int], session_id@, now_ms),
                    ));
                    assert(store_view(s0)[i as int].identity == sid@);
                }
            },
            None => {
                let ghost s0 = self.records@;
                let fresh = SocketMetadata::fresh(sid, session_id, now_ms);
                self.records.push(fresh);
                proof {
                    lemma_store_push(s0, self.records@, sid@);
                    assert(store_view(self.records@) =~= store_view(s0).push(
                        fresh_model(sid@, session_id@, now_ms),
                    ));
                }
            },
        }
    }

    fn set_session_id(&mut self, sid: &str, session_id: String, now_ms: u64) {
        match self.find_record(sid) {
            Some(i) => {
                let ghost s0 = self.records@;
                let mut m = self.records.remove(i);
                m.set_session(session_id, now_ms);
                self.records.insert(i, m);
                proof {
                    lemma_store_update(s0, self.records@, i as int);
                    assert(store_view(self.records@) =~= store_view(s0).update(
                        i as int,
                        msession(store_view(s0)[i as int], session_id@, now_ms),
                    ));
                    assert(store_view(s0)[i as int].identity == sid@);
                }
            },
            None => {},
        }
    }

    fn join_room(&mut self, sid: &str, room: &str, now_ms: u64) {
        match self.find_record(sid) {
            Some(i) => {
                let ghost s0 = self.records@;
                let mut m = self.records.remove(i);
                m.set_room(room, now_ms);
                self.records.insert(i, m);
                proof {
                    lemma_store_update(s0, self.records@, i as int);
                    assert(store_view(self.records@) =~= store_view(s0).update(
                        i as int,
                        mjoin(store_view(s0)[i as int], room@, now_ms),
                    ));
                    assert(store_view(s0)[i as int].identity == sid@);
                }
            },
            None => {},
        }
    }

    fn leave_room(&mut self, sid: &str, room: &str, now_ms: u64) {
        match self.find_record(sid) {
            Some(i) => {
                let ghost s0 = self.records@;
                let mut m = self.records.remove(i);
                m.unset_room(room, now_ms);
                self.records.insert(i, m);
                proof {
                    lemma_store_update(s0, self.records@, i as int);
                    assert(store_view(self.records@) =~= store_view(s0).update(
                        i as int,
                        mleave(store_view(s0)[i as int], room@, now_ms),
                    ));
                    assert(store_view(s0)[i as int].identity == sid@);
                }
            },
            None => {},
        }
    }

    fn clear(&mut self, sid: &str) {
        match self.find_record(sid) {
            Some(i) => {
                let ghost s0 = self.records@;
                let _ = self.records.remove(i);
                proof {
                    assert(store_view(self.records@) =~= store_view(s0).remove(i as int));
                    assert(idents(self.records@) =~= idents(s0).remove(i as int));
                    idents(s0).remove_ensures(i as int);
                    assert(idents(self.records@).no_duplicates()) by {
                        assert forall|a: int, b: int|
                            0 <= a < b < idents(self.records@).len() implies idents(
                            self.records@,
                        )[a] != idents(self.records@)[b] by {
                            let aa: int = if a < i { a } else { a + 1 };
                            let bb: int = if b < i { b } else { b + 1 };
                            assert(idents(self.records@)[a] == idents(s0)[aa]);
                            assert(idents(self.records@)[b] == idents(s0)[bb]);
                        }
                    }
                    assert(store_view(s0)[i as int].identity == sid@);
                }
            },
            None => {},
        }
    }

    fn unique_session_count(&self) -> (r: usize) {
        unique_sessions(&self.records)
    }

    fn touch_by_session(&mut self, session_id: &str, now_ms: u64) {
        let ghost s0 = self.records@;
        let mut out: Vec<SocketMetadata> = Vec::new();
        let ghost mut k: int = 0;
        while self.records.len() > 0
            invariant
                0 <= k <= s0.len(),
                self.records@ =~= s0.skip(k),
                idents(s0).no_duplicates(),
                forall|i: int| 0 <= i < s0.len() ==> (#[trigger] s0[i]).wf(),
                out@.len() == k,
                forall|j: int| 0 <= j < k ==> (#[trigger] out@[j]).wf(),
                forall|j: int| 0 <= j < k ==> (#[trigger] out@[j]).identity@ == s0[j].identity@,
                forall|j: int|
                    0 <= j < k ==> (#[trigger] out@[j]).model() == (if s0[j].model().session_id
                        == session_id@ {
                        mtouch(s0[j].model(), now_ms)
                    } else {
                        s0[j].model()
                    }),
            decreases self.records@.len(),
        {
            proof {
                assert(s0.skip(k)[0] == s0[k]);
            }
            let mut m = self.records.remove(0);
            if crate::strutil::str_eq(m.session_id.as_str(), session_id) {
                m.touch(now_ms);
            }
            out.push(m);
            proof {
                assert(self.records@ =~= s0.skip(k + 1));
                k = k + 1;
            }
        }
        self.records = out;
        proof {
            assert(idents(self.records@) =~= idents(s0));
        }
    }

    fn room_presence(&self, room: &str) -> (r: Vec<SocketMetadata>) {
        let ghost ms = store_view(self.records@);
        let n = self.records.len();
        let mut r: Vec<SocketMetadata> = Vec::new();
        let mut i: usize = 0;
        proof {
            lemma_filter_empty_take(ms, in_room_pred(room@));
            assert(store_view(r@) =~= ms.take(0).filter(in_room_pred(room@)));
        }
        while i < n
            invariant
                i <= n,
                n == self.records@.len(),
                ms == store_view(self.records@),
                self.inv(),
                store_view(r@) =~= ms.take(i as int).filter(in_room_pred(room@)),
                forall|j: int| 0 <= j < r@.len() ==> (#[trigger] r@[j]).wf(),
            decreases n - i,
        {
            proof {
                lemma_filter_take_step(ms, i as int, in_room_pred(room@));
                assert(in_room_pred(room@)(ms[i as int]) == ms[i as int].rooms.contains_key(
                    room@,
                ));
            }
            let rec = &self.records[i];
            if rec.has_room(room) {
                let ghost r0 = r@;
                let copy = rec.duplicate();
                r.push(copy);
                proof {
                    assert(store_view(r@) =~= store_view(r0).push(ms[i as int]));
                }
            }
            i = i + 1;
        }
        proof {
            assert(ms.take(n as int) =~= ms);
        }
        r
    }

    fn update_online_stats(&self, online: usize) {
        let _ = online;
    }

    fn find_by_session(&self, session_id: &str) -> (r: Option<SocketMetadata>) {
        let n = self.records.len();
        let mut i: usize = 0;
        while i < n
            invariant
                i <= n,
                n == self.records@.len(),
                self.inv(),
                forall|j: int|
                    0 <= j < i ==> (#[trigger] store_view(self.records@)[j]).session_id
                        != session_id@,
            decreases n - i,
        {
            if crate::strutil::str_eq(self.records[i].session_id.as_str(), session_id) {
                let m = self.records[i].duplicate();
                proof {
                    let w: int = i as int;
                    assert(store_view(self.records@)[w] == self.records@[w].model());
                    assert(self.model()[w].session_id == session_id@);
                    assert(m.model() == self.model()[w]);
                    assert(exists|k: int|
                        0 <= k < self.model().len() && (#[trigger] self.model()[k]).session_id
                            == session_id@ && m.model() == self.model()[k] && forall|j: int|
                            0 <= j < k ==> (#[trigger] self.model()[j]).session_id
                                != session_id@) by {
                        assert(0 <= w < self.model().len() && self.model()[w].session_id
                            == session_id@ && m.model() == self.model()[w] && forall|j: int|
                            0 <= j < w ==> (#[trigger] self.model()[j]).session_id != session_id@);
                    }
                }
                return Some(m);
            }
            proof {
                assert(store_view(self.records@)[i as int] == self.records@[i as int].model());
            }
            i = i + 1;
        }
        None
    }

    fn online_stats_today(&self) -> (r: Option<(usize, usize)>)
        ensures
            r is None,
    {
        None
    }
}

/// After removing index `i`, changing the record, and reinserting it at `i`,
/// the store reads as a pointwise update; identities other than `i`'s stand
/// where they stood, so distinctness survives any change that keeps the
/// record's identity.
proof fn lemma_store_update(s0: Seq<SocketMetadata>, s1: Seq<SocketMetadata>, i: int)
    requires
        0 <= i < s0.len(),
        s1.len() == s0.len(),
        forall|j: int| 0 <= j < s0.len() && j != i ==> s1[j] == s0[j],
        idents(s0).no_duplicates(),
        s1[i].identity@ == s0[i].identity@,
    ensures
        idents(s1).no_duplicates(),
        idents(s1) =~= idents(s0),
{
    assert(idents(s1) =~= idents(s0));
}

/// Pushing a record with an unseen identity keeps identities distinct.
proof fn lemma_store_push(s0: Seq<SocketMetadata>, s1: Seq<SocketMetadata>, sid: Seq<char>)
    requires
        idents(s0).no_duplicates(),
        !has_identity(store_view(s0), sid),
        s1.len() == s0.len() + 1,
        forall|j: int| 0 <= j < s0.len() ==> s1[j] == s0[j],
        s1[s0.len() as int].identity@ == sid,
    ensures
        idents(s1).no_duplicates(),
{
    assert forall|a: int, b: int|
        0 <= a < b < idents(s1).len() implies idents(s1)[a] != idents(s1)[b] by {
        if b == s0.len() {
            assert(idents(s1)[a] == idents(s0)[a]);
            if idents(s0)[a] == sid {
                assert(store_view(s0)[a].identity == sid);
                assert(has_identity(store_view(s0), sid));
            }
        } else {
            assert(idents(s1)[a] == idents(s0)[a]);
            assert(idents(s1)[b] == idents(s0)[b]);
        }
    }
}

/// Two records carry two distinct sessions or one shared session: distinct
/// session ids add 2 to the unique count, a shared one adds 1.
pub proof fn lemma_session_count_of_pair(a: MetaModel, b: MetaModel)
    ensures
        a.session_id != b.session_id ==> session_set(seq![a, b]).len() == 2,
        a.session_id == b.session_id ==> session_set(seq![a, b]).len() == 1,
{
    broadcast use vstd::set::axiom_set_insert_len;

    assert(session_seq(seq![a, b]) =~= seq![a.session_id, b.session_id]);
    assert(session_set(seq![a, b]) =~= Set::empty().insert(a.session_id).insert(b.session_id));
    assert(Set::<Seq<char>>::empty().len() == 0);
    if a.session_id == b.session_id {
        assert(Set::empty().insert(a.session_id).insert(b.session_id) =~= Set::empty().insert(
            a.session_id,
        ));
    }
}

/// A session-id update that collapses two distinct sessions into one brings
/// the unique count down by exactly one.
pub proof fn lemma_update_sid_collapses(a: MetaModel, b: MetaModel, now_ms: u64)
    requires
        a.session_id != b.session_id,
    ensures
        session_set(seq![a, msession(b, a.session_id, now_ms)]).len() == session_set(
            seq![a, b],
        ).len() - 1,
{
    lemma_session_count_of_pair(a, b);
    lemma_session_count_of_pair(a, msession(b, a.session_id, now_ms));
}

/// One room mark as a JSON member: the room name against its join time.
pub open spec fn stamp_entry_json(t: RoomStamp) -> Seq<char> {
    crate::events::json_string(t.room@) + seq![':'] + crate::events::dec_digits(t.at_ms as int)
}

/// The members of the `room_joined_at` object, comma-separated.
pub open spec fn stamps_json(s: Seq<RoomStamp>) -> Seq<char>
    decreases s.len(),
{
    if s.len() == 0 {
        Seq::empty()
    } else if s.len() == 1 {
        stamp_entry_json(s[0])
    } else {
        stamp_entry_json(s[0]) + seq![','] + stamps_json(s.drop_first())
    }
}

proof fn lemma_stamps_json_snoc(s: Seq<RoomStamp>, t: RoomStamp)
    requires
        s.len() >= 1,
    ensures
        stamps_json(s.push(t)) == stamps_json(s) + seq![','] + stamp_entry_json(t),
    decreases s.len(),
{
    if s.len() == 1 {
        assert(s.push(t)[0] == s[0]);
        assert(s.push(t).drop_first() =~= seq![t]);
        assert(stamps_json(seq![t]) == stamp_entry_json(t));
        assert(stamps_json(s.push(t)) =~= stamps_json(s) + seq![','] + stamp_entry_json(t));
    } else {
        assert(s.push(t)[0] == s[0]);
        assert(s.push(t).drop_first() =~= s.drop_first().push(t));
        lemma_stamps_json_snoc(s.drop_first(), t);
        assert(stamps_json(s.push(t)) =~= stamps_json(s) + seq![','] + stamp_entry_json(t));
    }
}

/// A whole record as JSON, the shape the remote hash stores under the
/// `socket` key: every field by name, the room marks as a nested object in
/// their stored order.
pub open spec fn record_json_spec(
    identity: Seq<char>,
    session_id: Seq<char>,
    connected_at_ms: int,
    updated_at_ms: int,
    stamps: Seq<RoomStamp>,
) -> Seq<char> {
    "{\"identity\":"@ + crate::events::json_string(identity) + ",\"session_id\":"@
        + crate::events::json_string(session_id) + ",\"connected_at_ms\":"@
        + crate::events::dec_digits(connected_at_ms) + ",\"updated_at_ms\":"@
        + crate::events::dec_digits(updated_at_ms) + ",\"room_joined_at\":{"@ + stamps_json(
        stamps,
    ) + "}}"@
}

impl SocketMetadata {
    /// This record encoded as JSON for the remote hash.
    pub fn to_json(&self) -> (r: String)
        ensures
            r@ == record_json_spec(
                self.identity@,
                self.session_id@,
                self.connected_at_ms as int,
                self.updated_at_ms as int,
                self.room_joined_at@,
            ),
    {
        let mut out = String::new();
        out.append("{\"identity\":");
        crate::events::append_json_string(&mut out, self.identity.as_str());
        out.append(",\"session_id\":");
        crate::events::append_json_string(&mut out, self.session_id.as_str());
        out.append(",\"connected_at_ms\":");
        let d1 = crate::events::u64_to_dec(self.connected_at_ms);
        out.append(d1.as_str());
        out.append(",\"updated_at_ms\":");
        let d2 = crate::events::u64_to_dec(self.updated_at_ms);
        out.append(d2.as_str());
        out.append(",\"room_joined_at\":{");
        let n = self.room_joined_at.len();
        let mut i: usize = 0;
        while i < n
            invariant
                i <= n,
                n == self.room_joined_at@.len(),
                i == 0 ==> out@ == record_json_head(
                    self.identity@,
                    self.session_id@,
                    self.connected_at_ms as int,
                    self.updated_at_ms as int,
                ),
                i > 0 ==> out@ == record_json_head(
                    self.identity@,
                    self.session_id@,
                    self.connected_at_ms as int,
                    self.updated_at_ms as int,
                ) + stamps_json(self.room_joined_at@.take(i as int)),
            decreases n - i,
        {
            let t = &self.room_joined_at[i];
            if i > 0 {
                out.append(",");
                proof {
                    reveal_strlit(",");
                }
            }
            out.append("\"");
            let esc = crate::events::escape_str(t.room.as_str());
            out.append(esc.as_str());
            out.append("\":");
            let d = crate::events::u64_to_dec(t.at_ms);
            out.append(d.as_str());
            proof {
                reveal_strlit("\"");
                reveal_strlit("\":");
                assert(self.room_joined_at@.take(i + 1).drop_first() =~= self.room_joined_at@
                    .subrange(1, i + 1));
                if i == 0 {
                    assert(self.room_joined_at@.take(1) =~= seq![self.room_joined_at@[0]]);
                    assert(stamps_json(self.room_joined_at@.take(1)) == stamp_entry_json(
                        self.room_joined_at@[0],
                    ));
                    assert(out@ =~= record_json_head(
                        self.identity@,
                        self.session_id@,
                        self.connected_at_ms as int,
                        self.updated_at_ms as int,
                    ) + stamps_json(self.room_joined_at@.take(1)));
                } else {
                    assert(self.room_joined_at@.take(i + 1) =~= self.room_joined_at@.take(
                        i as int,
                    ).push(self.room_joined_at@[i as int]));
                    lemma_stamps_json_snoc(
                        self.room_joined_at@.take(i as int),
                        self.room_joined_at@[i as int],
                    );
                    assert(out@ =~= record_json_head(
                        self.identity@,
                        self.session_id@,
                        self.connected_at_ms as int,
                        self.updated_at_ms as int,
                    ) + stamps_json(self.room_joined_at@.take(i + 1)));
                }
            }
            i = i + 1;
        }
        out.append("}}");
        proof {
            reveal_strlit("}}");
            assert(self.room_joined_at@.take(n as int) =~= self.room_joined_at@);
            if n == 0 {
                assert(stamps_json(self.room_joined_at@) == Seq::<char>::empty());
            }
            assert(out@ =~= record_json_spec(
                self.identity@,
                self.session_id@,
                self.connected_at_ms as int,
                self.updated_at_ms as int,
                self.room_joined_at@,
            ));
        }
        out
    }
}

/// Everything of the record's JSON before the room marks.
pub open spec fn record_json_head(
    identity: Seq<char>,
    session_id: Seq<char>,
    connected_at_ms: int,
    updated_at_ms: int,
) -> Seq<char> {
    "{\"identity\":"@ + crate::events::json_string(identity) + ",\"session_id\":"@
        + crate::events::json_string(session_id) + ",\"connected_at_ms\":"@
        + crate::events::dec_digits(connected_at_ms) + ",\"updated_at_ms\":"@
        + crate::events::dec_digits(updated_at_ms) + ",\"room_joined_at\":{"@
}

/// What the remote backend writes back on `upsert_identity`: the stored
/// record under the new session id and update time, or a fresh record where
/// none was stored.
pub fn upsert_record(
    existing: Option<SocketMetadata>,
    sid: &str,
    session_id: String,
    now_ms: u64,
) -> (r: SocketMetadata)
    requires
        match existing {
            Some(ref m) => m.wf(),
            None => true,
        },
    ensures
        r.wf(),
        r.model() == (match existing {
            Some(m) => msession(m.model(), session_id@, now_ms),
            None => fresh_model(sid@, session_id@, now_ms),
        }),
{
    match existing {
        Some(mut m) => {
            m.set_session(session_id, now_ms);
            m
        },
        None => SocketMetadata::fresh(sid, session_id, now_ms),
    }
}

/// What `max_online[today]` holds after a day's flush readings, in order:
/// absent before the first flush, then the running maximum.
pub open spec fn stored_max(rs: Seq<usize>) -> Option<usize>
    decreases rs.len(),
{
    if rs.len() == 0 {
        None
    } else {
        Some(
            match stored_max(rs.drop_last()) {
                Some(c) => if rs.last() > c {
                    rs.last()
                } else {
                    c
                },
                None => rs.last(),
            },
        )
    }
}

/// Within one day the stored maximum never goes down: after more flushes it
/// is at least what any earlier flush left.
pub proof fn lemma_stats_monotone(rs: Seq<usize>, k: int)
    requires
        0 <= k <= rs.len(),
    ensures
        match (stored_max(rs.take(k)), stored_max(rs)) {
            (Some(a), Some(b)) => a <= b,
            (None, _) => true,
            (Some(_), None) => false,
        },
    decreases rs.len(),
{
    if k < rs.len() {
        assert(rs.drop_last() =~= rs.take(rs.len() - 1));
        lemma_stats_monotone(rs.take(rs.len() - 1), k);
        assert(rs.take(rs.len() - 1).take(k) =~= rs.take(k));
    } else {
        assert(rs.take(k) =~= rs);
    }
}

/// What the daily statistics write for `max_online[today]`: the stored value
/// never goes down, and never sits below the reading just taken.
pub fn stats_new_max(current: Option<usize>, online: usize) -> (r: usize)
    ensures
        r == (match current {
            Some(c) => if online > c {
                online as int
            } else {
                c as int
            },
            None => online as int,
        }),
        r >= online,
        current is Some ==> r >= current->0,
        forall|rs: Seq<usize>|
            current == stored_max(rs) ==> Some(r) == stored_max(#[trigger] rs.push(online)),
{
    let r: usize = match current {
        Some(c) => if online > c {
            online
        } else {
            c
        },
        None => online,
    };
    proof {
        assert forall|rs: Seq<usize>|
            current == stored_max(rs) implies Some(r) == stored_max(
            #[trigger] rs.push(online),
        ) by {
            assert(rs.push(online).drop_last() =~= rs);
            assert(rs.push(online).last() == online);
        }
    }
    r
}

} // verus!
