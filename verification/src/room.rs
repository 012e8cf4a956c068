//! A room's presence state: members under a TTL liveness rule, and the last
//! count published on the room's count latch.
//!
//! The room is modelled as a finite map from member identity to the moment of
//! its last heartbeat. A member is effective ("alive") at `now` iff fewer than
//! `ttl` milliseconds passed since its last heartbeat. `published` mirrors the
//! value held by the count latch: every membership change recomputes the
//! effective count and publishes it when it differs from the latch value.
use vstd::prelude::*;

verus! {

/// One room member: an identity and the time of its last heartbeat.
pub struct Member {
    pub sid: String,
    pub last_seen: u64,
}

/// Milliseconds from `b` to `a`, clamped at zero when `a` lies before `b`.
pub open spec fn sat_sub(a: u64, b: u64) -> int {
    if a >= b {
        a - b
    } else {
        0
    }
}

/// A member last seen at `last_seen` is still effective at `now` under `ttl`.
pub open spec fn alive(last_seen: u64, now: u64, ttl: u64) -> bool {
    sat_sub(now, last_seen) < ttl
}

/// The identities of a member sequence, in order.
pub open spec fn sids(s: Seq<Member>) -> Seq<Seq<char>> {
    s.map_values(|m: Member| m.sid@)
}

/// A member sequence is well formed when no identity repeats.
pub open spec fn wf_members(s: Seq<Member>) -> bool {
    sids(s).no_duplicates()
}

/// The map from identity to last heartbeat that a member sequence holds.
pub open spec fn mem_map(s: Seq<Member>) -> Map<Seq<char>, u64>
    decreases s.len(),
{
    if s.len() == 0 {
        Map::empty()
    } else {
        mem_map(s.drop_last()).insert(s.last().sid@, s.last().last_seen)
    }
}

/// The identities effective at `now` under `ttl`.
pub open spec fn live_keys(m: Map<Seq<char>, u64>, now: u64, ttl: u64) -> Set<Seq<char>> {
    m.dom().filter(|k: Seq<char>| alive(m[k], now, ttl))
}

/// How many identities are effective at `now` under `ttl`.
pub open spec fn live_count(m: Map<Seq<char>, u64>, now: u64, ttl: u64) -> nat {
    live_keys(m, now, ttl).len()
}

/// Effectiveness at `now` under `ttl`, as a predicate on members.
pub open spec fn live_pred(now: u64, ttl: u64) -> spec_fn(Member) -> bool {
    |m: Member| alive(m.last_seen, now, ttl)
}

/// The members effective at `now`, as a subsequence.
pub open spec fn live_seq(s: Seq<Member>, now: u64, ttl: u64) -> Seq<Member> {
    s.filter(live_pred(now, ttl))
}

proof fn lemma_sids_drop_last(s: Seq<Member>)
    requires
        s.len() > 0,
    ensures
        sids(s.drop_last()) =~= sids(s).drop_last(),
{
}

proof fn lemma_mem_map_contains(s: Seq<Member>, k: Seq<char>)
    ensures
        mem_map(s).contains_key(k) <==> sids(s).contains(k),
    decreases s.len(),
{
    if s.len() == 0 {
        assert(!sids(s).contains(k));
    } else {
        lemma_mem_map_contains(s.drop_last(), k);
        lemma_sids_drop_last(s);
        assert(sids(s)[s.len() - 1] == s.last().sid@);
        if sids(s).contains(k) {
            let i = choose|i: int| 0 <= i < sids(s).len() && sids(s)[i] == k;
            if i < s.len() - 1 {
                assert(sids(s).drop_last()[i] == k);
                assert(sids(s.drop_last()).contains(k));
            } else {
                assert(k == s.last().sid@);
            }
        }
        if sids(s.drop_last()).contains(k) {
            let i = choose|i: int|
                0 <= i < sids(s.drop_last()).len() && sids(s.drop_last())[i] == k;
            assert(sids(s)[i] == k);
            assert(sids(s).contains(k));
        }
        if k == s.last().sid@ {
            assert(sids(s).contains(k));
        }
    }
}

proof fn lemma_mem_map_finite(s: Seq<Member>)
    ensures
        mem_map(s).dom().finite(),
    decreases s.len(),
{
    if s.len() > 0 {
        lemma_mem_map_finite(s.drop_last());
    }
}

proof fn lemma_mem_map_index(s: Seq<Member>, i: int)
    requires
        wf_members(s),
        0 <= i < s.len(),
    ensures
        mem_map(s).contains_key(s[i].sid@),
        mem_map(s)[s[i].sid@] == s[i].last_seen,
    decreases s.len(),
{
    lemma_sids_drop_last(s);
    if i < s.len() - 1 {
        assert(sids(s)[i] == s[i].sid@);
        assert(sids(s)[s.len() - 1] == s.last().sid@);
        assert(s[i].sid@ != s.last().sid@);
        lemma_mem_map_index(s.drop_last(), i);
        assert(s.drop_last()[i] == s[i]);
    }
}

proof fn lemma_mem_map_push(s: Seq<Member>, m: Member)
    ensures
        mem_map(s.push(m)) == mem_map(s).insert(m.sid@, m.last_seen),
{
    assert(s.push(m).drop_last() =~= s);
    assert(s.push(m).last() == m);
}

proof fn lemma_mem_map_update(s: Seq<Member>, i: int, v: u64)
    requires
        wf_members(s),
        0 <= i < s.len(),
    ensures
        wf_members(s.update(i, Member { sid: s[i].sid, last_seen: v })),
        mem_map(s.update(i, Member { sid: s[i].sid, last_seen: v })) =~= mem_map(s).insert(
            s[i].sid@,
            v,
        ),
    decreases s.len(),
{
    let s2 = s.update(i, Member { sid: s[i].sid, last_seen: v });
    assert(sids(s2) =~= sids(s));
    lemma_sids_drop_last(s);
    lemma_sids_drop_last(s2);
    if i == s.len() - 1 {
        assert(s2.drop_last() =~= s.drop_last());
        assert(s2.last() == Member { sid: s[i].sid, last_seen: v });
    } else {
        assert(s2.drop_last() =~= s.drop_last().update(
            i,
            Member { sid: s.drop_last()[i].sid, last_seen: v },
        ));
        lemma_mem_map_update(s.drop_last(), i, v);
        assert(s2.last() == s.last());
        // the two keys differ, so the inserts commute
        assert(sids(s)[i] == s[i].sid@);
        assert(sids(s)[s.len() - 1] == s.last().sid@);
        assert(s[i].sid@ != s.last().sid@);
    }
}

proof fn lemma_mem_map_remove(s: Seq<Member>, i: int)
    requires
        wf_members(s),
        0 <= i < s.len(),
    ensures
        wf_members(s.remove(i)),
        mem_map(s.remove(i)) =~= mem_map(s).remove(s[i].sid@),
    decreases s.len(),
{
    let s2 = s.remove(i);
    assert(sids(s2) =~= sids(s).remove(i));
    sids(s).remove_ensures(i);
    lemma_sids_drop_last(s);
    lemma_mem_map_contains(s.drop_last(), s[i].sid@);
    if i == s.len() - 1 {
        assert(s2 =~= s.drop_last());
        assert(sids(s)[s.len() - 1] == s[i].sid@);
        if sids(s.drop_last()).contains(s[i].sid@) {
            let j = choose|j: int|
                0 <= j < sids(s.drop_last()).len() && sids(s.drop_last())[j] == s[i].sid@;
            assert(sids(s)[j] == s[i].sid@);
            assert(false);
        }
    } else {
        assert(s2.drop_last() =~= s.drop_last().remove(i));
        assert(s2.last() == s.last());
        lemma_mem_map_remove(s.drop_last(), i);
        assert(sids(s)[i] == s[i].sid@);
        assert(sids(s)[s.len() - 1] == s.last().sid@);
        assert(s[i].sid@ != s.last().sid@);
    }
}

proof fn lemma_mem_map_dom_len(s: Seq<Member>)
    requires
        wf_members(s),
    ensures
        mem_map(s).dom().finite(),
        mem_map(s).dom().len() == s.len(),
    decreases s.len(),
{
    if s.len() > 0 {
        let dl = s.drop_last();
        lemma_sids_drop_last(s);
        assert(sids(s)[s.len() - 1] == s.last().sid@);
        lemma_mem_map_dom_len(dl);
        lemma_mem_map_contains(dl, s.last().sid@);
        if sids(dl).contains(s.last().sid@) {
            let j = choose|j: int| 0 <= j < sids(dl).len() && sids(dl)[j] == s.last().sid@;
            assert(sids(s)[j] == s.last().sid@);
            assert(false);
        }
        assert(mem_map(s).dom() =~= mem_map(dl).dom().insert(s.last().sid@));
        broadcast use vstd::set::axiom_set_insert_len;

    }
}

pub(crate) proof fn lemma_filter_take_step<A>(s: Seq<A>, i: int, pred: spec_fn(A) -> bool)
    requires
        0 <= i < s.len(),
    ensures
        s.take(i + 1).filter(pred) == if pred(s[i]) {
            s.take(i).filter(pred).push(s[i])
        } else {
            s.take(i).filter(pred)
        },
        s.take(0).filter(pred) == Seq::<A>::empty(),
{
    reveal(Seq::filter);
    assert(s.take(i + 1).drop_last() =~= s.take(i));
    assert(s.take(i + 1).last() == s[i]);
    assert(s.take(0) =~= Seq::<A>::empty());
}

pub(crate) proof fn lemma_filter_empty_take<A>(s: Seq<A>, pred: spec_fn(A) -> bool)
    ensures
        s.take(0).filter(pred) == Seq::<A>::empty(),
{
    reveal(Seq::filter);
    assert(s.take(0) =~= Seq::<A>::empty());
}

proof fn lemma_filter_drop_last(s: Seq<Member>, pred: spec_fn(Member) -> bool)
    requires
        s.len() > 0,
    ensures
        s.filter(pred) == if pred(s.last()) {
            s.drop_last().filter(pred).push(s.last())
        } else {
            s.drop_last().filter(pred)
        },
{
    reveal(Seq::filter);
}

proof fn lemma_wf_filter(s: Seq<Member>, pred: spec_fn(Member) -> bool)
    requires
        wf_members(s),
    ensures
        wf_members(s.filter(pred)),
        forall|k: Seq<char>| sids(s.filter(pred)).contains(k) ==> sids(s).contains(k),
    decreases s.len(),
{
    broadcast use vstd::seq_lib::group_filter_ensures;

    if s.len() > 0 {
        let dl = s.drop_last();
        lemma_sids_drop_last(s);
        assert(sids(s)[s.len() - 1] == s.last().sid@);
        assert(wf_members(dl));
        lemma_wf_filter(dl, pred);
        lemma_filter_drop_last(s, pred);
        assert(forall|k: Seq<char>| sids(dl).contains(k) ==> sids(s).contains(k)) by {
            assert forall|k: Seq<char>| sids(dl).contains(k) implies sids(s).contains(k) by {
                let j = choose|j: int| 0 <= j < sids(dl).len() && sids(dl)[j] == k;
                assert(sids(s)[j] == k);
            }
        }
        if pred(s.last()) {
            let f = dl.filter(pred).push(s.last());
            assert(sids(f) =~= sids(dl.filter(pred)).push(s.last().sid@));
            if sids(dl.filter(pred)).contains(s.last().sid@) {
                assert(sids(dl).contains(s.last().sid@));
                let j = choose|j: int| 0 <= j < sids(dl).len() && sids(dl)[j] == s.last().sid@;
                assert(sids(s)[j] == s.last().sid@);
                assert(false);
            }
            assert(sids(f).drop_last() =~= sids(dl.filter(pred)));
            assert forall|k: Seq<char>| sids(f).contains(k) implies sids(s).contains(k) by {
                let j = choose|j: int| 0 <= j < sids(f).len() && sids(f)[j] == k;
                if j < sids(f).len() - 1 {
                    assert(sids(dl.filter(pred))[j] == k);
                    assert(sids(dl.filter(pred)).contains(k));
                }
            }
        }
    }
}

/// Retaining only the live members leaves the map restricted to its live keys.
proof fn lemma_mem_map_filter_live(s: Seq<Member>, now: u64, ttl: u64)
    requires
        wf_members(s),
    ensures
        mem_map(live_seq(s, now, ttl)) =~= mem_map(s).restrict(
            live_keys(mem_map(s), now, ttl),
        ),
    decreases s.len(),
{
    let pred = live_pred(now, ttl);
    if s.len() == 0 {
        reveal(Seq::filter);
    } else {
        let dl = s.drop_last();
        let k = s.last().sid@;
        let v = s.last().last_seen;
        lemma_sids_drop_last(s);
        assert(sids(s)[s.len() - 1] == k);
        assert(wf_members(dl));
        lemma_mem_map_filter_live(dl, now, ttl);
        lemma_filter_drop_last(s, pred);
        lemma_mem_map_contains(dl, k);
        if sids(dl).contains(k) {
            let j = choose|j: int| 0 <= j < sids(dl).len() && sids(dl)[j] == k;
            assert(sids(s)[j] == k);
            assert(false);
        }
        // every key of mem_map(s) other than k keeps its binding from dl
        assert(mem_map(s) == mem_map(dl).insert(k, v));
        if pred(s.last()) {
            lemma_mem_map_push(dl.filter(pred), s.last());
        }
    }
}

/// With distinct identities, counting live members counts live keys.
proof fn lemma_live_count_card(s: Seq<Member>, now: u64, ttl: u64)
    requires
        wf_members(s),
    ensures
        live_keys(mem_map(s), now, ttl).finite(),
        live_seq(s, now, ttl).len() == live_count(mem_map(s), now, ttl),
    decreases s.len(),
{
    let pred = live_pred(now, ttl);
    lemma_mem_map_finite(s);
    assert(live_keys(mem_map(s), now, ttl).finite()) by {
        vstd::set_lib::lemma_len_subset(
            live_keys(mem_map(s), now, ttl),
            mem_map(s).dom(),
        );
    }
    if s.len() == 0 {
        reveal(Seq::filter);
        assert(live_keys(mem_map(s), now, ttl) =~= Set::<Seq<char>>::empty());
    } else {
        let dl = s.drop_last();
        let k = s.last().sid@;
        let v = s.last().last_seen;
        lemma_sids_drop_last(s);
        assert(sids(s)[s.len() - 1] == k);
        assert(wf_members(dl));
        lemma_live_count_card(dl, now, ttl);
        lemma_filter_drop_last(s, pred);
        lemma_mem_map_contains(dl, k);
        if sids(dl).contains(k) {
            let j = choose|j: int| 0 <= j < sids(dl).len() && sids(dl)[j] == k;
            assert(sids(s)[j] == k);
            assert(false);
        }
        let lk = live_keys(mem_map(s), now, ttl);
        let lkdl = live_keys(mem_map(dl), now, ttl);
        if alive(v, now, ttl) {
            assert(lk =~= lkdl.insert(k));
            assert(lk.len() == lkdl.len() + 1) by {
                broadcast use vstd::set::axiom_set_insert_len;

            }
        } else {
            assert(lk =~= lkdl);
        }
    }
}

/// A room: its member map and the value last published on the count latch.
pub struct Room {
    pub members: Vec<Member>,
    pub published: usize,
}

/// Counts the members alive at `now` under `ttl`.
fn count_live(members: &Vec<Member>, now: u64, ttl: u64) -> (c: usize)
    ensures
        c == live_seq(members@, now, ttl).len(),
{
    proof {
        lemma_filter_empty_take(members@, live_pred(now, ttl));
    }
    let n = members.len();
    let mut c: usize = 0;
    let mut i: usize = 0;
    while i < n
        invariant
            i <= n,
            n == members@.len(),
            c == members@.take(i as int).filter(live_pred(now, ttl)).len(),
            c <= i,
        decreases n - i,
    {
        proof {
            lemma_filter_take_step(members@, i as int, live_pred(now, ttl));
            assert(live_pred(now, ttl)(members@[i as int]) == alive(
                members@[i as int].last_seen,
                now,
                ttl,
            ));
        }
        let last = members[i].last_seen;
        let gap = if now >= last {
            now - last
        } else {
            0
        };
        if gap < ttl {
            c = c + 1;
        }
        i = i + 1;
    }
    proof {
        assert(members@.take(n as int) =~= members@);
    }
    c
}

impl Room {
    /// No identity appears twice among the members.
    pub open spec fn wf(self) -> bool {
        wf_members(self.members@)
    }

    /// The member map this room holds.
    pub open spec fn map_view(self) -> Map<Seq<char>, u64> {
        mem_map(self.members@)
    }

    /// A fresh room: no members, latch at zero.
    pub fn new() -> (r: Room)
        ensures
            r.wf(),
            r.map_view() == Map::<Seq<char>, u64>::empty(),
            r.published == 0,
    {
        Room { members: Vec::new(), published: 0 }
    }

    fn find_sid(&self, sid: &str) -> (r: Option<usize>)
        ensures
            match r {
                Some(i) => i < self.members@.len() && self.members@[i as int].sid@ == sid@,
                None => !sids(self.members@).contains(sid@),
            },
    {
        let n = self.members.len();
        let mut i: usize = 0;
        while i < n
            invariant
                i <= n,
                n == self.members@.len(),
                forall|j: int| 0 <= j < i ==> sids(self.members@)[j] != sid@,
            decreases n - i,
        {
            if crate::strutil::str_eq(self.members[i].sid.as_str(), sid) {
                return Some(i);
            }
            proof {
                assert(sids(self.members@)[i as int] == self.members@[i as int].sid@);
            }
            i = i + 1;
        }
        proof {
            if sids(self.members@).contains(sid@) {
                let j = choose|j: int|
                    0 <= j < sids(self.members@).len() && sids(self.members@)[j] == sid@;
                assert(false);
            }
        }
        None
    }

    /// Recompute the effective count and move the latch to it.
    fn republish(&mut self, now: u64, ttl: u64) -> (r: usize)
        requires
            old(self).wf(),
        ensures
            final(self).wf(),
            final(self).members@ == old(self).members@,
            r == live_count(final(self).map_view(), now, ttl),
            final(self).published == r,
    {
        proof {
            lemma_live_count_card(self.members@, now, ttl);
        }
        let c = count_live(&self.members, now, ttl);
        if self.published != c {
            self.published = c;
        }
        c
    }

    /// Insert or refresh `sid` at `now`, then publish the new effective count.
    ///
    /// The count returned is the room's effective count at `now`, and the
    /// latch holds it: joining always brings the latch up to date.
    pub fn join(&mut self, sid: &str, now: u64, ttl: u64) -> (r: usize)
        requires
            old(self).wf(),
        ensures
            final(self).wf(),
            final(self).map_view() == old(self).map_view().insert(sid@, now),
            r == live_count(final(self).map_view(), now, ttl),
            final(self).published == r,
            count_agrees(*final(self), now, ttl),
    {
        match self.find_sid(sid) {
            Some(i) => {
                let ghost s0 = self.members@;
                let mut m = self.members.remove(i);
                m.last_seen = now;
                self.members.insert(i, m);
                proof {
                    assert(self.members@ =~= s0.update(
                        i as int,
                        Member { sid: s0[i as int].sid, last_seen: now },
                    ));
                    lemma_mem_map_update(s0, i as int, now);
                    lemma_mem_map_index(s0, i as int);
                    assert(mem_map(self.members@) =~= mem_map(s0).insert(sid@, now));
                }
            },
            None => {
                let ghost s0 = self.members@;
                self.members.push(Member { sid: sid.to_owned(), last_seen: now });
                proof {
                    lemma_mem_map_push(s0, self.members@.last());
                    assert(sids(self.members@).drop_last() =~= sids(s0));
                    assert(sids(self.members@)[s0.len() as int] == sid@);
                    assert(wf_members(self.members@)) by {
                        assert forall|a: int, b: int|
                            0 <= a < b < sids(self.members@).len() implies sids(
                            self.members@,
                        )[a] != sids(self.members@)[b] by {
                            if b == s0.len() {
                                assert(sids(self.members@)[a] == sids(s0)[a]);
                                if sids(s0)[a] == sid@ {
                                    assert(sids(s0).contains(sid@));
                                }
                            } else {
                                assert(sids(self.members@)[a] == sids(s0)[a]);
                                assert(sids(self.members@)[b] == sids(s0)[b]);
                            }
                        }
                    }
                    assert(mem_map(self.members@) =~= mem_map(s0).insert(sid@, now));
                }
            },
        }
        self.republish(now, ttl)
    }

    /// Refresh `sid`'s heartbeat at `now`; an unknown identity is a no-op.
    ///
    /// Heartbeats never touch the latch.
    pub fn hb(&mut self, sid: &str, now: u64)
        requires
            old(self).wf(),
        ensures
            final(self).wf(),
            final(self).map_view() == if old(self).map_view().contains_key(sid@) {
                old(self).map_view().insert(sid@, now)
            } else {
                old(self).map_view()
            },
            final(self).published == old(self).published,
    {
        proof {
            lemma_mem_map_contains(self.members@, sid@);
        }
        match self.find_sid(sid) {
            Some(i) => {
                let ghost s0 = self.members@;
                let mut m = self.members.remove(i);
                m.last_seen = now;
                self.members.insert(i, m);
                proof {
                    assert(self.members@ =~= s0.update(
                        i as int,
                        Member { sid: s0[i as int].sid, last_seen: now },
                    ));
                    lemma_mem_map_update(s0, i as int, now);
                    lemma_mem_map_index(s0, i as int);
                    assert(sids(s0)[i as int] == sid@);
                    assert(mem_map(self.members@) =~= mem_map(s0).insert(sid@, now));
                }
            },
            None => {},
        }
    }

    /// Remove `sid`, then publish the new effective count.
    pub fn leave(&mut self, sid: &str, now: u64, ttl: u64) -> (r: usize)
        requires
            old(self).wf(),
        ensures
            final(self).wf(),
            final(self).map_view() == old(self).map_view().remove(sid@),
            r == live_count(final(self).map_view(), now, ttl),
            final(self).published == r,
            count_agrees(*final(self), now, ttl),
    {
        proof {
            lemma_mem_map_contains(self.members@, sid@);
        }
        match self.find_sid(sid) {
            Some(i) => {
                let ghost s0 = self.members@;
                let _ = self.members.remove(i);
                proof {
                    lemma_mem_map_remove(s0, i as int);
                    assert(sids(s0)[i as int] == sid@);
                    assert(mem_map(self.members@) =~= mem_map(s0).remove(sid@));
                }
            },
            None => {
                proof {
                    lemma_mem_map_contains(self.members@, sid@);
                    assert(mem_map(self.members@) =~= mem_map(self.members@).remove(sid@));
                }
            },
        }
        self.republish(now, ttl)
    }

    /// Drop every expired member; republish only when the set shrank.
    ///
    /// Returns the retained size, which is the effective count at `now`.
    /// When nothing was dropped the latch keeps its old value, so the latch
    /// agrees with the effective count afterwards provided it agreed before.
    pub fn cleanup(&mut self, now: u64, ttl: u64) -> (r: usize)
        requires
            old(self).wf(),
        ensures
            final(self).wf(),
            final(self).map_view() == old(self).map_view().restrict(
                live_keys(old(self).map_view(), now, ttl),
            ),
            r == live_count(final(self).map_view(), now, ttl),
            r == final(self).map_view().dom().len(),
            final(self).published == (if final(self).map_view().dom().len()
                != old(self).map_view().dom().len() {
                r as int
            } else {
                old(self).published as int
            }),
            count_agrees(*old(self), now, ttl) ==> count_agrees(*final(self), now, ttl),
    {
        let ghost s0 = self.members@;
        let before = self.members.len();
        let mut kept: Vec<Member> = Vec::new();
        let ghost mut k: int = 0;
        proof {
            lemma_filter_empty_take(s0, live_pred(now, ttl));
        }
        while self.members.len() > 0
            invariant
                0 <= k <= s0.len(),
                self.members@ =~= s0.skip(k),
                kept@ =~= s0.take(k).filter(live_pred(now, ttl)),
                self.published == old(self).published,
            decreases self.members@.len(),
        {
            proof {
                lemma_filter_take_step(s0, k, live_pred(now, ttl));
                assert(s0.skip(k)[0] == s0[k]);
                assert(live_pred(now, ttl)(s0[k]) == alive(s0[k].last_seen, now, ttl));
            }
            let m = self.members.remove(0);
            let last = m.last_seen;
            let gap = if now >= last {
                now - last
            } else {
                0
            };
            if gap < ttl {
                kept.push(m);
            }
            proof {
                assert(self.members@ =~= s0.skip(k + 1));
                k = k + 1;
            }
        }
        proof {
            assert(s0.take(k) =~= s0);
            assert(kept@ =~= live_seq(s0, now, ttl));
        }
        self.members = kept;
        proof {
            lemma_wf_filter(s0, live_pred(now, ttl));
            lemma_mem_map_filter_live(s0, now, ttl);
            lemma_live_count_card(s0, now, ttl);
            lemma_restrict_card(s0, now, ttl);
            lemma_mem_map_dom_len(s0);
            lemma_mem_map_dom_len(self.members@);
        }
        let r = self.members.len();
        if r != before {
            if self.published != r {
                self.published = r;
            }
        }
        r
    }

    /// The effective count at `now`, without touching the room.
    pub fn active_count(&self, now: u64, ttl: u64) -> (r: usize)
        requires
            self.wf(),
        ensures
            r == live_count(self.map_view(), now, ttl),
    {
        proof {
            lemma_live_count_card(self.members@, now, ttl);
        }
        count_live(&self.members, now, ttl)
    }
}

/// The count latch agrees with the room: the published value is the
/// effective count at `now` under `ttl`.
pub open spec fn count_agrees(r: Room, now: u64, ttl: u64) -> bool {
    r.published == live_count(r.map_view(), now, ttl)
}

/// Joining twice with the same identity leaves the room in the state of the
/// second join alone: membership holds no duplicate, and the timestamp is the
/// second one. Since the published count is a function of the member map and
/// the join time, the whole room state agrees with a single join.
pub proof fn lemma_join_idempotent(m: Map<Seq<char>, u64>, sid: Seq<char>, t1: u64, t2: u64)
    ensures
        m.insert(sid, t1).insert(sid, t2) == m.insert(sid, t2),
{
    assert(m.insert(sid, t1).insert(sid, t2) =~= m.insert(sid, t2));
}

/// A heartbeat for `sid` at `t` keeps `sid` effective at every instant `t2`
/// short of `t + ttl`: heartbeats extend liveness by a full TTL.
pub proof fn lemma_heartbeat_preserves_presence(
    m: Map<Seq<char>, u64>,
    sid: Seq<char>,
    t: u64,
    t2: u64,
    ttl: u64,
)
    requires
        sat_sub(t2, t) < ttl,
    ensures
        live_keys(m.insert(sid, t), t2, ttl).contains(sid),
{
}

/// A heartbeat for a still-effective member does not change the effective
/// count, so the count latch stays in agreement even though a heartbeat never
/// publishes. (A heartbeat that revives an already-expired member is the one
/// input that leaves the latch behind until membership next changes.)
pub proof fn lemma_heartbeat_count_unchanged(
    m: Map<Seq<char>, u64>,
    sid: Seq<char>,
    now: u64,
    ttl: u64,
)
    requires
        m.contains_key(sid),
        alive(m[sid], now, ttl),
    ensures
        live_keys(m.insert(sid, now), now, ttl) == live_keys(m, now, ttl),
        live_count(m.insert(sid, now), now, ttl) == live_count(m, now, ttl),
{
    assert(alive(now, now, ttl));
    assert(live_keys(m.insert(sid, now), now, ttl) =~= live_keys(m, now, ttl));
}

/// Filtering an all-live sequence keeps it whole.
proof fn lemma_filter_of_live_is_self(s: Seq<Member>, now: u64, ttl: u64)
    requires
        forall|i: int| 0 <= i < s.len() ==> alive(s[i].last_seen, now, ttl),
    ensures
        live_seq(s, now, ttl) =~= s,
    decreases s.len(),
{
    reveal(Seq::filter);
    if s.len() > 0 {
        lemma_filter_of_live_is_self(s.drop_last(), now, ttl);
    }
}

/// The retained map's size is the live count of the original map.
proof fn lemma_restrict_card(s: Seq<Member>, now: u64, ttl: u64)
    requires
        wf_members(s),
    ensures
        mem_map(s).restrict(live_keys(mem_map(s), now, ttl)).dom().len() == live_count(
            mem_map(s),
            now,
            ttl,
        ),
        live_count(
            mem_map(s).restrict(live_keys(mem_map(s), now, ttl)),
            now,
            ttl,
        ) == live_count(mem_map(s), now, ttl),
{
    let m = mem_map(s);
    let lk = live_keys(m, now, ttl);
    assert(m.restrict(lk).dom() =~= lk);
    assert(live_keys(m.restrict(lk), now, ttl) =~= lk);
}

} // verus!
