//! The room registry: a name-to-room mapping with creation, reaping of empty
//! rooms, and aggregated count snapshots.
use vstd::prelude::*;

use crate::room::{
    lemma_filter_empty_take, lemma_filter_take_step, live_count, live_keys, mem_map, Room,
};

verus! {

/// One registry entry: a room under its name.
pub struct RoomEntry {
    pub name: String,
    pub room: Room,
}

/// What a registry entry holds, abstractly: the room's name, member map and
/// latch value.
pub ghost struct EntryModel {
    pub name: Seq<char>,
    pub members: Map<Seq<char>, u64>,
    pub published: nat,
}

/// The names of the entries, in order.
pub open spec fn names(s: Seq<RoomEntry>) -> Seq<Seq<char>> {
    s.map_values(|e: RoomEntry| e.name@)
}

/// The abstract content of the entries, in order.
pub open spec fn models(s: Seq<RoomEntry>) -> Seq<EntryModel> {
    s.map_values(
        |e: RoomEntry| EntryModel {
            name: e.name@,
            members: mem_map(e.room.members@),
            published: e.room.published as nat,
        },
    )
}

/// What reaping does to one entry: expired members go, and the latch moves to
/// the retained size exactly when something was dropped.
pub open spec fn clean_model(m: EntryModel, now: u64, ttl: u64) -> EntryModel {
    let retained = m.members.restrict(live_keys(m.members, now, ttl));
    EntryModel {
        name: m.name,
        members: retained,
        published: if retained.dom().len() != m.members.dom().len() {
            retained.dom().len()
        } else {
            m.published
        },
    }
}

/// An entry survives reaping iff it retains a member.
pub open spec fn survives(now: u64, ttl: u64) -> spec_fn(EntryModel) -> bool {
    |m: EntryModel| clean_model(m, now, ttl).members.dom().len() > 0
}

/// What a full reaping pass leaves: every entry cleaned, empty ones removed.
pub open spec fn reg_clean(s: Seq<EntryModel>, now: u64, ttl: u64) -> Seq<EntryModel> {
    s.filter(survives(now, ttl)).map_values(|m: EntryModel| clean_model(m, now, ttl))
}

/// One room's snapshot line: its name and its effective count.
pub open spec fn snap_pair(now: u64, ttl: u64) -> spec_fn(EntryModel) -> (Seq<char>, nat) {
    |m: EntryModel| (m.name, live_count(m.members, now, ttl))
}

/// What a snapshot reports: every room's effective count, zeroes left out.
pub open spec fn snap_model(s: Seq<EntryModel>, now: u64, ttl: u64) -> Seq<(Seq<char>, nat)> {
    s.map_values(snap_pair(now, ttl)).filter(|p: (Seq<char>, nat)| p.1 > 0)
}

/// The view of an owned snapshot list.
pub open spec fn pairs_view(s: Seq<(String, usize)>) -> Seq<(Seq<char>, nat)> {
    s.map_values(|p: (String, usize)| (p.0@, p.1 as nat))
}

/// The registry of rooms, keyed by room name.
pub struct Rooms {
    pub rooms: Vec<RoomEntry>,
}

impl Rooms {
    /// Names are distinct and every room is well formed.
    pub open spec fn wf(self) -> bool {
        &&& names(self.rooms@).no_duplicates()
        &&& forall|i: int| 0 <= i < self.rooms@.len() ==> (#[trigger] self.rooms@[i]).room.wf()
    }

    /// An empty registry.
    pub fn new() -> (r: Rooms)
        ensures
            r.wf(),
            r.rooms@.len() == 0,
    {
        Rooms { rooms: Vec::new() }
    }

    /// The room called `name`, created empty on first use.
    ///
    /// Idempotent: when the name is already present nothing changes and the
    /// existing room's position is returned, so every caller asking for one
    /// name reaches the same room.
    pub fn get_or_create(&mut self, name: &str) -> (i: usize)
        requires
            old(self).wf(),
        ensures
            final(self).wf(),
            i < final(self).rooms@.len(),
            final(self).rooms@[i as int].name@ == name@,
            names(old(self).rooms@).contains(name@) ==> *final(self) == *old(self),
            !names(old(self).rooms@).contains(name@) ==> {
                &&& final(self).rooms@.len() == old(self).rooms@.len() + 1
                &&& final(self).rooms@.take(old(self).rooms@.len() as int) == old(self).rooms@
                &&& i == old(self).rooms@.len()
                &&& final(self).rooms@[i as int].room.map_view() == Map::<Seq<char>, u64>::empty()
                &&& final(self).rooms@[i as int].room.published == 0
            },
    {
        let n = self.rooms.len();
        let mut i: usize = 0;
        while i < n
            invariant
                i <= n,
                n == self.rooms@.len(),
                forall|j: int| 0 <= j < i ==> names(self.rooms@)[j] != name@,
                self == old(self),
                self.wf(),
            decreases n - i,
        {
            if crate::strutil::str_eq(self.rooms[i].name.as_str(), name) {
                proof {
                    assert(names(self.rooms@)[i as int] == name@);
                    assert(names(self.rooms@).contains(name@));
                }
                return i;
            }
            proof {
                assert(names(self.rooms@)[i as int] == self.rooms@[i as int].name@);
            }
            i = i + 1;
        }
        proof {
            if names(self.rooms@).contains(name@) {
                let j = choose|j: int|
                    0 <= j < names(self.rooms@).len() && names(self.rooms@)[j] == name@;
                assert(false);
            }
        }
        let ghost s0 = self.rooms@;
        self.rooms.push(RoomEntry { name: name.to_owned(), room: Room::new() });
        proof {
            assert(self.rooms@.take(s0.len() as int) =~= s0);
            assert(names(self.rooms@)[s0.len() as int] == name@);
            assert(names(self.rooms@).no_duplicates()) by {
                assert forall|a: int, b: int|
                    0 <= a < b < names(self.rooms@).len() implies names(self.rooms@)[a] != names(
                    self.rooms@,
                )[b] by {
                    if b == s0.len() {
                        assert(names(self.rooms@)[a] == names(s0)[a]);
                        if names(s0)[a] == name@ {
                            assert(names(s0).contains(name@));
                        }
                    } else {
                        assert(names(self.rooms@)[a] == names(s0)[a]);
                        assert(names(self.rooms@)[b] == names(s0)[b]);
                    }
                }
            }
        }
        n
    }

    /// Reap every room: drop expired members everywhere and remove rooms left
    /// with no member. Surviving rooms keep their order.
    pub fn cleanup_all(&mut self, now: u64, ttl: u64)
        requires
            old(self).wf(),
        ensures
            final(self).wf(),
            models(final(self).rooms@) == reg_clean(models(old(self).rooms@), now, ttl),
    {
        let ghost s0 = self.rooms@;
        let mut kept: Vec<RoomEntry> = Vec::new();
        let ghost mut k: int = 0;
        proof {
            lemma_filter_empty_take(models(s0), survives(now, ttl));
            assert(models(s0).take(0) =~= models(s0.take(0)));
        }
        while self.rooms.len() > 0
            invariant
                0 <= k <= s0.len(),
                self.rooms@ =~= s0.skip(k),
                names(s0).no_duplicates(),
                forall|i: int| 0 <= i < s0.len() ==> (#[trigger] s0[i]).room.wf(),
                models(kept@) =~= reg_clean(models(s0).take(k), now, ttl),
                names(kept@).no_duplicates(),
                forall|i: int| 0 <= i < kept@.len() ==> (#[trigger] kept@[i]).room.wf(),
                forall|i: int|
                    0 <= i < kept@.len() ==> names(s0).take(k).contains(
                        (#[trigger] kept@[i]).name@,
                    ),
            decreases self.rooms@.len(),
        {
            proof {
                lemma_filter_take_step(models(s0), k, survives(now, ttl));
                assert(s0.skip(k)[0] == s0[k]);
                assert(models(s0)[k] == (EntryModel {
                    name: s0[k].name@,
                    members: mem_map(s0[k].room.members@),
                    published: s0[k].room.published as nat,
                }));
            }
            let mut e = self.rooms.remove(0);
            let ghost pre = e;
            let c = e.room.cleanup(now, ttl);
            proof {
                assert(models(s0)[k].members == mem_map(pre.room.members@));
                assert(clean_model(models(s0)[k], now, ttl).members == mem_map(e.room.members@));
                assert(clean_model(models(s0)[k], now, ttl).published == e.room.published as nat);
            }
            if c > 0 {
                let ghost kept0 = kept@;
                kept.push(e);
                proof {
                    assert(models(kept@).drop_last() =~= models(kept0));
                    assert(models(kept@).last() == clean_model(models(s0)[k], now, ttl));
                    assert(survives(now, ttl)(models(s0)[k]));
                    assert(models(kept@) =~= models(kept0).push(
                        clean_model(models(s0)[k], now, ttl),
                    ));
                    // the reg_clean of the longer prefix appends the cleaned entry
                    assert(reg_clean(models(s0).take(k + 1), now, ttl) =~= reg_clean(
                        models(s0).take(k),
                        now,
                        ttl,
                    ).push(clean_model(models(s0)[k], now, ttl)));
                    // the new name was not seen yet, so names stay distinct
                    assert(names(kept@).drop_last() =~= names(kept0));
                    assert(names(kept@).last() == s0[k].name@);
                    assert(names(s0)[k] == s0[k].name@);
                    if names(s0).take(k).contains(s0[k].name@) {
                        let j = choose|j: int|
                            0 <= j < k && names(s0).take(k)[j] == s0[k].name@;
                        assert(names(s0)[j] == names(s0)[k]);
                        assert(false);
                    }
                    assert(names(kept@).no_duplicates()) by {
                        assert forall|a: int, b: int|
                            0 <= a < b < names(kept@).len() implies names(kept@)[a] != names(
                            kept@,
                        )[b] by {
                            if b == kept0.len() {
                                assert(names(kept@)[a] == names(kept0)[a]);
                                assert(names(s0).take(k).contains(kept0[a].name@));
                            } else {
                                assert(names(kept@)[a] == names(kept0)[a]);
                                assert(names(kept@)[b] == names(kept0)[b]);
                            }
                        }
                    }
                    assert(forall|i: int|
                        0 <= i < kept@.len() ==> names(s0).take(k + 1).contains(
                            (#[trigger] kept@[i]).name@,
                        )) by {
                        assert forall|i: int| 0 <= i < kept@.len() implies names(s0).take(
                            k + 1,
                        ).contains((#[trigger] kept@[i]).name@) by {
                            if i < kept0.len() {
                                let j = choose|j: int|
                                    0 <= j < k && names(s0).take(k)[j] == kept0[i].name@;
                                assert(names(s0).take(k + 1)[j] == kept0[i].name@);
                            } else {
                                assert(names(s0).take(k + 1)[k] == s0[k].name@);
                            }
                        }
                    }
                }
            } else {
                proof {
                    assert(!survives(now, ttl)(models(s0)[k]));
                    assert(reg_clean(models(s0).take(k + 1), now, ttl) =~= reg_clean(
                        models(s0).take(k),
                        now,
                        ttl,
                    ));
                    assert(forall|i: int|
                        0 <= i < kept@.len() ==> names(s0).take(k + 1).contains(
                            (#[trigger] kept@[i]).name@,
                        )) by {
                        assert forall|i: int| 0 <= i < kept@.len() implies names(s0).take(
                            k + 1,
                        ).contains((#[trigger] kept@[i]).name@) by {
                            let j = choose|j: int|
                                0 <= j < k && names(s0).take(k)[j] == kept@[i].name@;
                            assert(names(s0).take(k + 1)[j] == kept@[i].name@);
                        }
                    }
                }
            }
            proof {
                assert(self.rooms@ =~= s0.skip(k + 1));
                k = k + 1;
            }
        }
        proof {
            assert(models(s0).take(k) =~= models(s0));
        }
        self.rooms = kept;
    }

    /// Every room's name and effective count at `now`, zero counts left out.
    pub fn snapshot_counts(&self, now: u64, ttl: u64) -> (r: Vec<(String, usize)>)
        requires
            self.wf(),
        ensures
            pairs_view(r@) == snap_model(models(self.rooms@), now, ttl),
    {
        let ghost pairs = models(self.rooms@).map_values(snap_pair(now, ttl));
        let ghost keep = |p: (Seq<char>, nat)| p.1 > 0;
        let n = self.rooms.len();
        let mut r: Vec<(String, usize)> = Vec::new();
        let mut i: usize = 0;
        proof {
            lemma_filter_empty_take(pairs, keep);
        }
        while i < n
            invariant
                i <= n,
                n == self.rooms@.len(),
                self.wf(),
                pairs == models(self.rooms@).map_values(snap_pair(now, ttl)),
                keep == (|p: (Seq<char>, nat)| p.1 > 0),
                pairs_view(r@) =~= pairs.take(i as int).filter(keep),
            decreases n - i,
        {
            proof {
                lemma_filter_take_step(pairs, i as int, keep);
                assert(pairs[i as int] == (self.rooms@[i as int].name@, live_count(
                    mem_map(self.rooms@[i as int].room.members@),
                    now,
                    ttl,
                )));
            }
            let e = &self.rooms[i];
            let c = e.room.active_count(now, ttl);
            if c > 0 {
                let ghost r0 = r@;
                r.push((e.name.clone(), c));
                proof {
                    assert(pairs_view(r@) =~= pairs_view(r0).push((e.name@, c as nat)));
                }
            }
            i = i + 1;
        }
        proof {
            assert(pairs.take(n as int) =~= pairs);
        }
        r
    }
}

/// All callers asking the registry for one name converge on one room: with
/// distinct names, a name picks out a single position.
pub proof fn lemma_get_or_create_converges(ns: Seq<Seq<char>>, n: Seq<char>, i: int, j: int)
    requires
        ns.no_duplicates(),
        0 <= i < ns.len(),
        0 <= j < ns.len(),
        ns[i] == n,
        ns[j] == n,
    ensures
        i == j,
{
}

} // verus!
