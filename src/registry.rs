use crate::error::RoomError;
use crate::room::{Room, RoomModel, RoomView, RoundStart, fresh_room, joined, kicked, started, vocabulary};
use crate::assignment::{is_round_split, texts};
use crate::events::Subscription;
use vstd::prelude::*;

verus! {

/// The room that `key` names in `rooms`, or a fresh one on `channel` if
/// there is none yet.
pub open spec fn room_or_fresh(rooms: Map<Seq<char>, RoomModel>, key: Seq<char>, channel: int) -> RoomModel {
    if rooms.contains_key(key) {
        rooms[key]
    } else {
        fresh_room(channel)
    }
}

/// All rooms, by key. Rooms are created by the first join or subscription
/// that names them and are never removed.
pub struct RoomRegistry {
    keys: Vec<String>,
    rooms: Vec<Room>,
}

impl View for RoomRegistry {
    type V = Map<Seq<char>, RoomModel>;

    closed spec fn view(&self) -> Map<Seq<char>, RoomModel> {
        Map::new(
            |k: Seq<char>| exists|i: int| 0 <= i < self.keys@.len() && #[trigger] self.keys@[i]@ == k,
            |k: Seq<char>|
                self.rooms@[choose|i: int| 0 <= i < self.keys@.len() && #[trigger] self.keys@[i]@ == k]@,
        )
    }
}

impl RoomRegistry {
    /// Keys and rooms line up, no key is listed twice, and every room keeps
    /// its own invariant.
    pub closed spec fn wf(&self) -> bool {
        &&& self.keys@.len() == self.rooms@.len()
        &&& forall|i: int, j: int|
            0 <= i < j < self.keys@.len() ==> #[trigger] self.keys@[i]@ != #[trigger] self.keys@[j]@
        &&& forall|i: int| 0 <= i < self.rooms@.len() ==> #[trigger] self.rooms@[i].wf()
    }

    proof fn lemma_view_at(&self, i: int)
        requires
            self.wf(),
            0 <= i < self.keys@.len(),
        ensures
            self@.contains_key(self.keys@[i]@),
            self@[self.keys@[i]@] == self.rooms@[i]@,
    {
        let k = self.keys@[i]@;
        assert(self@.contains_key(k));
        let j = choose|j: int| 0 <= j < self.keys@.len() && #[trigger] self.keys@[j]@ == k;
        if j != i {
            if j < i {
                assert(self.keys@[j]@ != self.keys@[i]@);
            } else {
                assert(self.keys@[i]@ != self.keys@[j]@);
            }
        }
    }

    proof fn lemma_room_replaced(before: &Self, after: &Self, i: int)
        requires
            before.wf(),
            0 <= i < before.keys@.len(),
            after.keys@ == before.keys@,
            after.rooms@ == before.rooms@.update(i, after.rooms@[i]),
            after.rooms@[i].wf(),
        ensures
            after.wf(),
            after@ == before@.insert(before.keys@[i]@, after.rooms@[i]@),
    {
        let k = before.keys@[i]@;
        assert(after.wf());
        after.lemma_view_at(i);
        assert forall|k2: Seq<char>| #[trigger] after@.contains_key(k2) <==> before@.insert(
            k,
            after.rooms@[i]@,
        ).contains_key(k2) by {
            if before@.contains_key(k2) {
                let j = choose|j: int| 0 <= j < before.keys@.len() && #[trigger] before.keys@[j]@ == k2;
                assert(after.keys@[j]@ == k2);
            }
            if after@.contains_key(k2) {
                let j = choose|j: int| 0 <= j < after.keys@.len() && #[trigger] after.keys@[j]@ == k2;
                assert(before.keys@[j]@ == k2);
            }
        }
        assert forall|k2: Seq<char>| #[trigger] after@.contains_key(k2) implies after@[k2] == before@.insert(
            k,
            after.rooms@[i]@,
        )[k2] by {
            let j = choose|j: int| 0 <= j < after.keys@.len() && #[trigger] after.keys@[j]@ == k2;
            after.lemma_view_at(j);
            before.lemma_view_at(j);
        }
        assert(after@ =~= before@.insert(k, after.rooms@[i]@));
    }

    /// In every state the registry can reach, no room lists a member twice.
    pub proof fn law_members_unique(&self)
        requires
            self.wf(),
        ensures
            forall|k: Seq<char>| #[trigger] self@.contains_key(k) ==> self@[k].names.no_duplicates(),
    {
        assert forall|k: Seq<char>| #[trigger] self@.contains_key(k) implies self@[k].names.no_duplicates() by {
            let j = choose|j: int| 0 <= j < self.keys@.len() && #[trigger] self.keys@[j]@ == k;
            self.lemma_view_at(j);
            assert(self.rooms@[j].wf());
        }
    }

    /// A registry with no room.
    pub fn new() -> (r: RoomRegistry)
        ensures
            r.wf(),
            r@ == Map::<Seq<char>, RoomModel>::empty(),
    {
        let r = RoomRegistry { keys: Vec::new(), rooms: Vec::new() };
        assert(r@ =~= Map::<Seq<char>, RoomModel>::empty());
        r
    }

    fn find(&self, key: &str) -> (r: Option<usize>)
        requires
            self.wf(),
        ensures
            match r {
                Some(i) => i < self.keys@.len() && self.keys@[i as int]@ == key@,
                None => !self@.contains_key(key@),
            },
    {
        let target = String::from_str(key);
        let mut i: usize = 0;
        while i < self.keys.len()
            invariant
                i <= self.keys@.len(),
                target@ == key@,
                forall|j: int| 0 <= j < i ==> self.keys@[j]@ != key@,
            decreases self.keys@.len() - i,
        {
            if self.keys[i] == target {
                return Some(i);
            }
            i += 1;
        }
        None
    }

    /// The position of the room `key`, created empty if there was none.
    fn resolve(&mut self, key: &str) -> (i: usize)
        requires
            old(self).wf(),
        ensures
            final(self).wf(),
            final(self)@ == old(self)@.insert(key@, room_or_fresh(old(self)@, key@, final(self)@[key@].channel)),
            i < final(self).keys@.len(),
            final(self).keys@[i as int]@ == key@,
    {
        match self.find(key) {
            Some(i) => {
                proof {
                    self.lemma_view_at(i as int);
                    assert(self@.insert(key@, self@[key@]) =~= self@);
                }
                i
            },
            None => {
                let ghost before = *self;
                self.keys.push(String::from_str(key));
                self.rooms.push(Room::new());
                let i = self.keys.len() - 1;
                let ghost c = self.rooms@[i as int]@.channel;
                proof {
                    assert(self.wf());
                    self.lemma_view_at(i as int);
                    assert forall|k2: Seq<char>| #[trigger] self@.contains_key(k2) <==> before@.insert(
                        key@,
                        fresh_room(c),
                    ).contains_key(k2) by {
                        if before@.contains_key(k2) {
                            let j = choose|j: int|
                                0 <= j < before.keys@.len() && #[trigger] before.keys@[j]@ == k2;
                            assert(self.keys@[j]@ == k2);
                        }
                        if self@.contains_key(k2) && k2 != key@ {
                            let j = choose|j: int|
                                0 <= j < self.keys@.len() && #[trigger] self.keys@[j]@ == k2;
                            assert(before.keys@[j]@ == k2);
                        }
                    }
                    assert forall|k2: Seq<char>| #[trigger] self@.contains_key(k2) implies self@[k2]
                        == before@.insert(key@, fresh_room(c))[k2] by {
                        let j = choose|j: int| 0 <= j < self.keys@.len() && #[trigger] self.keys@[j]@ == k2;
                        self.lemma_view_at(j);
                        if j < i {
                            before.lemma_view_at(j);
                        }
                    }
                    assert(self@ =~= before@.insert(key@, fresh_room(c)));
                }
                i
            },
        }
    }

    /// Puts `name` in the room `room`, creating the room if needed, announces
    /// the join (also for a player already in it), and returns a snapshot.
    pub fn join(&mut self, room: &str, name: &str) -> (v: RoomView)
        requires
            old(self).wf(),
        ensures
            final(self).wf(),
            final(self)@ == old(self)@.insert(
                room@,
                joined(room_or_fresh(old(self)@, room@, final(self)@[room@].channel), room@, name@),
            ),
            v.round_num == final(self)@[room@].round,
            texts(v.names@) == final(self)@[room@].names,
            texts(v.word_list@) == final(self)@[room@].words,
            v.assignments@ == final(self)@[room@].pairs,
    {
        let ghost start = self@;
        let i = self.resolve(room);
        let ghost before = *self;
        proof {
            before.lemma_view_at(i as int);
            assert(before.rooms@[i as int].wf());
        }
        self.rooms[i].join(room, name);
        proof {
            Self::lemma_room_replaced(&before, self, i as int);
            assert(self@ =~= start.insert(
                room@,
                joined(room_or_fresh(start, room@, self@[room@].channel), room@, name@),
            ));
            self.lemma_view_at(i as int);
        }
        self.rooms[i].snapshot()
    }

    /// Removes `name` from the room `room` together with their pair,
    /// announces it, and returns the remaining members. Fails, changing
    /// nothing, when the room does not exist or `name` is not in it.
    pub fn kick(&mut self, room: &str, name: &str) -> (r: Result<Vec<String>, RoomError>)
        requires
            old(self).wf(),
        ensures
            final(self).wf(),
            !old(self)@.contains_key(room@) ==> final(self)@ == old(self)@ && (r matches Err(
                RoomError::RoomNotFound(k),
            ) && k@ == room@),
            old(self)@.contains_key(room@) && !old(self)@[room@].names.contains(name@)
                ==> final(self)@ == old(self)@ && (r matches Err(RoomError::PlayerNotFound(n))
                && n@ == name@),
            old(self)@.contains_key(room@) && old(self)@[room@].names.contains(name@) ==> r is Ok
                && final(self)@ == old(self)@.insert(room@, kicked(old(self)@[room@], room@, name@))
                && texts(r->Ok_0@) == final(self)@[room@].names,
    {
        match self.find(room) {
            None => Err(RoomError::RoomNotFound(String::from_str(room))),
            Some(i) => {
                let ghost before = *self;
                proof {
                    before.lemma_view_at(i as int);
                    assert(before.rooms@[i as int].wf());
                }
                let r = self.rooms[i].kick(room, name);
                proof {
                    Self::lemma_room_replaced(&before, self, i as int);
                    self.lemma_view_at(i as int);
                    if !before@[room@].names.contains(name@) {
                        assert(self@ =~= before@);
                    }
                }
                r
            },
        }
    }

    /// Starts the next round in the room `room`: the round counter goes up by
    /// one, the pool becomes the fixed vocabulary, the members are dealt a
    /// fresh assignment, and the start is announced. Fails, changing nothing,
    /// when the room does not exist.
    pub fn start_round(&mut self, room: &str) -> (r: Result<RoundStart, RoomError>)
        requires
            old(self).wf(),
            old(self)@.contains_key(room@) ==> old(self)@[room@].round < u64::MAX,
        ensures
            final(self).wf(),
            !old(self)@.contains_key(room@) ==> final(self)@ == old(self)@ && (r matches Err(
                RoomError::RoomNotFound(k),
            ) && k@ == room@),
            old(self)@.contains_key(room@) ==> r is Ok && final(self)@ == old(self)@.insert(
                room@,
                started(old(self)@[room@], room@, final(self)@[room@].pairs),
            ) && is_round_split(final(self)@[room@].pairs, old(self)@[room@].names, vocabulary())
                && r->Ok_0.round == final(self)@[room@].round
                && r->Ok_0.assignments@ == final(self)@[room@].pairs,
    {
        match self.find(room) {
            None => Err(RoomError::RoomNotFound(String::from_str(room))),
            Some(i) => {
                let ghost before = *self;
                proof {
                    before.lemma_view_at(i as int);
                    assert(before.rooms@[i as int].wf());
                }
                let r = self.rooms[i].start_round(room);
                proof {
                    Self::lemma_room_replaced(&before, self, i as int);
                    self.lemma_view_at(i as int);
                }
                Ok(r)
            },
        }
    }

    /// A new subscriber to the events of the room `room` (created empty if
    /// needed): it listens on that room's channel and receives every event
    /// published there from now on, in publish order.
    pub fn subscribe(&mut self, room: &str) -> (s: Subscription)
        requires
            old(self).wf(),
        ensures
            final(self).wf(),
            final(self)@ == old(self)@.insert(
                room@,
                room_or_fresh(old(self)@, room@, final(self)@[room@].channel),
            ),
            s.channel() == final(self)@[room@].channel,
            s.start() == final(self)@[room@].events.len(),
    {
        let i = self.resolve(room);
        proof {
            self.lemma_view_at(i as int);
        }
        self.rooms[i].subscribe()
    }

    /// A snapshot of the room `room`, if it exists.
    pub fn room_view(&self, room: &str) -> (r: Option<RoomView>)
        requires
            self.wf(),
        ensures
            r is None <==> !self@.contains_key(room@),
            r matches Some(v) ==> v.round_num == self@[room@].round && texts(v.names@)
                == self@[room@].names && texts(v.word_list@) == self@[room@].words
                && v.assignments@ == self@[room@].pairs,
    {
        match self.find(room) {
            None => None,
            Some(i) => {
                proof {
                    self.lemma_view_at(i as int);
                }
                Some(self.rooms[i].snapshot())
            },
        }
    }
}

} // verus!
