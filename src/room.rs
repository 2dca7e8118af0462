use crate::assignment::{
    Assignments,
    distinct_of,
    is_round_split,
    texts,
};
use crate::error::RoomError;
use crate::events::{
    Broadcaster,
    Subscription,
    join_event,
    join_text,
    kick_event,
    kick_text,
    round_event,
    round_text,
};
use vstd::prelude::*;

verus! {

/// What a room holds: its members in join order, its round counter, the
/// word pool of the current round, the current assignment, and every event
/// published on its channel so far.
pub struct RoomModel {
    pub names: Seq<Seq<char>>,
    pub round: nat,
    pub words: Seq<Seq<char>>,
    pub pairs: Seq<(Seq<char>, Seq<char>)>,
    pub events: Seq<Seq<char>>,
    pub channel: int,
}

/// The word pool that every round starts from.
pub open spec fn vocabulary() -> Seq<Seq<char>> {
    seq![
        "apple"@, "banana"@, "cherry"@, "date"@, "elderberry"@, "fig"@, "grape"@,
        "honeydew"@, "kiwi"@, "lemon"@, "mango"@, "nectarine"@, "orange"@, "papaya"@,
        "quince"@, "raspberry"@, "strawberry"@, "tangerine"@,
    ]
}

/// A room as it is created on `channel`: round 0, nobody in it, no words,
/// no pairs, no events.
pub open spec fn fresh_room(channel: int) -> RoomModel {
    RoomModel {
        names: Seq::empty(),
        round: 0,
        words: Seq::empty(),
        pairs: Seq::empty(),
        events: Seq::empty(),
        channel,
    }
}

/// `m` after `name` joins the room `key`: appended if not yet a member, and
/// announced in any case.
pub open spec fn joined(m: RoomModel, key: Seq<char>, name: Seq<char>) -> RoomModel {
    RoomModel {
        names: if m.names.contains(name) {
            m.names
        } else {
            m.names.push(name)
        },
        events: m.events.push(join_text(name, key)),
        ..m
    }
}

/// `m` after the member `name` is removed from the room `key`, together with
/// any pair of theirs; the other pairs stay as they were.
pub open spec fn kicked(m: RoomModel, key: Seq<char>, name: Seq<char>) -> RoomModel {
    RoomModel {
        names: m.names.filter(|n: Seq<char>| n != name),
        pairs: m.pairs.filter(|p: (Seq<char>, Seq<char>)| p.0 != name),
        events: m.events.push(kick_text(name, key)),
        ..m
    }
}

/// `m` after a round starts in the room `key` and deals `pairs`.
pub open spec fn started(m: RoomModel, key: Seq<char>, pairs: Seq<(Seq<char>, Seq<char>)>) -> RoomModel {
    RoomModel {
        round: m.round + 1,
        words: vocabulary(),
        pairs: pairs,
        events: m.events.push(round_text(key)),
        ..m
    }
}

/// Every word of `s` is in `distinct_of(s)`, which has no repeat.
proof fn lemma_distinct_of(s: Seq<Seq<char>>)
    ensures
        distinct_of(s).no_duplicates(),
        forall|x: Seq<char>| #[trigger] distinct_of(s).contains(x) <==> s.contains(x),
    decreases s.len(),
{
    if s.len() > 0 {
        let init = s.drop_last();
        lemma_distinct_of(init);
        assert forall|x: Seq<char>| #[trigger] s.contains(x) <==> init.contains(x) || x == s.last() by {
            if s.contains(x) && x != s.last() {
                let k = choose|k: int| 0 <= k < s.len() && s[k] == x;
                assert(init[k] == x);
            }
            if init.contains(x) {
                let k = choose|k: int| 0 <= k < init.len() && init[k] == x;
                assert(s[k] == x);
            }
            if x == s.last() {
                assert(s[s.len() - 1] == x);
            }
        }
        let d = distinct_of(init);
        if !d.contains(s.last()) {
            assert forall|x: Seq<char>| #[trigger] d.push(s.last()).contains(x) <==> d.contains(x) || x == s.last() by {
                if d.contains(x) {
                    let k = choose|k: int| 0 <= k < d.len() && d[k] == x;
                    assert(d.push(s.last())[k] == x);
                }
                if x == s.last() {
                    assert(d.push(s.last())[d.len() as int] == x);
                }
            }
        }
    }
}

/// The fixed vocabulary offers at least two distinct words.
proof fn lemma_vocabulary_suffices()
    ensures
        distinct_of(vocabulary()).len() >= 2,
{
    let v = vocabulary();
    reveal_strlit("apple");
    reveal_strlit("banana");
    assert(v[0] != v[1]) by {
        assert(v[0][0] != v[1][0]);
    }
    lemma_distinct_of(v);
    let d = distinct_of(v);
    assert(v.contains(v[0]));
    assert(v.contains(v[1]));
    assert(d.contains(v[0]));
    assert(d.contains(v[1]));
}

/// The word pool that every round starts from.
pub fn reference_words() -> (r: Vec<String>)
    ensures
        texts(r@) == vocabulary(),
{
    let r = vec![
        String::from_str("apple"),
        String::from_str("banana"),
        String::from_str("cherry"),
        String::from_str("date"),
        String::from_str("elderberry"),
        String::from_str("fig"),
        String::from_str("grape"),
        String::from_str("honeydew"),
        String::from_str("kiwi"),
        String::from_str("lemon"),
        String::from_str("mango"),
        String::from_str("nectarine"),
        String::from_str("orange"),
        String::from_str("papaya"),
        String::from_str("quince"),
        String::from_str("raspberry"),
        String::from_str("strawberry"),
        String::from_str("tangerine"),
    ];
    assert(texts(r@) =~= vocabulary());
    r
}

/// A copy of `v`, string by string.
pub fn copy_strings(v: &Vec<String>) -> (r: Vec<String>)
    ensures
        texts(r@) == texts(v@),
{
    let r = v.clone();
    assert(r@ =~= v@);
    r
}

/// Whether `name` is one of `names`.
pub fn contains_name(names: &Vec<String>, name: &str) -> (r: bool)
    ensures
        r == texts(names@).contains(name@),
{
    let target = String::from_str(name);
    let mut i: usize = 0;
    while i < names.len()
        invariant
            i <= names@.len(),
            target@ == name@,
            forall|k: int| 0 <= k < i ==> names@[k]@ != name@,
        decreases names@.len() - i,
    {
        if names[i] == target {
            assert(texts(names@)[i as int] == name@);
            return true;
        }
        i += 1;
    }
    assert forall|k: int| 0 <= k < names@.len() implies texts(names@)[k] != name@ by {
        assert(texts(names@)[k] == names@[k]@);
    }
    false
}

/// `names` without `name`, the others in order.
pub fn without_name(names: &Vec<String>, name: &str) -> (r: Vec<String>)
    ensures
        texts(r@) == texts(names@).filter(|n: Seq<char>| n != name@),
{
    let ghost all = texts(names@);
    let target = String::from_str(name);
    let mut kept: Vec<String> = Vec::new();
    let mut i: usize = 0;
    while i < names.len()
        invariant
            i <= names@.len(),
            all == texts(names@),
            target@ == name@,
            texts(kept@) == all.take(i as int).filter(|n: Seq<char>| n != name@),
        decreases names@.len() - i,
    {
        let ghost prev = kept@;
        assert(all.take(i + 1) =~= all.take(i as int).push(all[i as int]));
        proof {
            all.take(i as int).lemma_filter_push(all[i as int], |n: Seq<char>| n != name@);
        }
        assert(all[i as int] == names@[i as int]@);
        if !(names[i] == target) {
            kept.push(names[i].clone());
            assert(texts(kept@) =~= texts(prev).push(all[i as int]));
        }
        i += 1;
    }
    assert(all.take(all.len() as int) =~= all);
    kept
}

/// Filtering keeps a list free of repeats.
proof fn lemma_filter_unique<A>(s: Seq<A>, keep: spec_fn(A) -> bool)
    requires
        s.no_duplicates(),
    ensures
        s.filter(keep).no_duplicates(),
    decreases s.len(),
{
    if s.len() > 0 {
        let init = s.drop_last();
        let x = s.last();
        assert(init.push(x) =~= s);
        assert(init.no_duplicates());
        lemma_filter_unique(init, keep);
        init.lemma_filter_push(x, keep);
        if keep(x) && init.filter(keep).contains(x) {
            init.lemma_filter_contains_rev(keep, x);
            let k = choose|k: int| 0 <= k < init.len() && init[k] == x;
            assert(s[k] == s[s.len() - 1]);
        }
    }
}

/// A snapshot of a room, copied out of it.
pub struct RoomView {
    pub round_num: u64,
    pub names: Vec<String>,
    pub word_list: Vec<String>,
    pub assignments: Assignments,
}

/// What a round start reports: the new round number and the pairs dealt.
pub struct RoundStart {
    pub round: u64,
    pub assignments: Assignments,
}

/// One game room: its members, round counter, word pool, current
/// assignment, and the event channel it owns for its whole life.
pub struct Room {
    names: Vec<String>,
    round_num: u64,
    words: Vec<String>,
    assignments: Assignments,
    broadcaster: Broadcaster,
}

impl View for Room {
    type V = RoomModel;

    closed spec fn view(&self) -> RoomModel {
        RoomModel {
            names: texts(self.names@),
            round: self.round_num as nat,
            words: texts(self.words@),
            pairs: self.assignments@,
            events: self.broadcaster.history(),
            channel: self.broadcaster.channel(),
        }
    }
}

impl Room {
    /// A room's own invariant: no member is listed twice.
    pub open spec fn wf(&self) -> bool {
        self@.names.no_duplicates()
    }

    /// An empty room at round 0, with a new event channel.
    pub fn new() -> (r: Room)
        ensures
            r@ == fresh_room(r@.channel),
            r.wf(),
    {
        let r = Room {
            names: Vec::new(),
            round_num: 0,
            words: Vec::new(),
            assignments: Assignments::new(),
            broadcaster: Broadcaster::new(),
        };
        assert(r@.names =~= Seq::<Seq<char>>::empty());
        assert(r@.words =~= Seq::<Seq<char>>::empty());
        assert(r@ == fresh_room(r@.channel));
        r
    }

    /// Adds `name` unless already a member, and announces the join in any case.
    pub fn join(&mut self, key: &str, name: &str)
        requires
            old(self).wf(),
        ensures
            final(self)@ == joined(old(self)@, key@, name@),
            final(self).wf(),
    {
        let ghost before = self@;
        if !contains_name(&self.names, name) {
            let ghost prev = self.names@;
            self.names.push(String::from_str(name));
            assert(texts(self.names@) =~= texts(prev).push(name@));
        }
        self.broadcaster.publish(join_event(name, key));
        assert(self@.names == joined(before, key@, name@).names);
    }

    /// Removes the member `name` and their pair, announces it, and returns
    /// the remaining members; fails, changing nothing, for a non-member.
    pub fn kick(&mut self, key: &str, name: &str) -> (r: Result<Vec<String>, RoomError>)
        requires
            old(self).wf(),
        ensures
            final(self).wf(),
            old(self)@.names.contains(name@) ==> r is Ok && final(self)@ == kicked(
                old(self)@,
                key@,
                name@,
            ) && texts(r->Ok_0@) == final(self)@.names,
            !old(self)@.names.contains(name@) ==> final(self)@ == old(self)@ && (r matches Err(
                RoomError::PlayerNotFound(n),
            ) && n@ == name@),
    {
        if !contains_name(&self.names, name) {
            return Err(RoomError::PlayerNotFound(String::from_str(name)));
        }
        let ghost before = self@;
        self.names = without_name(&self.names, name);
        proof {
            lemma_filter_unique(before.names, |n: Seq<char>| n != name@);
        }
        self.assignments.remove_player(name);
        self.broadcaster.publish(kick_event(name, key));
        Ok(copy_strings(&self.names))
    }

    /// Moves to the next round: the pool becomes the fixed vocabulary and
    /// the members are dealt a fresh assignment, replacing the old one.
    pub fn start_round(&mut self, key: &str) -> (r: RoundStart)
        requires
            old(self).wf(),
            old(self)@.round < u64::MAX,
        ensures
            final(self).wf(),
            final(self)@ == started(old(self)@, key@, final(self)@.pairs),
            is_round_split(final(self)@.pairs, old(self)@.names, vocabulary()),
            r.round == final(self)@.round,
            r.assignments@ == final(self)@.pairs,
    {
        self.round_num = self.round_num + 1;
        self.words = reference_words();
        let mut fresh = Assignments::new();
        proof {
            lemma_vocabulary_suffices();
        }
        let dealt = fresh.assign_random_words(&self.words, &self.names);
        assert(dealt is Ok);
        assert(fresh@.skip(0) =~= fresh@);
        self.assignments = fresh;
        self.broadcaster.publish(round_event(key));
        RoundStart { round: self.round_num, assignments: self.assignments.snapshot() }
    }

    /// A snapshot of the room's round, members, pool and assignment.
    pub fn snapshot(&self) -> (r: RoomView)
        ensures
            r.round_num == self@.round,
            texts(r.names@) == self@.names,
            texts(r.word_list@) == self@.words,
            r.assignments@ == self@.pairs,
    {
        RoomView {
            round_num: self.round_num,
            names: copy_strings(&self.names),
            word_list: copy_strings(&self.words),
            assignments: self.assignments.snapshot(),
        }
    }

    /// A new subscriber to this room's events, from now on.
    pub fn subscribe(&self) -> (s: Subscription)
        ensures
            s.channel() == self@.channel,
            s.start() == self@.events.len(),
    {
        self.broadcaster.subscribe()
    }
}

} // verus!
