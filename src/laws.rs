//! Properties that hold of every room and of every round, over the models
//! that the operations' contracts are stated in.
use crate::assignment::{is_round_split, is_split_by, permuted, split_pairs};
use crate::events::{join_text, kick_text, round_text};
use crate::room::{RoomModel, joined, kicked, started};
use vstd::prelude::*;

verus! {

/// `m` after each of `names` joins the room `key`, in order.
pub open spec fn join_all(m: RoomModel, key: Seq<char>, names: Seq<Seq<char>>) -> RoomModel
    decreases names.len(),
{
    if names.len() == 0 {
        m
    } else {
        joined(join_all(m, key, names.drop_last()), key, names.last())
    }
}

/// Whatever sequence of joins a room goes through, its member list never
/// holds a name twice.
pub proof fn law_joins_keep_names_unique(m: RoomModel, key: Seq<char>, names: Seq<Seq<char>>)
    requires
        m.names.no_duplicates(),
    ensures
        join_all(m, key, names).names.no_duplicates(),
    decreases names.len(),
{
    if names.len() > 0 {
        law_joins_keep_names_unique(m, key, names.drop_last());
    }
}

/// Every pair uses `a` or `b`, which differ, and each of them is used.
pub open spec fn uses_words(pairs: Seq<(Seq<char>, Seq<char>)>, a: Seq<char>, b: Seq<char>) -> bool {
    &&& a != b
    &&& forall|i: int| 0 <= i < pairs.len() ==> #[trigger] pairs[i].1 == a || pairs[i].1 == b
    &&& exists|i: int| 0 <= i < pairs.len() && #[trigger] pairs[i].1 == a
    &&& exists|j: int| 0 <= j < pairs.len() && #[trigger] pairs[j].1 == b
}

/// The pairs use exactly two different words.
pub open spec fn uses_exactly_two_words(pairs: Seq<(Seq<char>, Seq<char>)>) -> bool {
    exists|a: Seq<char>, b: Seq<char>| #[trigger] uses_words(pairs, a, b)
}

/// Every pair uses the same word, and there is a pair.
pub open spec fn uses_exactly_one_word(pairs: Seq<(Seq<char>, Seq<char>)>) -> bool {
    pairs.len() > 0 && forall|i: int| 0 <= i < pairs.len() ==> #[trigger] pairs[i].1 == pairs[0].1
}

/// A round's assignment over members without repeats: every pair's player
/// is a member, every member has exactly one pair, and exactly two words are
/// used when there are two members or more, one word for a single member,
/// and no pair at all for an empty room.
pub proof fn law_round_assignment_complete(
    pairs: Seq<(Seq<char>, Seq<char>)>,
    players: Seq<Seq<char>>,
    pool: Seq<Seq<char>>,
)
    requires
        is_round_split(pairs, players, pool),
        players.no_duplicates(),
    ensures
        pairs.len() == players.len(),
        forall|i: int| 0 <= i < pairs.len() ==> players.contains(#[trigger] pairs[i].0),
        forall|i: int, j: int|
            0 <= i < j < pairs.len() ==> #[trigger] pairs[i].0 != #[trigger] pairs[j].0,
        players.len() >= 2 ==> uses_exactly_two_words(pairs),
        players.len() == 1 ==> uses_exactly_one_word(pairs),
        players.len() == 0 ==> pairs.len() == 0,
{
    let (a, b, perm) = choose|a: Seq<char>, b: Seq<char>, perm: Seq<usize>|
        #[trigger] is_split_by(pairs, players, pool, a, b, perm);
    let n = players.len();
    assert forall|i: int| 0 <= i < pairs.len() implies players.contains(#[trigger] pairs[i].0) by {
        assert(pairs[i].0 == players[perm[i] as int]);
    }
    assert forall|i: int, j: int| 0 <= i < j < pairs.len() implies #[trigger] pairs[i].0
        != #[trigger] pairs[j].0 by {
        assert(perm[i] != perm[j]);
        assert(pairs[i].0 == players[perm[i] as int]);
        assert(pairs[j].0 == players[perm[j] as int]);
    }
    if n >= 2 {
        assert(pairs[0].1 == a);
        assert(pairs[n - 1].1 == b);
        assert(forall|i: int| 0 <= i < pairs.len() ==> #[trigger] pairs[i].1 == a || pairs[i].1 == b);
        assert(uses_words(pairs, a, b));
    }
    if n == 1 {
        assert(pairs[0].1 == a);
    }
}

proof fn lemma_split_prefix_counts(a: Seq<char>, b: Seq<char>, order: Seq<Seq<char>>, k: int)
    requires
        a != b,
        0 <= k <= order.len(),
    ensures
        ({
            let s = split_pairs(a, b, order).take(k);
            let h: int = (order.len() as int + 1) / 2;
            &&& s.filter(|p: (Seq<char>, Seq<char>)| p.1 == a).len() == if k < h { k } else { h }
            &&& s.filter(|p: (Seq<char>, Seq<char>)| p.1 == b).len() == if k < h { 0 } else { k - h }
        }),
    decreases k,
{
    if k > 0 {
        lemma_split_prefix_counts(a, b, order, k - 1);
        let all = split_pairs(a, b, order);
        assert(all.take(k) =~= all.take(k - 1).push(all[k - 1]));
        all.take(k - 1).lemma_filter_push(all[k - 1], |p: (Seq<char>, Seq<char>)| p.1 == a);
        all.take(k - 1).lemma_filter_push(all[k - 1], |p: (Seq<char>, Seq<char>)| p.1 == b);
    }
}

/// For `n` players, `ceil(n/2)` pairs carry the first word and `floor(n/2)`
/// the second.
pub proof fn law_split_ratio(a: Seq<char>, b: Seq<char>, order: Seq<Seq<char>>)
    requires
        a != b,
    ensures
        split_pairs(a, b, order).filter(|p: (Seq<char>, Seq<char>)| p.1 == a).len() == (
        order.len() + 1) / 2,
        split_pairs(a, b, order).filter(|p: (Seq<char>, Seq<char>)| p.1 == b).len()
            == order.len() / 2,
{
    let all = split_pairs(a, b, order);
    lemma_split_prefix_counts(a, b, order, order.len() as int);
    assert(all.take(order.len() as int) =~= all);
}

/// The round counter moves only on a round start, and then by exactly one:
/// it never goes down and never skips.
pub proof fn law_round_steps_by_one(
    m: RoomModel,
    key: Seq<char>,
    name: Seq<char>,
    pairs: Seq<(Seq<char>, Seq<char>)>,
)
    ensures
        started(m, key, pairs).round == m.round + 1,
        joined(m, key, name).round == m.round,
        kicked(m, key, name).round == m.round,
{
}

/// After a player is kicked, their name is neither among the members nor
/// in any pair of the current assignment.
pub proof fn law_kick_prunes(m: RoomModel, key: Seq<char>, name: Seq<char>)
    ensures
        !kicked(m, key, name).names.contains(name),
        forall|i: int|
            0 <= i < kicked(m, key, name).pairs.len() ==> #[trigger] kicked(
                m,
                key,
                name,
            ).pairs[i].0 != name,
{
    let after = kicked(m, key, name);
    broadcast use vstd::seq_lib::group_filter_ensures;
    if after.names.contains(name) {
        let k = choose|k: int| 0 <= k < after.names.len() && after.names[k] == name;
    }
}

/// One operation on a room: a join, a kick, or a round start that dealt
/// the given pairs.
pub enum RoomOp {
    Join(Seq<char>),
    Kick(Seq<char>),
    Start(Seq<(Seq<char>, Seq<char>)>),
}

/// `m` after `op` on the room `key`; a kick of a non-member changes nothing.
pub open spec fn apply_op(m: RoomModel, key: Seq<char>, op: RoomOp) -> RoomModel {
    match op {
        RoomOp::Join(name) => joined(m, key, name),
        RoomOp::Kick(name) => if m.names.contains(name) {
            kicked(m, key, name)
        } else {
            m
        },
        RoomOp::Start(pairs) => started(m, key, pairs),
    }
}

/// The events that `op` publishes on the room `key` in state `m`.
pub open spec fn emitted(m: RoomModel, key: Seq<char>, op: RoomOp) -> Seq<Seq<char>> {
    match op {
        RoomOp::Join(name) => seq![join_text(name, key)],
        RoomOp::Kick(name) => if m.names.contains(name) {
            seq![kick_text(name, key)]
        } else {
            Seq::empty()
        },
        RoomOp::Start(_) => seq![round_text(key)],
    }
}

/// `m` after each of `ops` on the room `key`, in order.
pub open spec fn apply_all(m: RoomModel, key: Seq<char>, ops: Seq<RoomOp>) -> RoomModel
    decreases ops.len(),
{
    if ops.len() == 0 {
        m
    } else {
        apply_op(apply_all(m, key, ops.drop_last()), key, ops.last())
    }
}

/// The events that `ops` publish, one after another, on the room `key`
/// starting from `m`.
pub open spec fn emitted_all(m: RoomModel, key: Seq<char>, ops: Seq<RoomOp>) -> Seq<Seq<char>>
    decreases ops.len(),
{
    if ops.len() == 0 {
        Seq::empty()
    } else {
        emitted_all(m, key, ops.drop_last()) + emitted(
            apply_all(m, key, ops.drop_last()),
            key,
            ops.last(),
        )
    }
}

/// How many of `ops` are round starts.
pub open spec fn count_starts(ops: Seq<RoomOp>) -> nat
    decreases ops.len(),
{
    if ops.len() == 0 {
        0
    } else {
        count_starts(ops.drop_last()) + if ops.last() is Start {
            1nat
        } else {
            0nat
        }
    }
}

/// Over any sequence of joins, kicks and round starts, the round counter
/// grows by exactly the number of round starts: it never decreases and
/// never skips.
pub proof fn law_round_counts_starts(m: RoomModel, key: Seq<char>, ops: Seq<RoomOp>)
    ensures
        apply_all(m, key, ops).round == m.round + count_starts(ops),
    decreases ops.len(),
{
    if ops.len() > 0 {
        law_round_counts_starts(m, key, ops.drop_last());
    }
}

/// A room's events are published in the order of its operations, on the
/// channel the room was created with. So a subscriber that joined the room
/// in state `m` (its start being the length of `m`'s history) is due, after
/// any operations, exactly their events in the order the operations ran and
/// nothing published before it joined; two subscribers that joined in the
/// same state are due the same events.
pub proof fn law_subscriber_gets_later_events_in_order(
    m: RoomModel,
    key: Seq<char>,
    ops: Seq<RoomOp>,
)
    ensures
        apply_all(m, key, ops).channel == m.channel,
        apply_all(m, key, ops).events == m.events + emitted_all(m, key, ops),
        apply_all(m, key, ops).events.skip(m.events.len() as int) == emitted_all(m, key, ops),
    decreases ops.len(),
{
    if ops.len() > 0 {
        let init = ops.drop_last();
        law_subscriber_gets_later_events_in_order(m, key, init);
        let mid = apply_all(m, key, init);
        assert(apply_all(m, key, ops).events =~= mid.events + emitted(mid, key, ops.last()));
        assert(apply_all(m, key, ops).events =~= m.events + emitted_all(m, key, ops));
    }
    assert(apply_all(m, key, ops).events.skip(m.events.len() as int) =~= emitted_all(m, key, ops));
}

} // verus!
