use tokio::sync::broadcast::{Receiver, Sender};
use vstd::prelude::*;

verus! {

/// Text of the event announcing that `name` joined `room`.
pub open spec fn join_text(name: Seq<char>, room: Seq<char>) -> Seq<char> {
    "JOIN, "@ + name + ", "@ + room
}

/// Text of the event announcing that `name` was removed from `room`.
pub open spec fn kick_text(name: Seq<char>, room: Seq<char>) -> Seq<char> {
    "KICK, "@ + name + ", "@ + room
}

/// Text of the event announcing that a new round started in `room`.
pub open spec fn round_text(room: Seq<char>) -> Seq<char> {
    "ROUND_START, "@ + room
}

fn tagged_pair(tag: &str, name: &str, room: &str) -> (r: String)
    ensures
        r@ == tag@ + name@ + ", "@ + room@,
{
    let mut r = String::from_str(tag);
    r.append(name);
    r.append(", ");
    r.append(room);
    r
}

/// Builds `"JOIN, <name>, <room>"`.
pub fn join_event(name: &str, room: &str) -> (r: String)
    ensures
        r@ == join_text(name@, room@),
{
    tagged_pair("JOIN, ", name, room)
}

/// Builds `"KICK, <name>, <room>"`.
pub fn kick_event(name: &str, room: &str) -> (r: String)
    ensures
        r@ == kick_text(name@, room@),
{
    tagged_pair("KICK, ", name, room)
}

/// Builds `"ROUND_START, <room>"`.
pub fn round_event(room: &str) -> (r: String)
    ensures
        r@ == round_text(room@),
{
    let mut r = String::from_str("ROUND_START, ");
    r.append(room);
    r
}

/// How many events a subscriber may fall behind before the oldest unread
/// ones are dropped for it.
pub const EVENT_CAPACITY: usize = 100;

#[verifier::external_type_specification]
#[verifier::external_body]
#[verifier::reject_recursive_types(T)]
pub struct ExSender<T>(Sender<T>);

#[verifier::external_type_specification]
#[verifier::external_body]
#[verifier::reject_recursive_types(T)]
pub struct ExReceiver<T>(Receiver<T>);

/// Relies on tokio's `broadcast::Sender::new`: it panics when the capacity is
/// zero or above `usize::MAX / 2`, and otherwise returns a sender on a new
/// channel with no receiver yet.
pub assume_specification<T>[ Sender::<T>::new ](capacity: usize) -> Sender<T>
    requires
        0 < capacity <= usize::MAX / 2,
;

/// The channel that a sender sends on.
pub uninterp spec fn sender_channel(tx: Sender<String>) -> int;

/// The channel that a receiver listens on.
pub uninterp spec fn receiver_channel(rx: Receiver<String>) -> int;

/// Relies on tokio's `broadcast::Sender::subscribe`: the receiver shares the
/// sender's channel and yields the values sent on it after this call, in the
/// order they were sent. It panics only once `usize::MAX >> 2` receivers are
/// alive at once, which no process can hold in memory.
#[verifier::external_body]
fn subscribe_to(tx: &Sender<String>) -> (rx: Receiver<String>)
    ensures
        receiver_channel(rx) == sender_channel(*tx),
{
    tx.subscribe()
}

/// Relies on tokio's `broadcast::Sender::send`: it never blocks; it hands the
/// value to every receiver of the channel subscribed at that moment (one that
/// lags by more than the capacity loses the oldest values) and returns their
/// number, at least one; with no receiver it hands the value back.
#[verifier::external_body]
fn send_on(tx: &Sender<String>, event: String) -> (r: Result<usize, String>)
    ensures
        r matches Ok(n) ==> n >= 1,
        r matches Err(back) ==> back@ == event@,
{
    tx.send(event).map_err(|e| e.0)
}

/// A receiver of a room's events, with the point of the room's history at
/// which it joined: it is handed the events published from that point on.
pub struct Subscription {
    pub rx: Receiver<String>,
    start: Ghost<nat>,
}

impl Subscription {
    /// The channel this subscription listens on.
    pub closed spec fn channel(&self) -> int {
        receiver_channel(self.rx)
    }

    /// How many events of the channel's history came before this subscription.
    pub closed spec fn start(&self) -> nat {
        self.start@
    }
}

/// A room's event channel. Every event is handed to the subscribers that are
/// connected when it is published; `published` records, in order, all the
/// events published so far.
pub struct Broadcaster {
    tx: Sender<String>,
    published: Ghost<Seq<Seq<char>>>,
}

impl Broadcaster {
    /// The events published on this channel so far, oldest first.
    pub closed spec fn history(&self) -> Seq<Seq<char>> {
        self.published@
    }

    /// The channel the events are sent on, fixed for the broadcaster's life.
    pub closed spec fn channel(&self) -> int {
        sender_channel(self.tx)
    }

    /// A channel on which nothing has been published yet.
    pub fn new() -> (b: Broadcaster)
        ensures
            b.history() == Seq::<Seq<char>>::empty(),
    {
        Broadcaster { tx: Sender::new(EVENT_CAPACITY), published: Ghost(Seq::empty()) }
    }

    /// Sends `event` on the channel to the current subscribers and records
    /// it; with no subscriber, nothing is delivered and nothing fails.
    pub fn publish(&mut self, event: String)
        ensures
            final(self).history() == old(self).history().push(event@),
            final(self).channel() == old(self).channel(),
    {
        let ghost text = event@;
        let _ = send_on(&self.tx, event);
        self.published = Ghost(self.published@.push(text));
    }

    /// A new subscriber on this channel: it receives the events published
    /// after this call, in publish order, and nothing of the history before.
    pub fn subscribe(&self) -> (s: Subscription)
        ensures
            s.channel() == self.channel(),
            s.start() == self.history().len(),
    {
        Subscription { rx: subscribe_to(&self.tx), start: Ghost(self.published@.len()) }
    }
}

} // verus!
