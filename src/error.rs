use vstd::prelude::*;

verus! {

/// The failures that the room operations report to their caller.
pub enum RoomError {
    /// No room with this key has been created.
    RoomNotFound(String),
    /// The room exists, but this player is not one of its members.
    PlayerNotFound(String),
    /// The word pool holds fewer than two distinct words.
    InsufficientPool,
}

} // verus!
