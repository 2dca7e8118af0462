//! Room coordination for a party word game: a registry of rooms, each with
//! its members, round counter, word pool, current assignment and event
//! channel, plus the randomized split of players between two secret words.

pub mod events;
pub mod error;
pub mod assignment;
pub mod room;
pub mod registry;
pub mod laws;
