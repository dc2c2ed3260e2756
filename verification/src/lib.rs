//! The decision logic of a Raft peer: how it answers RequestVote and
//! AppendEntries requests, how it starts and concludes elections, how a
//! leader reacts to the answers to its heartbeats, what it sends to bring
//! a follower's log up to date, and how its term and log are persisted and
//! restored after a crash.
//!
//! Everything that waits, sleeps or talks to the network stays with the
//! caller, which performs the actions these functions decide on and hands
//! the outcomes back.

pub mod messages;
pub mod state;
pub mod spec;
pub mod peer;
pub mod node;
pub mod timing;
pub mod persist;
pub mod laws;
