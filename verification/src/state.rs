//! The externally visible state of a Raft peer.

use vstd::prelude::*;

verus! {

/// State of a raft peer.
#[derive(Default, Clone, Copy, Debug)]
pub struct State {
    pub term: u64,
    pub is_leader: bool,
}

impl State {
    /// The current term of this peer.
    pub fn term(&self) -> (term: u64)
        ensures
            term == self.term,
    {
        self.term
    }

    /// Whether this peer believes it is the leader.
    pub fn is_leader(&self) -> (is_leader: bool)
        ensures
            is_leader == self.is_leader,
    {
        self.is_leader
    }
}

} // verus!
