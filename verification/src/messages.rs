//! The messages that Raft peers exchange, and the message a peer hands to
//! the service above it.

use vstd::prelude::*;

verus! {

/// As each Raft peer becomes aware that successive log entries are
/// committed, the peer sends an `ApplyMsg` to the service on the same server.
pub enum ApplyMsg {
    Command { data: Vec<u8>, index: u64 },
    Snapshot { data: Vec<u8>, term: u64, index: u64 },
}

/// Arguments of a RequestVote RPC.
#[derive(Clone, Copy, Debug, Default)]
pub struct RequestVoteArgs {
    /// The candidate's term.
    pub current_term: u64,
    /// Index of the candidate's last log entry.
    pub current_index: u32,
    /// Term of the candidate's last log entry, narrowed to 32 bits.
    pub current_entry_hash: u32,
    /// The candidate's index among the peers, narrowed to 32 bits.
    pub requesting_peer: u32,
}

/// Reply to a RequestVote RPC: 1 when the vote is granted, 0 otherwise.
#[derive(Clone, Copy, Debug, Default)]
pub struct RequestVoteReply {
    pub vote_value: u32,
}

/// A log entry as it travels in an AppendEntries request: each byte of the
/// command is carried in a 32-bit word.
#[derive(Clone, Debug, Default)]
pub struct CommandEntry {
    pub term: u64,
    pub command: Vec<u32>,
}

/// Arguments of an AppendEntries RPC (a heartbeat when `entries` is empty).
#[derive(Clone, Debug, Default)]
pub struct AppendEntriesArgs {
    pub term: u64,
    pub prev_index: u64,
    pub prev_term: u64,
    pub entries: Vec<CommandEntry>,
}

/// Reply to an AppendEntries RPC.
#[derive(Clone, Copy, Debug, Default)]
pub struct AppendEntriesReply {
    /// The receiver took the request: its term was not stale and the
    /// receiver's log holds the previous entry.
    pub success: bool,
    /// The receiver's current term, for a stale leader to learn of.
    pub term: u64,
}

/// What became of one AppendEntries request that a leader sent as a heartbeat.
#[derive(Clone, Copy, Debug)]
pub enum HeartbeatOutcome {
    /// The follower answered.
    Answered(AppendEntriesReply),
    /// The RPC failed: the follower could not be reached, or the request or
    /// its reply was lost.
    Failed,
    /// No outcome arrived within the time the leader waits for one.
    Unanswered,
}

/// The log entry that a peer stores for an entry received on the wire:
/// each 32-bit word is narrowed back to a byte.
pub open spec fn stored_entry(e: CommandEntry) -> (u64, Seq<u8>) {
    (e.term, e.command@.map_values(|w: u32| w as u8))
}

/// The log entries a peer stores for a sequence of entries received on the wire.
pub open spec fn stored_entries(es: Seq<CommandEntry>) -> Seq<(u64, Seq<u8>)> {
    es.map_values(|e: CommandEntry| stored_entry(e))
}

/// `e` is the wire form of the log entry `entry`: same term, and each byte
/// of the command widened to a 32-bit word.
pub open spec fn carries(e: CommandEntry, entry: (u64, Seq<u8>)) -> bool {
    &&& e.term == entry.0
    &&& e.command@ == entry.1.map_values(|b: u8| b as u32)
}

/// Widens each byte of a command to a 32-bit word.
pub fn widen_command(command: &Vec<u8>) -> (words: Vec<u32>)
    ensures
        words@ == command@.map_values(|b: u8| b as u32),
{
    let mut words: Vec<u32> = Vec::new();
    let mut i: usize = 0;
    while i < command.len()
        invariant
            i <= command.len(),
            words@ == command@.take(i as int).map_values(|b: u8| b as u32),
        decreases command.len() - i,
    {
        proof {
            assert(command@.take(i + 1) =~= command@.take(i as int).push(command@[i as int]));
        }
        words.push(command[i] as u32);
        i = i + 1;
        assert(words@ =~= command@.take(i as int).map_values(|b: u8| b as u32));
    }
    assert(command@.take(i as int) =~= command@);
    words
}

/// Narrows each 32-bit word of a command to a byte (keeping its low eight bits).
pub fn narrow_command(words: &Vec<u32>) -> (command: Vec<u8>)
    ensures
        command@ == words@.map_values(|w: u32| w as u8),
{
    let mut command: Vec<u8> = Vec::new();
    let mut i: usize = 0;
    while i < words.len()
        invariant
            i <= words.len(),
            command@ == words@.take(i as int).map_values(|w: u32| w as u8),
        decreases words.len() - i,
    {
        proof {
            assert(words@.take(i + 1) =~= words@.take(i as int).push(words@[i as int]));
        }
        command.push(words[i] as u8);
        i = i + 1;
        assert(command@ =~= words@.take(i as int).map_values(|w: u32| w as u8));
    }
    assert(words@.take(i as int) =~= words@);
    command
}

} // verus!
