//! The mathematical model of a Raft peer and of each decision it makes.

use vstd::prelude::*;
use crate::messages::{
    AppendEntriesArgs, AppendEntriesReply, HeartbeatOutcome, RequestVoteArgs, stored_entries,
};

verus! {

/// The model of a Raft peer: how many peers there are, its own index among
/// them, its current term, the candidate it voted for in that term, whether
/// it stands for election or leads in that term, and its log of
/// `(term, command)` entries.
#[verifier::ext_equal]
pub struct RaftView {
    pub n_peers: nat,
    pub me: nat,
    pub term: u64,
    pub voted_for: Option<u32>,
    pub candidate: bool,
    pub is_leader: bool,
    pub log: Seq<(u64, Seq<u8>)>,
}

/// The model of a Raft node: its peer, whether a leader has been heard since
/// the last election timeout, and whether the node has been killed.
#[verifier::ext_equal]
pub struct NodeView {
    pub raft: RaftView,
    pub received_heartbeat: bool,
    pub killed: bool,
}

/// A peer's log is never empty: it starts with a sentinel entry of term 0.
pub open spec fn log_wf(v: RaftView) -> bool {
    v.log.len() >= 1 && v.log[0].0 == 0
}

/// Term of the last log entry (0 for an empty log).
pub open spec fn last_log_term(log: Seq<(u64, Seq<u8>)>) -> u64 {
    if log.len() == 0 { 0 } else { log.last().0 }
}

/// Length of the log as it travels on the wire, narrowed to 32 bits.
pub open spec fn wire_log_len(v: RaftView) -> u32 {
    v.log.len() as u32
}

/// The peer after it learns of term `t` from a request or a reply: a newer
/// term becomes its current term, in which it is a follower that has not
/// voted; an older or equal term changes nothing.
pub open spec fn observe_term(v: RaftView, t: u64) -> RaftView {
    if t > v.term {
        RaftView { term: t, voted_for: None, candidate: false, is_leader: false, ..v }
    } else {
        v
    }
}

// ----------------------------------------------------------------------------
// RequestVote
// ----------------------------------------------------------------------------

/// The candidate's last entry is at least as recent as ours, compared as the
/// wire carries it: by the last entry's term narrowed to 32 bits, then by
/// index.
pub open spec fn candidate_up_to_date(v: RaftView, a: RequestVoteArgs) -> bool {
    let ours = last_log_term(v.log) as u32;
    &&& a.current_entry_hash >= ours
    &&& !(a.current_entry_hash == ours && (a.current_index as int) < wire_log_len(v) as int - 1)
}

/// The peer grants its vote: the candidate's term is not older than the
/// peer's, the peer has voted for no one else in that term, and the
/// candidate's log is at least as up to date.
pub open spec fn grants_vote(v: RaftView, a: RequestVoteArgs) -> bool {
    let w = observe_term(v, a.current_term);
    &&& a.current_term >= v.term
    &&& (w.voted_for is None || w.voted_for == Some(a.requesting_peer))
    &&& candidate_up_to_date(v, a)
}

/// The one input on which answering a vote request is undefined: the index
/// comparison is reached and the wire length of the log is 0, so that
/// subtracting one from it underflows.
pub open spec fn vote_request_in_range(v: RaftView, a: RequestVoteArgs) -> bool {
    (a.current_term >= v.term && a.current_entry_hash == last_log_term(v.log) as u32)
        ==> wire_log_len(v) != 0
}

/// The peer after answering a vote request: it moves to a newer term as a
/// follower, and records its vote when it grants it.
pub open spec fn after_request_vote(v: RaftView, a: RequestVoteArgs) -> RaftView {
    let w = observe_term(v, a.current_term);
    if grants_vote(v, a) {
        RaftView { voted_for: Some(a.requesting_peer), ..w }
    } else {
        w
    }
}

// ----------------------------------------------------------------------------
// AppendEntries
// ----------------------------------------------------------------------------

/// The request comes from a leader whose term is at least the peer's.
pub open spec fn accepts_leader(v: RaftView, a: AppendEntriesArgs) -> bool {
    a.term >= v.term
}

/// The peer's log holds an entry at the request's previous index, of the
/// request's previous term.
pub open spec fn log_matches(v: RaftView, a: AppendEntriesArgs) -> bool {
    &&& (a.prev_index as int) < v.log.len()
    &&& v.log[a.prev_index as int].0 == a.prev_term
}

/// How many of `entries`, counted from `k`, agree in term with the log from
/// index `start + k` on, plus `k`: the offset of the first entry that
/// conflicts with the log or lies past its end (`entries.len()` if none).
pub open spec fn agree_len(log: Seq<(u64, Seq<u8>)>, start: int, entries: Seq<(u64, Seq<u8>)>, k: nat) -> nat
    decreases entries.len() - k,
{
    if k >= entries.len() || start + k >= log.len() || log[start + k].0 != entries[k as int].0 {
        k
    } else {
        agree_len(log, start, entries, k + 1)
    }
}

/// The log after `entries` are received for the indices from `start` on:
/// entries that agree in term with the log are already there; from the
/// first that conflicts or lies past the end, the log is cut and the rest
/// of `entries` follows.
pub open spec fn merge_entries(log: Seq<(u64, Seq<u8>)>, start: int, entries: Seq<(u64, Seq<u8>)>) -> Seq<(u64, Seq<u8>)> {
    let k = agree_len(log, start, entries, 0);
    if k == entries.len() {
        log
    } else {
        log.take(start + k) + entries.skip(k as int)
    }
}

/// The peer after handling an AppendEntries request. A request from a
/// leader whose term is at least the peer's makes the peer a follower in
/// that term; when its previous entry matches the log, its entries are
/// merged into the log after the previous entry.
pub open spec fn after_append_entries(v: RaftView, a: AppendEntriesArgs) -> RaftView {
    if !accepts_leader(v, a) {
        v
    } else {
        let w = RaftView { candidate: false, is_leader: false, ..observe_term(v, a.term) };
        if log_matches(v, a) {
            RaftView {
                log: merge_entries(v.log, a.prev_index + 1, stored_entries(a.entries@)),
                ..w
            }
        } else {
            w
        }
    }
}

/// The reply to an AppendEntries request: the peer's term after handling
/// it, and success exactly when the sender's term is not stale and the
/// previous entry matches.
pub open spec fn append_entries_reply(v: RaftView, a: AppendEntriesArgs) -> AppendEntriesReply {
    AppendEntriesReply {
        success: accepts_leader(v, a) && log_matches(v, a),
        term: after_append_entries(v, a).term,
    }
}

// ----------------------------------------------------------------------------
// Elections
// ----------------------------------------------------------------------------

/// Sum of the votes received from the other peers.
pub open spec fn vote_sum(votes: Seq<u32>) -> int
    decreases votes.len(),
{
    if votes.len() == 0 { 0 } else { vote_sum(votes.drop_last()) + votes.last() }
}

/// A candidate that counts its own vote and `votes` from the others wins
/// when the total exceeds half the number of peers.
pub open spec fn wins_election(n_peers: nat, votes: Seq<u32>) -> bool {
    1 + vote_sum(votes) > n_peers as int / 2
}

/// The indices `0..n` without `me`, in increasing order.
pub open spec fn peers_except(n: nat, me: nat) -> Seq<usize>
    decreases n,
{
    if n == 0 {
        Seq::empty()
    } else {
        let rest = peers_except((n - 1) as nat, me);
        if n - 1 == me { rest } else { rest.push((n - 1) as usize) }
    }
}

/// The vote request a peer sends when it stands for election: its next term,
/// the index and (narrowed) term of its last entry, and its own index.
pub open spec fn election_request(v: RaftView) -> RequestVoteArgs {
    RequestVoteArgs {
        current_term: (v.term + 1) as u64,
        current_index: (wire_log_len(v) - 1) as u32,
        current_entry_hash: last_log_term(v.log) as u32,
        requesting_peer: v.me as u32,
    }
}

/// Standing for election is defined: the term can be incremented, and the
/// wire length of the log is not 0, so that the last index can be formed.
pub open spec fn election_in_range(v: RaftView) -> bool {
    v.term < u64::MAX && wire_log_len(v) != 0
}

/// The peer after it stands for election: a candidate in the next term that
/// voted for itself.
pub open spec fn after_standing(v: RaftView) -> RaftView {
    RaftView {
        term: (v.term + 1) as u64,
        voted_for: Some(v.me as u32),
        candidate: true,
        is_leader: false,
        ..v
    }
}

/// The peer takes leadership from an election it stood in for `term`: it is
/// still a candidate in that very term, and the votes make a majority.
pub open spec fn takes_leadership(v: RaftView, term: u64, votes: Seq<u32>) -> bool {
    v.candidate && v.term == term && wins_election(v.n_peers, votes)
}

/// The peer after counting an election it stood in for `term`: it leads if
/// it takes leadership, and is otherwise unchanged.
pub open spec fn after_election(v: RaftView, term: u64, votes: Seq<u32>) -> RaftView {
    if takes_leadership(v, term, votes) {
        RaftView { is_leader: true, candidate: false, ..v }
    } else {
        v
    }
}

// ----------------------------------------------------------------------------
// Heartbeats
// ----------------------------------------------------------------------------

/// The highest of `term` and the terms of the answers among `outs`.
pub open spec fn highest_answered_term(term: u64, outs: Seq<HeartbeatOutcome>) -> u64
    decreases outs.len(),
{
    if outs.len() == 0 {
        term
    } else {
        let rest = highest_answered_term(term, outs.drop_last());
        match outs.last() {
            HeartbeatOutcome::Answered(r) => if r.term > rest { r.term } else { rest },
            _ => rest,
        }
    }
}

/// How many of the heartbeats failed as RPCs.
pub open spec fn failures(outs: Seq<HeartbeatOutcome>) -> nat
    decreases outs.len(),
{
    if outs.len() == 0 {
        0
    } else {
        failures(outs.drop_last()) + if outs.last() is Failed { 1nat } else { 0nat }
    }
}

/// The leader after the outcomes of one round of heartbeats: an answer with
/// a newer term makes it a follower in the highest such term; it also steps
/// down when every heartbeat failed.
pub open spec fn after_heartbeat_replies(v: RaftView, outs: Seq<HeartbeatOutcome>) -> RaftView {
    let w = observe_term(v, highest_answered_term(v.term, outs));
    RaftView { is_leader: w.is_leader && failures(outs) != outs.len(), ..w }
}

/// The peer after it appended a command as leader.
pub open spec fn after_start(v: RaftView, command: Seq<u8>) -> RaftView {
    RaftView { log: v.log.push((v.term, command)), ..v }
}

} // verus!
