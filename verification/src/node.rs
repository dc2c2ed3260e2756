//! A Raft node: a peer together with what its election timer needs to know.
//! The caller runs the timers and the network; it asks the node what to do
//! at each step and hands back what came of it.

use vstd::prelude::*;
use crate::messages::{
    carries,
    AppendEntriesArgs, AppendEntriesReply, HeartbeatOutcome, RequestVoteArgs, RequestVoteReply,
};
use crate::peer::{Error, Raft};
use crate::spec::{
    NodeView, accepts_leader, after_append_entries, after_election, after_heartbeat_replies,
    after_request_vote, after_standing, after_start, append_entries_reply, election_in_range,
    election_request, grants_vote, takes_leadership, vote_request_in_range, vote_sum,
};
use crate::state::State;

verus! {

/// A Raft node.
pub struct Node {
    raft: Raft,
    /// A leader has been heard since the election timer last fired.
    received_heartbeat: bool,
    /// The node has been killed: its timers should stop.
    killed: bool,
}

impl View for Node {
    type V = NodeView;

    closed spec fn view(&self) -> NodeView {
        NodeView {
            raft: self.raft@,
            received_heartbeat: self.received_heartbeat,
            killed: self.killed,
        }
    }
}

/// The election timer fires and the node stands for election: no leader was
/// heard since it last fired, and the node does not lead.
pub open spec fn stands_on_timeout(n: NodeView) -> bool {
    !n.received_heartbeat && !n.raft.is_leader
}

/// What a task that replicates the log to one follower does after an attempt.
#[derive(Clone, Copy, Debug)]
pub enum ReplicationStep {
    /// The follower took the entries: the task ends.
    Done,
    /// Try again, believing the follower matches up to this index.
    Retry(u64),
    /// The follower refused even the entries after the first one: there is
    /// no earlier entry to fall back to, and the task ends.
    GiveUp,
}

/// The step after an attempt to replicate after `index`, given its outcome:
/// `None` when the RPC failed, which is retried from the same index; a
/// refusal moves one entry back, or ends the task when there is no entry
/// before `index`; an acceptance ends the task.
pub fn next_replication_step(index: u64, outcome: Option<AppendEntriesReply>) -> (step: ReplicationStep)
    ensures
        step == (match outcome {
            None => ReplicationStep::Retry(index),
            Some(r) => if r.success {
                ReplicationStep::Done
            } else if index == 0 {
                ReplicationStep::GiveUp
            } else {
                ReplicationStep::Retry((index - 1) as u64)
            },
        }),
{
    match outcome {
        None => ReplicationStep::Retry(index),
        Some(reply) => {
            if reply.success {
                ReplicationStep::Done
            } else if index == 0 {
                ReplicationStep::GiveUp
            } else {
                ReplicationStep::Retry(index - 1)
            }
        },
    }
}

/// The index up to which a follower is first believed to match when a
/// command was appended at `index`: the entry just before it. The first
/// request then carries the new entry alone.
pub fn replication_prev_index(index: u64) -> (prev: u64)
    ensures
        index >= 1 ==> prev == index - 1,
        index == 0 ==> prev == 0,
{
    if index == 0 {
        0
    } else {
        index - 1
    }
}

/// A replication task started in `term` goes on from `index`: the node is
/// alive, still leads in that term, and holds an entry at `index`.
pub open spec fn replication_continues(n: NodeView, term: u64, index: u64) -> bool {
    &&& !n.killed
    &&& n.raft.is_leader
    &&& n.raft.term == term
    &&& (index as int) < n.raft.log.len()
}

impl Node {
    /// Creates a Raft node around `raft`: no leader heard yet, not killed.
    pub fn new(raft: Raft) -> (node: Node)
        ensures
            node@ == (NodeView { raft: raft@, received_heartbeat: false, killed: false }),
    {
        Node { raft, received_heartbeat: false, killed: false }
    }

    /// The node's peer.
    pub fn raft(&self) -> (raft: &Raft)
        ensures
            raft@ == self@.raft,
    {
        &self.raft
    }

    /// The service using Raft wants to start agreement on the next command
    /// to be appended to Raft's log. If this node isn't the leader, returns
    /// [`Error::NotLeader`]; otherwise appends the command and returns the
    /// index it will appear at if it is ever committed, and the current term.
    pub fn start(&mut self, command: Vec<u8>) -> (res: Result<(u64, u64), Error>)
        ensures
            crate::spec::log_wf(final(self)@.raft),
            final(self)@.received_heartbeat == old(self)@.received_heartbeat,
            final(self)@.killed == old(self)@.killed,
            res matches Ok((index, _)) ==> index >= 1,
            old(self)@.raft.is_leader ==> res == Ok::<(u64, u64), Error>(
                (old(self)@.raft.log.len() as u64, old(self)@.raft.term),
            ) && final(self)@.raft == after_start(old(self)@.raft, command@),
            !old(self)@.raft.is_leader ==> res == Err::<(u64, u64), Error>(Error::NotLeader)
                && final(self)@ == old(self)@,
    {
        self.raft.start(command)
    }

    /// The request a replication task started in `term` sends next, believing
    /// the follower matches up to `index`; `None` when the task should stop:
    /// the node was killed, no longer leads, has moved to another term, or
    /// no longer holds an entry at `index`.
    pub fn next_replication_request(&self, term: u64, index: u64) -> (args: Option<AppendEntriesArgs>)
        ensures
            args is Some <==> replication_continues(self@, term, index),
            args matches Some(a) ==> {
                &&& a.term == term
                &&& a.prev_index == index
                &&& a.prev_term == self@.raft.log[index as int].0
                &&& a.entries@.len() == self@.raft.log.len() - index - 1
                &&& forall|i: int|
                    0 <= i < a.entries@.len() ==> carries(
                        #[trigger] a.entries@[i],
                        self@.raft.log[index + 1 + i],
                    )
            },
    {
        if self.killed || !self.raft.is_leader() || self.raft.term() != term
            || index >= self.raft.log_len() {
            None
        } else {
            Some(self.raft.replication_request(index))
        }
    }

    /// The current term of this peer.
    pub fn term(&self) -> (term: u64)
        ensures
            term == self@.raft.term,
    {
        self.raft.term()
    }

    /// Whether this peer believes it is the leader.
    pub fn is_leader(&self) -> (is_leader: bool)
        ensures
            is_leader == self@.raft.is_leader,
    {
        self.raft.is_leader()
    }

    /// The current state of this peer.
    pub fn get_state(&self) -> (state: State)
        ensures
            state.term == self@.raft.term,
            state.is_leader == self@.raft.is_leader,
    {
        State { term: self.term(), is_leader: self.is_leader() }
    }

    /// Marks the node as killed, so that its timers stop.
    pub fn kill(&mut self)
        ensures
            final(self)@ == (NodeView { killed: true, ..old(self)@ }),
    {
        self.killed = true;
    }

    /// Whether the node has been killed.
    pub fn is_killed(&self) -> (killed: bool)
        ensures
            killed == self@.killed,
    {
        self.killed
    }

    /// Answers a RequestVote RPC (see [`Raft::request_vote`]).
    pub fn request_vote(&mut self, args: &RequestVoteArgs) -> (reply: RequestVoteReply)
        requires
            vote_request_in_range(old(self)@.raft, *args),
        ensures
            final(self)@ == (NodeView { raft: after_request_vote(old(self)@.raft, *args), ..old(self)@ }),
            reply.vote_value == (if grants_vote(old(self)@.raft, *args) { 1u32 } else { 0u32 }),
    {
        self.raft.request_vote(args)
    }

    /// Answers an AppendEntries RPC (see [`Raft::append_entries`]); a
    /// request from a current leader also counts as hearing from a leader.
    pub fn append_entries(&mut self, args: AppendEntriesArgs) -> (reply: AppendEntriesReply)
        ensures
            crate::spec::log_wf(final(self)@.raft),
            final(self)@ == (NodeView {
                raft: after_append_entries(old(self)@.raft, args),
                received_heartbeat: old(self)@.received_heartbeat || accepts_leader(old(self)@.raft, args),
                killed: old(self)@.killed,
            }),
            reply == append_entries_reply(old(self)@.raft, args),
    {
        let heard = args.term >= self.raft.term();
        let reply = self.raft.append_entries(args);
        if heard {
            self.received_heartbeat = true;
        }
        reply
    }

    /// Whether the next tick of the election timer is defined (see
    /// [`Node::election_tick`]).
    pub fn election_tick_defined(&self) -> (defined: bool)
        ensures
            defined == (stands_on_timeout(self@) ==> election_in_range(self@.raft)),
    {
        self.received_heartbeat || self.raft.is_leader() || self.raft.election_defined()
    }

    /// The election timer fired. If a leader was heard since it last fired,
    /// that is forgotten and nothing else happens. Otherwise a node that does
    /// not lead stands for election and returns the vote request to send to
    /// the other peers; a leader does nothing.
    pub fn election_tick(&mut self) -> (request: Option<RequestVoteArgs>)
        requires
            stands_on_timeout(old(self)@) ==> election_in_range(old(self)@.raft),
        ensures
            old(self)@.received_heartbeat ==> request is None
                && final(self)@ == (NodeView { received_heartbeat: false, ..old(self)@ }),
            !old(self)@.received_heartbeat && old(self)@.raft.is_leader ==> request is None
                && final(self)@ == old(self)@,
            stands_on_timeout(old(self)@) ==> request == Some(election_request(old(self)@.raft))
                && final(self)@ == (NodeView { raft: after_standing(old(self)@.raft), ..old(self)@ }),
    {
        if self.received_heartbeat {
            self.received_heartbeat = false;
            return None;
        }
        if !self.raft.is_leader() {
            Some(self.raft.stand_for_election())
        } else {
            None
        }
    }

    /// Counts an election this node stood in for `term` (see
    /// [`Raft::conclude_election`]).
    pub fn conclude_election(&mut self, term: u64, votes: &Vec<u32>) -> (won: bool)
        requires
            1 + vote_sum(votes@) <= u32::MAX,
        ensures
            won == takes_leadership(old(self)@.raft, term, votes@),
            final(self)@ == (NodeView { raft: after_election(old(self)@.raft, term, votes@), ..old(self)@ }),
    {
        self.raft.conclude_election(term, votes)
    }

    /// Takes in the outcomes of one round of heartbeats (see
    /// [`Raft::process_heartbeat_replies`]).
    pub fn process_heartbeat_replies(&mut self, outcomes: &Vec<HeartbeatOutcome>)
        ensures
            final(self)@ == (NodeView {
                raft: after_heartbeat_replies(old(self)@.raft, outcomes@),
                ..old(self)@
            }),
    {
        self.raft.process_heartbeat_replies(outcomes)
    }
}

} // verus!
