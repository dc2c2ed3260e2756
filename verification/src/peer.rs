//! A single Raft peer: its term, its leadership, its log, and the decisions
//! it takes on each request and each outcome of its own requests.

use vstd::prelude::*;
use crate::messages::{
    AppendEntriesArgs, AppendEntriesReply, CommandEntry, RequestVoteArgs, RequestVoteReply,
    carries, narrow_command, stored_entries, stored_entry, widen_command,
};
use crate::messages::HeartbeatOutcome;
use crate::spec::{
    RaftView, after_append_entries, after_election, after_heartbeat_replies, after_request_vote,
    after_standing, after_start, agree_len, append_entries_reply, election_in_range,
    election_request, failures, grants_vote, highest_answered_term, last_log_term, log_wf,
    merge_entries, observe_term, peers_except, takes_leadership, vote_request_in_range, vote_sum,
};
use crate::state::State;
use crate::persist::{
    bytes_u64, decode, decode_state, encode_state, lengths_fit, parse_entries, state_bytes,
};

verus! {

/// The model of a log held as `(term, command)` pairs.
pub open spec fn log_view(log: Seq<(u64, Vec<u8>)>) -> Seq<(u64, Seq<u8>)> {
    log.map_values(|e: (u64, Vec<u8>)| (e.0, e.1@))
}

/// Why a peer refuses to start agreement on a command.
#[derive(Clone, Copy, Debug)]
pub enum Error {
    /// The peer does not believe it is the leader.
    NotLeader,
}

/// A sum of votes over a prefix is at most the sum over the whole sequence.
proof fn lemma_vote_sum_prefix(votes: Seq<u32>, i: int)
    requires
        0 <= i <= votes.len(),
    ensures
        vote_sum(votes.take(i)) <= vote_sum(votes),
        vote_sum(votes) >= 0,
    decreases votes.len(),
{
    if votes.len() > 0 {
        if i == votes.len() {
            assert(votes.take(i) =~= votes);
            lemma_vote_sum_prefix(votes.drop_last(), i - 1);
        } else {
            assert(votes.take(i) =~= votes.drop_last().take(i));
            lemma_vote_sum_prefix(votes.drop_last(), i);
        }
    }
}

/// Appends the entries received on the wire, from the one at `from` on, to
/// `log`, each narrowed back to bytes.
fn append_received(log: &mut Vec<(u64, Vec<u8>)>, entries: &Vec<CommandEntry>, from: usize)
    requires
        from <= entries@.len(),
    ensures
        log_view(final(log)@) == log_view(old(log)@) + stored_entries(entries@).skip(from as int),
        final(log)@.len() >= old(log)@.len(),
{
    let ghost start = log_view(log@);
    let ghost start_len = log@.len();
    let ghost all = stored_entries(entries@);
    let mut i: usize = from;
    assert(all.subrange(from as int, from as int) =~= Seq::<(u64, Seq<u8>)>::empty());
    assert(start + Seq::<(u64, Seq<u8>)>::empty() =~= start);
    while i < entries.len()
        invariant
            from <= i <= entries.len(),
            all == stored_entries(entries@),
            log_view(log@) == start + all.subrange(from as int, i as int),
            start == log_view(old(log)@),
            start_len == old(log)@.len(),
            log@.len() >= start_len,
        decreases entries.len() - i,
    {
        let e = &entries[i];
        let command = narrow_command(&e.command);
        let ghost before = log@;
        log.push((e.term, command));
        proof {
            assert(log_view(log@) =~= log_view(before).push((e.term, command@)));
            assert(all.subrange(from as int, i + 1) =~= all.subrange(from as int, i as int).push(
                stored_entry(entries@[i as int]),
            ));
        }
        i = i + 1;
    }
    assert(all.subrange(from as int, i as int) =~= all.skip(from as int));
}

/// A log holding only the sentinel entry.
fn sentinel_log() -> (log: Vec<(u64, Vec<u8>)>)
    ensures
        log@.len() == 1,
        log@[0].0 == 0,
        log_view(log@) == seq![(0u64, Seq::<u8>::empty())],
{
    let mut log: Vec<(u64, Vec<u8>)> = Vec::new();
    log.push((0, Vec::new()));
    assert(log_view(log@) =~= seq![(0u64, Seq::<u8>::empty())]);
    log
}

/// `data` is a state a peer can start from: no bytes (a first boot) or a
/// persisted state whose log starts with the sentinel entry's term.
pub open spec fn restorable(data: Seq<u8>) -> bool {
    data.len() == 0 || (decode_state(data) is Some && decode_state(data).unwrap().2[0].0 == 0)
}

/// Parsing `n` entries gives `n` entries.
proof fn lemma_parsed_count(b: Seq<u8>, n: nat)
    requires
        parse_entries(b, n) is Some,
    ensures
        parse_entries(b, n).unwrap().0.len() == n,
    decreases n,
{
    if n > 0 {
        lemma_parsed_count(b, (n - 1) as nat);
    }
}

/// A persisted state holds at least one entry.
proof fn lemma_decoded_log_not_empty(data: Seq<u8>)
    requires
        decode_state(data) is Some,
    ensures
        decode_state(data).unwrap().2.len() >= 1,
{
    let n = bytes_u64(data.subrange(16, 24));
    lemma_parsed_count(data.skip(24), n as nat);
}

/// A single Raft peer.
pub struct Raft {
    /// Number of peers, this one included.
    n_peers: usize,
    /// This peer's index among the peers.
    me: usize,
    state: State,
    /// The candidate this peer voted for in its current term.
    voted_for: Option<u32>,
    /// This peer stands for election in its current term.
    candidate: bool,
    /// `(term, command)` entries; the first is a sentinel of term 0.
    log_entries: Vec<(u64, Vec<u8>)>,
}

impl View for Raft {
    type V = RaftView;

    closed spec fn view(&self) -> RaftView {
        RaftView {
            n_peers: self.n_peers as nat,
            me: self.me as nat,
            term: self.state.term,
            voted_for: self.voted_for,
            candidate: self.candidate,
            is_leader: self.state.is_leader,
            log: log_view(self.log_entries@),
        }
    }
}

impl Raft {
    /// The peer's log holds at least its sentinel entry.
    #[verifier::type_invariant]
    spec fn log_never_empty(self) -> bool {
        self.log_entries.len() >= 1 && self.log_entries@[0].0 == 0
    }

    /// Takes the log out of the peer, leaving the sentinel log in its place.
    fn take_log(&mut self) -> (log: Vec<(u64, Vec<u8>)>)
        ensures
            log@ == old(self).log_entries@,
            log@.len() >= 1,
            log@[0].0 == 0,
            final(self).n_peers == old(self).n_peers,
            final(self).me == old(self).me,
            final(self).state == old(self).state,
            final(self).voted_for == old(self).voted_for,
            final(self).candidate == old(self).candidate,
    {
        proof {
            use_type_invariant(&*self);
        }
        let mut log = sentinel_log();
        std::mem::swap(&mut log, &mut self.log_entries);
        log
    }

    /// Term of the last log entry.
    fn last_term(&self) -> (t: u64)
        ensures
            t == last_log_term(self@.log),
    {
        let n = self.log_entries.len();
        if n == 0 {
            0
        } else {
            self.log_entries[n - 1].0
        }
    }

    /// Whether answering `args` is defined (see [`vote_request_in_range`]).
    pub fn vote_request_defined(&self, args: &RequestVoteArgs) -> (defined: bool)
        ensures
            defined == vote_request_in_range(self@, *args),
    {
        !(self.state.term <= args.current_term && args.current_entry_hash == self.last_term() as u32)
            || self.log_entries.len() as u32 != 0
    }

    /// Whether standing for election is defined (see [`election_in_range`]).
    pub fn election_defined(&self) -> (defined: bool)
        ensures
            defined == election_in_range(self@),
    {
        self.state.term < u64::MAX && self.log_entries.len() as u32 != 0
    }

    /// Learns of term `t`: a newer term becomes the current term, in which
    /// this peer is a follower that has not voted.
    fn adopt_term(&mut self, t: u64)
        ensures
            final(self)@ == observe_term(old(self)@, t),
    {
        proof {
            use_type_invariant(&*self);
        }
        if t > self.state.term {
            self.state.term = t;
            self.voted_for = None;
            self.candidate = false;
            self.state.is_leader = false;
        }
    }

    /// Answers a RequestVote RPC. A newer term in the request makes this
    /// peer a follower in that term. The vote is granted when the request's
    /// term is not older than this peer's, the peer has voted for no other
    /// candidate in it, and the candidate's last entry is at least as
    /// recent; the vote is then recorded.
    pub fn request_vote(&mut self, args: &RequestVoteArgs) -> (reply: RequestVoteReply)
        requires
            vote_request_in_range(old(self)@, *args),
        ensures
            final(self)@ == after_request_vote(old(self)@, *args),
            reply.vote_value == (if grants_vote(old(self)@, *args) { 1u32 } else { 0u32 }),
    {
        proof {
            use_type_invariant(&*self);
        }
        let last_term_inlog = self.last_term() as u32;
        if args.current_term < self.state.term {
            return RequestVoteReply { vote_value: 0 };
        }
        self.adopt_term(args.current_term);
        proof {
            use_type_invariant(&*self);
        }
        if let Some(candidate) = self.voted_for {
            if candidate != args.requesting_peer {
                return RequestVoteReply { vote_value: 0 };
            }
        }
        if args.current_entry_hash < last_term_inlog {
            return RequestVoteReply { vote_value: 0 };
        }
        if args.current_entry_hash == last_term_inlog {
            let wire_len = self.log_entries.len() as u32;
            if args.current_index < wire_len - 1 {
                return RequestVoteReply { vote_value: 0 };
            }
        }
        self.voted_for = Some(args.requesting_peer);
        RequestVoteReply { vote_value: 1 }
    }

    /// How many of `entries` agree in term with the log from index `start`
    /// on (see [`agree_len`]).
    fn agreeing_entries(&self, start: usize, entries: &Vec<CommandEntry>) -> (k: usize)
        requires
            start <= self@.log.len(),
        ensures
            k == agree_len(self@.log, start as int, stored_entries(entries@), 0),
            k <= entries@.len(),
            start + k <= self@.log.len(),
    {
        let ghost e = stored_entries(entries@);
        let len = self.log_entries.len();
        let mut k: usize = 0;
        while k < entries.len()
            invariant
                k <= entries.len(),
                start + k <= len,
                len == self@.log.len(),
                e == stored_entries(entries@),
                agree_len(self@.log, start as int, e, 0) == agree_len(self@.log, start as int, e, k as nat),
            decreases entries.len() - k,
        {
            assert(e[k as int].0 == entries@[k as int].term);
            if k >= len - start || self.log_entries[start + k].0 != entries[k].term {
                return k;
            }
            k = k + 1;
        }
        k
    }

    /// Answers an AppendEntries RPC. A request whose term is older than this
    /// peer's is refused. Otherwise this peer is a follower in the request's
    /// term, and succeeds when its log holds the request's previous entry:
    /// the entries are then merged into the log after it, cutting the log
    /// only from the first entry that conflicts.
    pub fn append_entries(&mut self, args: AppendEntriesArgs) -> (reply: AppendEntriesReply)
        ensures
            log_wf(final(self)@),
            final(self)@ == after_append_entries(old(self)@, args),
            reply == append_entries_reply(old(self)@, args),
    {
        proof {
            use_type_invariant(&*self);
        }
        if args.term < self.state.term {
            return AppendEntriesReply { success: false, term: self.state.term };
        }
        self.adopt_term(args.term);
        proof {
            use_type_invariant(&*self);
        }
        self.candidate = false;
        self.state.is_leader = false;
        let len = self.log_entries.len();
        if args.prev_index >= len as u64 || self.log_entries[args.prev_index as usize].0 != args.prev_term {
            return AppendEntriesReply { success: false, term: self.state.term };
        }
        let start = args.prev_index as usize + 1;
        let k = self.agreeing_entries(start, &args.entries);
        if k < args.entries.len() {
            let ghost before = self@.log;
            let mut log = self.take_log();
            log.truncate(start + k);
            assert(log_view(log@) =~= before.take(start + k));
            append_received(&mut log, &args.entries, k);
            assert(log_view(log@)[0] == before[0]);
            assert(log@[0].0 == log_view(log@)[0].0);
            self.log_entries = log;
        }
        AppendEntriesReply { success: true, term: self.state.term }
    }

    /// Creates a peer that is one of `n_peers` peers, at index `me`, and
    /// initializes it from `raft_state`, the state it persisted before a
    /// crash: a first boot (no bytes) starts in term 0, with no vote and the
    /// sentinel log; otherwise the peer starts from the persisted term, vote
    /// and log. It starts as a follower either way.
    pub fn new(n_peers: usize, me: usize, raft_state: &[u8]) -> (rf: Raft)
        requires
            restorable(raft_state@),
        ensures
            log_wf(rf@),
            rf@.n_peers == n_peers,
            rf@.me == me,
            !rf@.is_leader,
            !rf@.candidate,
            raft_state@.len() == 0 ==> rf@.term == 0 && rf@.voted_for is None && rf@.log == seq![
                (0u64, Seq::<u8>::empty()),
            ],
            raft_state@.len() != 0 ==> (rf@.term, rf@.voted_for, rf@.log) == decode_state(
                raft_state@,
            ).unwrap(),
    {
        let log_entries = sentinel_log();
        let mut rf = Raft {
            n_peers,
            me,
            state: State { term: 0, is_leader: false },
            voted_for: None,
            candidate: false,
            log_entries,
        };
        rf.restore(raft_state);
        proof {
            use_type_invariant(&rf);
        }
        rf
    }

    /// Whether a peer can start from `data` (see [`restorable`]).
    pub fn is_restorable(data: &[u8]) -> (ok: bool)
        ensures
            ok == restorable(data@),
    {
        if data.len() == 0 {
            return true;
        }
        match decode(data) {
            Some((_, _, log)) => {
                proof {
                    lemma_decoded_log_not_empty(data@);
                }
                log[0].0 == 0
            },
            None => false,
        }
    }

    /// Saves the peer's persistent state, its term, its vote and its log, as
    /// the bytes that [`Raft::new`] and [`Raft::restore`] restore it from
    /// after a crash.
    pub fn persist(&self) -> (data: Vec<u8>)
        ensures
            data@ == state_bytes(self@.term, self@.voted_for, self@.log),
    {
        encode_state(self.state.term, self.voted_for, &self.log_entries)
    }

    /// Restores previously persisted state: no bytes leave the peer as it
    /// is; otherwise it takes the term, vote and log they hold.
    pub fn restore(&mut self, data: &[u8])
        requires
            restorable(data@),
        ensures
            data@.len() == 0 ==> final(self)@ == old(self)@,
            data@.len() != 0 ==> final(self)@ == (RaftView {
                term: decode_state(data@).unwrap().0,
                voted_for: decode_state(data@).unwrap().1,
                log: decode_state(data@).unwrap().2,
                ..old(self)@
            }),
    {
        proof {
            use_type_invariant(&*self);
        }
        if data.len() == 0 {
            return;
        }
        match decode(data) {
            Some((term, vote, log)) => {
                proof {
                    lemma_decoded_log_not_empty(data@);
                    assert(log@[0].0 == log_view(log@)[0].0);
                }
                self.state.term = term;
                self.voted_for = vote;
                self.log_entries = log;
            },
            None => {},
        }
    }

    /// Every length in the peer's log fits in eight bytes.
    pub proof fn lemma_lengths_fit(&self)
        ensures
            lengths_fit(self@.log),
    {
        assert(self.log_entries.len() == self.log_entries@.len());
        assert forall|i: int| 0 <= i < self@.log.len() implies (#[trigger] self@.log[i]).1.len() <= u64::MAX by {
            let command = self.log_entries@[i].1;
            assert(self@.log[i].1 == command@);
            assert(command.len() == command@.len());
        }
    }

    /// The current term of this peer.
    pub fn term(&self) -> (term: u64)
        ensures
            term == self@.term,
    {
        self.state.term
    }

    /// The candidate this peer voted for in its current term.
    pub fn voted_for(&self) -> (vote: Option<u32>)
        ensures
            vote == self@.voted_for,
    {
        self.voted_for
    }

    /// Whether this peer stands for election in its current term.
    pub fn is_candidate(&self) -> (candidate: bool)
        ensures
            candidate == self@.candidate,
    {
        self.candidate
    }

    /// Whether this peer believes it is the leader.
    pub fn is_leader(&self) -> (is_leader: bool)
        ensures
            is_leader == self@.is_leader,
    {
        self.state.is_leader
    }

    /// The current state of this peer.
    pub fn state(&self) -> (state: State)
        ensures
            state.term == self@.term,
            state.is_leader == self@.is_leader,
    {
        self.state
    }

    /// Number of entries in the log.
    pub fn log_len(&self) -> (len: u64)
        ensures
            len == self@.log.len(),
    {
        self.log_entries.len() as u64
    }

    /// Index of the last entry of the log.
    pub fn last_log_index(&self) -> (index: u64)
        ensures
            index == self@.log.len() - 1,
            self@.log.len() >= 1,
    {
        proof {
            use_type_invariant(self);
        }
        self.log_entries.len() as u64 - 1
    }

    /// The indices of the other peers, in increasing order.
    pub fn other_peers(&self) -> (others: Vec<usize>)
        ensures
            others@ == peers_except(self@.n_peers, self@.me),
    {
        let mut others: Vec<usize> = Vec::new();
        let mut i: usize = 0;
        while i < self.n_peers
            invariant
                i <= self.n_peers,
                others@ == peers_except(i as nat, self.me as nat),
            decreases self.n_peers - i,
        {
            if i != self.me {
                others.push(i);
            }
            i = i + 1;
        }
        others
    }

    /// Starts agreement on `command`: a leader appends it to its log in its
    /// current term and returns the index the command will appear at if it
    /// is ever committed, and the current term. A peer that is not the
    /// leader refuses and stays as it is.
    pub fn start(&mut self, command: Vec<u8>) -> (res: Result<(u64, u64), Error>)
        ensures
            log_wf(final(self)@),
            res matches Ok((index, _)) ==> index >= 1,
            old(self)@.is_leader ==> res == Ok::<(u64, u64), Error>((old(self)@.log.len() as u64, old(self)@.term))
                && final(self)@ == after_start(old(self)@, command@),
            !old(self)@.is_leader ==> res == Err::<(u64, u64), Error>(Error::NotLeader) && final(self)@ == old(self)@,
    {
        proof {
            use_type_invariant(&*self);
        }
        if !self.state.is_leader {
            return Err(Error::NotLeader);
        }
        let index = self.log_entries.len() as u64;
        let term = self.state.term;
        let ghost before = self.log_entries@;
        let ghost cmd = command@;
        let mut log = self.take_log();
        log.push((term, command));
        assert(log_view(log@) =~= log_view(before).push((term, cmd)));
        self.log_entries = log;
        Ok((index, term))
    }

    /// The last `no_of_entries` log entries in their wire form.
    pub fn create_entries(&self, no_of_entries: usize) -> (entries: Vec<CommandEntry>)
        requires
            no_of_entries <= self@.log.len(),
        ensures
            entries@.len() == no_of_entries,
            forall|i: int|
                0 <= i < no_of_entries ==> carries(
                    #[trigger] entries@[i],
                    self@.log[self@.log.len() - no_of_entries + i],
                ),
    {
        let len_log = self.log_entries.len();
        let first = len_log - no_of_entries;
        let mut entries: Vec<CommandEntry> = Vec::new();
        let mut j: usize = first;
        while j < len_log
            invariant
                first <= j <= len_log,
                len_log == self.log_entries@.len(),
                first == len_log - no_of_entries,
                entries@.len() == j - first,
                forall|i: int|
                    0 <= i < j - first ==> carries(#[trigger] entries@[i], self@.log[first + i]),
            decreases len_log - j,
        {
            let entry = &self.log_entries[j];
            let command = widen_command(&entry.1);
            entries.push(CommandEntry { term: entry.0, command });
            j = j + 1;
        }
        entries
    }

    /// The AppendEntries request that brings a follower whose log is believed
    /// to match this one up to `index` up to date: the previous entry is the
    /// one at `index`, and the entries are those after it, to the end.
    pub fn replication_request(&self, index: u64) -> (args: AppendEntriesArgs)
        requires
            (index as int) < self@.log.len(),
        ensures
            args.term == self@.term,
            args.prev_index == index,
            args.prev_term == self@.log[index as int].0,
            args.entries@.len() == self@.log.len() - index - 1,
            forall|i: int|
                0 <= i < args.entries@.len() ==> carries(
                    #[trigger] args.entries@[i],
                    self@.log[index + 1 + i],
                ),
    {
        let prev_term = self.log_entries[index as usize].0;
        let entries = self.create_entries(self.log_entries.len() - index as usize - 1);
        AppendEntriesArgs { term: self.state.term, prev_index: index, prev_term, entries }
    }

    /// The heartbeat a leader sends: its term and no entries.
    pub fn heartbeat_args(&self) -> (args: AppendEntriesArgs)
        ensures
            args.term == self@.term,
            args.prev_index == 0,
            args.prev_term == 0,
            args.entries@.len() == 0,
    {
        AppendEntriesArgs { term: self.state.term, prev_index: 0, prev_term: 0, entries: Vec::new() }
    }

    /// Stands for election: becomes a candidate in the next term that voted
    /// for itself, and returns the vote request to send to the other peers.
    pub fn stand_for_election(&mut self) -> (args: RequestVoteArgs)
        requires
            election_in_range(old(self)@),
        ensures
            final(self)@ == after_standing(old(self)@),
            args == election_request(old(self)@),
    {
        proof {
            use_type_invariant(&*self);
        }
        self.state.term = self.state.term + 1;
        self.voted_for = Some(self.me as u32);
        self.candidate = true;
        self.state.is_leader = false;
        let wire_len = self.log_entries.len() as u32;
        RequestVoteArgs {
            current_term: self.state.term,
            current_index: wire_len - 1,
            current_entry_hash: self.last_term() as u32,
            requesting_peer: self.me as u32,
        }
    }

    /// Counts an election this peer stood in for `term`: its own vote plus
    /// `votes`, the votes the other peers granted. It becomes the leader when
    /// it is still a candidate in that very term and the total exceeds half
    /// the number of peers, and returns whether it did.
    pub fn conclude_election(&mut self, term: u64, votes: &Vec<u32>) -> (won: bool)
        requires
            1 + vote_sum(votes@) <= u32::MAX,
        ensures
            won == takes_leadership(old(self)@, term, votes@),
            final(self)@ == after_election(old(self)@, term, votes@),
    {
        proof {
            use_type_invariant(&*self);
        }
        let mut total_positive_votes: u32 = 1;
        let mut i: usize = 0;
        while i < votes.len()
            invariant
                i <= votes.len(),
                total_positive_votes == 1 + vote_sum(votes@.take(i as int)),
                1 + vote_sum(votes@) <= u32::MAX,
            decreases votes.len() - i,
        {
            proof {
                assert(votes@.take(i + 1).drop_last() =~= votes@.take(i as int));
                lemma_vote_sum_prefix(votes@, i + 1);
            }
            total_positive_votes = total_positive_votes + votes[i];
            i = i + 1;
        }
        assert(votes@.take(i as int) =~= votes@);
        let won = self.candidate && self.state.term == term
            && total_positive_votes as usize > self.n_peers / 2;
        if won {
            self.state.is_leader = true;
            self.candidate = false;
        }
        won
    }

    /// Takes in the outcomes of one round of heartbeats: an answer carrying
    /// a newer term makes this peer a follower in the highest such term; when
    /// every heartbeat failed as an RPC, it steps down too.
    pub fn process_heartbeat_replies(&mut self, outcomes: &Vec<HeartbeatOutcome>)
        ensures
            final(self)@ == after_heartbeat_replies(old(self)@, outcomes@),
    {
        let mut highest = self.state.term;
        let mut rx_error_count: usize = 0;
        let mut i: usize = 0;
        while i < outcomes.len()
            invariant
                i <= outcomes.len(),
                highest == highest_answered_term(self@.term, outcomes@.take(i as int)),
                rx_error_count == failures(outcomes@.take(i as int)),
                rx_error_count <= i,
            decreases outcomes.len() - i,
        {
            proof {
                assert(outcomes@.take(i + 1).drop_last() =~= outcomes@.take(i as int));
            }
            match outcomes[i] {
                HeartbeatOutcome::Answered(reply) => {
                    if reply.term > highest {
                        highest = reply.term;
                    }
                },
                HeartbeatOutcome::Failed => {
                    rx_error_count = rx_error_count + 1;
                },
                HeartbeatOutcome::Unanswered => {},
            }
            i = i + 1;
        }
        assert(outcomes@.take(i as int) =~= outcomes@);
        self.adopt_term(highest);
        proof {
            use_type_invariant(&*self);
        }
        if rx_error_count == outcomes.len() {
            self.state.is_leader = false;
        }
    }
}

} // verus!
