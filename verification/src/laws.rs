//! Properties that hold across the peer's decisions.

use vstd::prelude::*;
use vstd::set_lib::{lemma_int_range, lemma_len_subset, lemma_set_disjoint_lens, set_int_range};
use crate::messages::{
    AppendEntriesArgs, AppendEntriesReply, CommandEntry, HeartbeatOutcome, RequestVoteArgs,
    carries, stored_entries, stored_entry,
};
use crate::peer::{Raft, restorable};
use crate::persist::{decode_state, lemma_state_round_trip, state_bytes};
use crate::spec::{
    RaftView, accepts_leader, after_append_entries, after_election, after_heartbeat_replies,
    after_request_vote, after_standing, after_start, agree_len, append_entries_reply,
    election_in_range, failures, grants_vote, highest_answered_term, log_matches, log_wf,
    merge_entries, takes_leadership, vote_sum, wins_election, election_request,
};

verus! {

// ----------------------------------------------------------------------------
// The wire
// ----------------------------------------------------------------------------

/// A log entry sent on the wire is stored by the receiver exactly as the
/// sender holds it: widening each byte to a word and narrowing it back
/// gives the byte again.
pub proof fn lemma_wire_round_trip(e: CommandEntry, entry: (u64, Seq<u8>))
    requires
        carries(e, entry),
    ensures
        stored_entry(e) == entry,
{
    assert(e.command@.map_values(|w: u32| w as u8) =~= entry.1);
}

/// A sequence of entries sent on the wire is stored exactly as the sender
/// holds it.
pub proof fn lemma_wire_round_trip_all(es: Seq<CommandEntry>, entries: Seq<(u64, Seq<u8>)>)
    requires
        es.len() == entries.len(),
        forall|i: int| 0 <= i < es.len() ==> carries(#[trigger] es[i], entries[i]),
    ensures
        stored_entries(es) == entries,
{
    assert forall|i: int| 0 <= i < es.len() implies #[trigger] stored_entries(es)[i] == entries[i] by {
        lemma_wire_round_trip(es[i], entries[i]);
    }
    assert(stored_entries(es) =~= entries);
}

// ----------------------------------------------------------------------------
// Terms and votes
// ----------------------------------------------------------------------------

/// A granted vote is recorded: the peer is then in the candidate's term and
/// remembers whom it voted for.
pub proof fn lemma_vote_recorded(v: RaftView, request: RequestVoteArgs)
    requires
        grants_vote(v, request),
    ensures
        after_request_vote(v, request).term == request.current_term,
        after_request_vote(v, request).voted_for == Some(request.requesting_peer),
{
}

/// A peer grants its vote to at most one candidate per term: once it voted
/// for a candidate, it refuses every other candidate of the same term.
pub proof fn lemma_one_vote_per_term(v: RaftView, first: RequestVoteArgs, second: RequestVoteArgs)
    requires
        grants_vote(v, first),
        second.current_term == first.current_term,
        second.requesting_peer != first.requesting_peer,
    ensures
        !grants_vote(after_request_vote(v, first), second),
        after_request_vote(after_request_vote(v, first), second) == after_request_vote(v, first),
{
}

/// A peer that stood for election in a term voted for itself in it, and
/// grants no vote to another candidate of that term.
pub proof fn lemma_no_vote_in_own_election_term(v: RaftView, request: RequestVoteArgs)
    requires
        election_in_range(v),
        request.current_term == after_standing(v).term,
        request.requesting_peer != v.me as u32,
    ensures
        after_standing(v).voted_for == Some(v.me as u32),
        !grants_vote(after_standing(v), request),
        after_request_vote(after_standing(v), request) == after_standing(v),
{
}

/// A peer's vote in a term never changes while it stays in that term: every
/// decision that leaves the term as it was keeps a recorded vote.
pub proof fn lemma_vote_kept_in_term(
    v: RaftView,
    vote: RequestVoteArgs,
    append: AppendEntriesArgs,
    term: u64,
    votes: Seq<u32>,
    outcomes: Seq<HeartbeatOutcome>,
    command: Seq<u8>,
    c: u32,
)
    requires
        v.voted_for == Some(c),
    ensures
        after_request_vote(v, vote).term == v.term ==> after_request_vote(v, vote).voted_for == Some(c),
        after_append_entries(v, append).term == v.term ==> after_append_entries(v, append).voted_for == Some(c),
        after_election(v, term, votes).voted_for == Some(c),
        after_heartbeat_replies(v, outcomes).term == v.term ==> after_heartbeat_replies(v, outcomes).voted_for
            == Some(c),
        after_start(v, command).voted_for == Some(c),
{
}

/// A request or reply with a newer term makes a peer a follower in that
/// term, whatever else it decides: it leaves a vote request granted or
/// not, and an AppendEntries request succeeded or not, in the new term with
/// neither leadership nor candidacy.
pub proof fn lemma_newer_term_makes_follower(
    v: RaftView,
    vote: RequestVoteArgs,
    append: AppendEntriesArgs,
    outcomes: Seq<HeartbeatOutcome>,
)
    ensures
        vote.current_term > v.term ==> after_request_vote(v, vote).term == vote.current_term
            && !after_request_vote(v, vote).is_leader && !after_request_vote(v, vote).candidate,
        append.term >= v.term ==> after_append_entries(v, append).term == append.term
            && !after_append_entries(v, append).is_leader && !after_append_entries(v, append).candidate
            && append_entries_reply(v, append).term == append.term,
        highest_answered_term(v.term, outcomes) > v.term ==> after_heartbeat_replies(v, outcomes).term
            == highest_answered_term(v.term, outcomes) && !after_heartbeat_replies(v, outcomes).is_leader
            && !after_heartbeat_replies(v, outcomes).candidate,
{
}

/// A request with a stale term changes nothing: a vote request whose term
/// is older than the peer's is refused and leaves the peer as it was; an
/// AppendEntries request whose term is older is refused with the peer's
/// term and leaves the peer as it was.
pub proof fn lemma_stale_requests_change_nothing(
    v: RaftView,
    vote: RequestVoteArgs,
    append: AppendEntriesArgs,
)
    ensures
        vote.current_term < v.term ==> !grants_vote(v, vote) && after_request_vote(v, vote) == v,
        append.term < v.term ==> after_append_entries(v, append) == v
            && append_entries_reply(v, append) == (AppendEntriesReply { success: false, term: v.term }),
{
}

/// The highest answered term is at least the term it starts from.
proof fn lemma_highest_at_least(term: u64, outs: Seq<HeartbeatOutcome>)
    ensures
        highest_answered_term(term, outs) >= term,
    decreases outs.len(),
{
    if outs.len() > 0 {
        lemma_highest_at_least(term, outs.drop_last());
    }
}

/// A peer's term never decreases, whatever it decides: answering requests,
/// standing for and counting elections, taking in heartbeat outcomes, or
/// starting agreement on a command.
pub proof fn lemma_term_never_decreases(
    v: RaftView,
    vote: RequestVoteArgs,
    append: AppendEntriesArgs,
    term: u64,
    votes: Seq<u32>,
    outcomes: Seq<HeartbeatOutcome>,
    command: Seq<u8>,
)
    ensures
        after_request_vote(v, vote).term >= v.term,
        after_append_entries(v, append).term >= v.term,
        election_in_range(v) ==> after_standing(v).term == v.term + 1,
        after_election(v, term, votes).term == v.term,
        after_heartbeat_replies(v, outcomes).term >= v.term,
        after_start(v, command).term == v.term,
{
    lemma_highest_at_least(v.term, outcomes);
}

// ----------------------------------------------------------------------------
// Elections
// ----------------------------------------------------------------------------

/// Leadership is only taken in the term stood for: a peer that counts an
/// election and comes out leading was a candidate, still in that term, and
/// won a majority; a peer that is no longer a candidate, or has moved to
/// another term, takes nothing from it.
pub proof fn lemma_leadership_only_in_term_stood_for(v: RaftView, term: u64, votes: Seq<u32>)
    ensures
        after_election(v, term, votes).is_leader && !v.is_leader ==> v.candidate && v.term == term
            && wins_election(v.n_peers, votes),
        !v.candidate || v.term != term ==> after_election(v, term, votes) == v,
        takes_leadership(v, term, votes) ==> after_election(v, term, votes).term == term,
{
}

/// A candidate that learns of a newer term, or hears a leader of its own
/// term, is no longer a candidate, so the election it stood in can no
/// longer make it lead.
pub proof fn lemma_candidacy_ends_with_a_leader_or_newer_term(
    v: RaftView,
    vote: RequestVoteArgs,
    append: AppendEntriesArgs,
    term: u64,
    votes: Seq<u32>,
)
    ensures
        vote.current_term > v.term ==> !takes_leadership(after_request_vote(v, vote), term, votes),
        accepts_leader(v, append) ==> !takes_leadership(after_append_entries(v, append), term, votes),
{
}

/// The peers of a cluster that recorded, in term `term`, a vote for
/// `candidate`: each peer's `voted_for` is the one candidate it backs in its
/// current term (its own index when it stood itself), as
/// [`lemma_vote_recorded`], [`lemma_no_vote_in_own_election_term`] and
/// [`lemma_vote_kept_in_term`] show.
pub open spec fn backers(peers: Seq<RaftView>, term: u64, candidate: u32) -> Set<int> {
    Set::new(|p: int| 0 <= p < peers.len() && peers[p].term == term && peers[p].voted_for == Some(candidate))
}

/// More than half of the cluster's peers recorded a vote for `candidate` in `term`.
pub open spec fn backed_by_majority(peers: Seq<RaftView>, term: u64, candidate: u32) -> bool {
    backers(peers, term, candidate).len() > peers.len() / 2
}

/// Election safety: in any one term, at most one candidate is backed by a
/// majority of the peers' recorded votes, since two majorities of the same
/// peers share a peer, and a peer records one vote per term.
pub proof fn lemma_at_most_one_leader_per_term(
    peers: Seq<RaftView>,
    term: u64,
    first: u32,
    second: u32,
)
    requires
        backed_by_majority(peers, term, first),
        backed_by_majority(peers, term, second),
    ensures
        first == second,
{
    if first != second {
        let n = peers.len() as int;
        let b1 = backers(peers, term, first);
        let b2 = backers(peers, term, second);
        let all = set_int_range(0, n);
        lemma_int_range(0, n);
        lemma_len_subset(b1, all);
        lemma_len_subset(b2, all);
        assert(b1.disjoint(b2));
        lemma_set_disjoint_lens(b1, b2);
        assert((b1 + b2).subset_of(all));
        lemma_len_subset(b1 + b2, all);
    }
}

// ----------------------------------------------------------------------------
// The log
// ----------------------------------------------------------------------------

/// The entries that agree with the log, and where agreement stops.
proof fn lemma_agree_len(log: Seq<(u64, Seq<u8>)>, start: int, entries: Seq<(u64, Seq<u8>)>, k: nat)
    requires
        k <= entries.len(),
    ensures
        k <= agree_len(log, start, entries, k) <= entries.len(),
        start + k <= log.len() ==> start + agree_len(log, start, entries, k) <= log.len(),
        forall|j: int|
            #![trigger entries[j]]
            k <= j < agree_len(log, start, entries, k) ==> start + j < log.len() && log[start + j].0
                == entries[j].0,
        agree_len(log, start, entries, k) < entries.len() ==> start + agree_len(log, start, entries, k)
            >= log.len() || log[start + agree_len(log, start, entries, k)].0 != entries[agree_len(
            log,
            start,
            entries,
            k,
        ) as int].0,
    decreases entries.len() - k,
{
    if !(k >= entries.len() || start + k >= log.len() || log[start + k].0 != entries[k as int].0) {
        lemma_agree_len(log, start, entries, k + 1);
        assert forall|j: int|
            #![trigger entries[j]]
            k <= j < agree_len(log, start, entries, k) implies start + j < log.len() && log[start + j].0
                == entries[j].0 by {
            if j == k {
            } else {
                assert(k + 1 <= j);
            }
        }
    }
}

/// A peer's log is never empty and starts with the sentinel entry: every
/// decision keeps it.
pub proof fn lemma_log_never_empty(
    v: RaftView,
    vote: RequestVoteArgs,
    append: AppendEntriesArgs,
    term: u64,
    votes: Seq<u32>,
    outcomes: Seq<HeartbeatOutcome>,
    command: Seq<u8>,
)
    requires
        log_wf(v),
    ensures
        log_wf(after_request_vote(v, vote)),
        log_wf(after_append_entries(v, append)),
        log_wf(after_standing(v)),
        log_wf(after_election(v, term, votes)),
        log_wf(after_heartbeat_replies(v, outcomes)),
        log_wf(after_start(v, command)),
{
    if accepts_leader(v, append) && log_matches(v, append) {
        let e = stored_entries(append.entries@);
        let start = append.prev_index + 1;
        lemma_agree_len(v.log, start, e, 0);
        let k = agree_len(v.log, start, e, 0);
        let m = merge_entries(v.log, start, e);
        if k < e.len() {
            assert(m == v.log.take(start + k) + e.skip(k as int));
            assert(m[0] == v.log.take(start + k)[0]);
        }
    }
}

/// A peer that voted for a candidate follows it: the candidate's heartbeats
/// in the term it was elected in are accepted, and make the peer a follower
/// that has not changed its log.
pub proof fn lemma_voter_follows_candidate(
    v: RaftView,
    vote: RequestVoteArgs,
    heartbeat: AppendEntriesArgs,
)
    requires
        log_wf(v),
        grants_vote(v, vote),
        heartbeat.term == vote.current_term,
        heartbeat.prev_index == 0,
        heartbeat.prev_term == 0,
        heartbeat.entries.len() == 0,
    ensures
        accepts_leader(after_request_vote(v, vote), heartbeat),
        append_entries_reply(after_request_vote(v, vote), heartbeat) == (AppendEntriesReply {
            success: true,
            term: vote.current_term,
        }),
        after_append_entries(after_request_vote(v, vote), heartbeat).log == v.log,
        !after_append_entries(after_request_vote(v, vote), heartbeat).is_leader,
{
    let w = after_request_vote(v, vote);
    lemma_agree_len(w.log, 1, stored_entries(heartbeat.entries@), 0);
}

/// What a leader appends as it starts agreement on a command is the last
/// entry of its log, at the index it returns, in its current term.
pub proof fn lemma_start_appends_at_returned_index(v: RaftView, command: Seq<u8>)
    ensures
        after_start(v, command).log.len() == v.log.len() + 1,
        after_start(v, command).log[v.log.len() as int] == (v.term, command),
        after_start(v, command).log.take(v.log.len() as int) == v.log,
{
    assert(after_start(v, command).log.take(v.log.len() as int) =~= v.log);
}

/// A follower that holds the entry at `index` in the leader's term takes the
/// leader's replication request after `index`: it keeps its log up to
/// `index`, and every position the request covers then holds an entry of
/// the leader's term; from the first position where the follower's log
/// conflicted or ended, it holds the leader's entries byte for byte.
pub proof fn lemma_replication_installs_leader_entries(
    leader: RaftView,
    index: int,
    request: AppendEntriesArgs,
    follower: RaftView,
)
    requires
        0 <= index < leader.log.len(),
        request.term == leader.term,
        request.prev_index == index,
        request.prev_term == leader.log[index].0,
        request.entries@.len() == leader.log.len() - index - 1,
        forall|i: int|
            0 <= i < request.entries@.len() ==> carries(#[trigger] request.entries@[i], leader.log[index + 1 + i]),
        leader.term >= follower.term,
        index < follower.log.len(),
        follower.log[index].0 == leader.log[index].0,
    ensures
        append_entries_reply(follower, request).success,
        after_append_entries(follower, request).log.take(index + 1) == follower.log.take(index + 1),
        after_append_entries(follower, request).log.len() >= leader.log.len(),
        forall|i: int|
            index < i < leader.log.len() ==> #[trigger] after_append_entries(follower, request).log[i].0
                == leader.log[i].0,
        ({
            let k = agree_len(follower.log, index + 1, leader.log.skip(index + 1), 0);
            forall|i: int|
                index + 1 + k <= i < leader.log.len() ==> #[trigger] after_append_entries(
                    follower,
                    request,
                ).log[i] == leader.log[i]
        }),
{
    let e = leader.log.skip(index + 1);
    assert forall|i: int| 0 <= i < request.entries@.len() implies carries(
        #[trigger] request.entries@[i],
        e[i],
    ) by {
        assert(e[i] == leader.log[index + 1 + i]);
    }
    lemma_wire_round_trip_all(request.entries@, e);
    lemma_agree_len(follower.log, index + 1, e, 0);
    let k = agree_len(follower.log, index + 1, e, 0);
    let after = after_append_entries(follower, request).log;
    assert(stored_entries(request.entries@) == e);
    assert(after == merge_entries(follower.log, index + 1, e));
    assert forall|i: int| index < i < leader.log.len() implies #[trigger] after[i].0 == leader.log[i].0 by {
        let j = i - index - 1;
        assert(e[j] == leader.log[i]);
        if j < k {
            assert(follower.log[index + 1 + j].0 == e[j].0);
            if k < e.len() {
                assert(after[i] == follower.log.take(index + 1 + k)[i]);
            }
        } else {
            assert(after[i] == e.skip(k as int)[j - k]);
        }
    }
    if k < e.len() {
        assert(after.take(index + 1) =~= follower.log.take(index + 1));
        assert forall|i: int| index + 1 + k <= i < leader.log.len() implies #[trigger] after[i] == leader.log[i] by {
            assert(after[i] == e.skip(k as int)[i - index - 1 - k]);
        }
    }
}

/// A follower whose log is a prefix of the leader's, reaching at least
/// `index`, ends with exactly the leader's log once it takes the leader's
/// replication request after `index`: every command then stands at the
/// index the leader returned when it started agreement on it.
pub proof fn lemma_replication_copies_leader_log(
    leader: RaftView,
    index: int,
    request: AppendEntriesArgs,
    follower: RaftView,
)
    requires
        0 <= index < leader.log.len(),
        request.term == leader.term,
        request.prev_index == index,
        request.prev_term == leader.log[index].0,
        request.entries@.len() == leader.log.len() - index - 1,
        forall|i: int|
            0 <= i < request.entries@.len() ==> carries(#[trigger] request.entries@[i], leader.log[index + 1 + i]),
        leader.term >= follower.term,
        index < follower.log.len() <= leader.log.len(),
        follower.log == leader.log.take(follower.log.len() as int),
    ensures
        append_entries_reply(follower, request).success,
        after_append_entries(follower, request).log == leader.log,
{
    let e = leader.log.skip(index + 1);
    assert(follower.log[index] == leader.log[index]);
    lemma_replication_installs_leader_entries(leader, index, request, follower);
    lemma_agree_len(follower.log, index + 1, e, 0);
    lemma_agree_stops_at_end(follower.log, leader.log, index + 1, e);
    let k = agree_len(follower.log, index + 1, e, 0);
    let after = after_append_entries(follower, request).log;
    assert(stored_entries(request.entries@) == e) by {
        lemma_wire_round_trip_all(request.entries@, e);
    }
    assert(after == merge_entries(follower.log, index + 1, e));
    if k == e.len() {
        assert(follower.log.len() == leader.log.len());
        assert(after =~= leader.log);
    } else {
        assert(after == follower.log.take(index + 1 + k) + e.skip(k as int));
        assert(after =~= leader.log);
    }
}

/// Against a prefix of the leader's log, agreement stops exactly at the end
/// of that prefix.
proof fn lemma_agree_stops_at_end(
    prefix: Seq<(u64, Seq<u8>)>,
    log: Seq<(u64, Seq<u8>)>,
    start: int,
    entries: Seq<(u64, Seq<u8>)>,
)
    requires
        1 <= start <= prefix.len() <= log.len(),
        prefix == log.take(prefix.len() as int),
        entries == log.skip(start),
    ensures
        agree_len(prefix, start, entries, 0) == prefix.len() - start,
{
    lemma_agree_from(prefix, log, start, entries, 0);
}

proof fn lemma_agree_from(
    prefix: Seq<(u64, Seq<u8>)>,
    log: Seq<(u64, Seq<u8>)>,
    start: int,
    entries: Seq<(u64, Seq<u8>)>,
    k: nat,
)
    requires
        1 <= start <= prefix.len() <= log.len(),
        prefix == log.take(prefix.len() as int),
        entries == log.skip(start),
        k <= prefix.len() - start,
    ensures
        agree_len(prefix, start, entries, k) == prefix.len() - start,
    decreases prefix.len() - start - k,
{
    if k < prefix.len() - start {
        assert(prefix[start + k] == log[start + k]);
        assert(entries[k as int] == log[start + k]);
        lemma_agree_from(prefix, log, start, entries, k + 1);
    }
}

// ----------------------------------------------------------------------------
// Heartbeats
// ----------------------------------------------------------------------------

proof fn lemma_no_failures(outcomes: Seq<HeartbeatOutcome>)
    requires
        forall|i: int| 0 <= i < outcomes.len() ==> (#[trigger] outcomes[i] matches HeartbeatOutcome::Answered(_)),
    ensures
        failures(outcomes) == 0,
    decreases outcomes.len(),
{
    if outcomes.len() > 0 {
        lemma_no_failures(outcomes.drop_last());
        assert(outcomes.last() == outcomes[outcomes.len() - 1]);
    }
}

proof fn lemma_term_kept(term: u64, outcomes: Seq<HeartbeatOutcome>)
    requires
        forall|i: int|
            0 <= i < outcomes.len() ==> !(#[trigger] outcomes[i] matches HeartbeatOutcome::Answered(r)
                && r.term > term),
    ensures
        highest_answered_term(term, outcomes) == term,
    decreases outcomes.len(),
{
    if outcomes.len() > 0 {
        assert(outcomes.last() == outcomes[outcomes.len() - 1]);
        lemma_term_kept(term, outcomes.drop_last());
    }
}

/// A round of heartbeats in which every follower answered in the leader's
/// term or an older one leaves the leader leading in its term.
pub proof fn lemma_answered_heartbeats_keep_leadership(v: RaftView, outcomes: Seq<HeartbeatOutcome>)
    requires
        outcomes.len() > 0,
        forall|i: int|
            0 <= i < outcomes.len() ==> (#[trigger] outcomes[i] matches HeartbeatOutcome::Answered(r)
                && r.term <= v.term),
    ensures
        after_heartbeat_replies(v, outcomes) == v,
{
    lemma_no_failures(outcomes);
    lemma_term_kept(v.term, outcomes);
}

proof fn lemma_all_failed(outcomes: Seq<HeartbeatOutcome>)
    requires
        forall|i: int| 0 <= i < outcomes.len() ==> (#[trigger] outcomes[i] is Failed),
    ensures
        failures(outcomes) == outcomes.len(),
    decreases outcomes.len(),
{
    if outcomes.len() > 0 {
        lemma_all_failed(outcomes.drop_last());
        assert(outcomes.last() == outcomes[outcomes.len() - 1]);
    }
}

/// A leader whose heartbeats all failed as RPCs, or that has no follower to
/// send them to, steps down and stays in its term.
pub proof fn lemma_unreachable_leader_steps_down(v: RaftView, outcomes: Seq<HeartbeatOutcome>)
    requires
        forall|i: int| 0 <= i < outcomes.len() ==> (#[trigger] outcomes[i] is Failed),
    ensures
        !after_heartbeat_replies(v, outcomes).is_leader,
        after_heartbeat_replies(v, outcomes).term == v.term,
{
    lemma_all_failed(outcomes);
    assert forall|i: int| 0 <= i < outcomes.len() implies !(#[trigger] outcomes[i] matches HeartbeatOutcome::Answered(
        r,
    ) && r.term > v.term) by {
        assert(outcomes[i] is Failed);
    }
    lemma_term_kept(v.term, outcomes);
}

// ----------------------------------------------------------------------------
// Persistence
// ----------------------------------------------------------------------------

/// A peer restarted from what another peer persisted starts in that peer's
/// term, with its vote and its log.
pub proof fn lemma_restart_restores_persisted_state(r: Raft)
    requires
        log_wf(r@),
    ensures
        restorable(state_bytes(r@.term, r@.voted_for, r@.log)),
        state_bytes(r@.term, r@.voted_for, r@.log).len() != 0,
        decode_state(state_bytes(r@.term, r@.voted_for, r@.log)) == Some((r@.term, r@.voted_for, r@.log)),
{
    r.lemma_lengths_fit();
    lemma_state_round_trip(r@.term, r@.voted_for, r@.log);
}

// ----------------------------------------------------------------------------
// What each decision is for
// ----------------------------------------------------------------------------

/// Votes are summed: no votes sum to 0, and one more vote adds its value.
pub proof fn lemma_vote_sum_adds(votes: Seq<u32>, vote: u32)
    ensures
        vote_sum(Seq::<u32>::empty()) == 0,
        vote_sum(votes.push(vote)) == vote_sum(votes) + vote,
{
    assert(votes.push(vote).drop_last() =~= votes);
}

/// Leadership takes a majority of all the peers, not of those that
/// answered: a peer comes out of counting an election leading exactly when
/// it led already, or it is still a candidate in the term it stood for and
/// its own vote plus the granted votes are more than half of `n_peers`.
pub proof fn lemma_leadership_needs_majority_of_all_peers(v: RaftView, term: u64, votes: Seq<u32>)
    ensures
        after_election(v, term, votes).is_leader <==> v.is_leader || (v.candidate && v.term == term
            && 2 * (1 + vote_sum(votes)) > v.n_peers),
        after_election(v, term, votes).term == v.term,
        after_election(v, term, votes).log == v.log,
        after_election(v, term, votes).voted_for == v.voted_for,
{
}

/// Which vote requests a peer grants: the candidate's term is not older than
/// the peer's; in the peer's own term, the peer has voted for no one or for
/// this candidate; and the candidate's last entry is at least as recent as
/// the peer's last entry: a newer last term (narrowed to 32 bits) whatever
/// its index, or the same last term and a last index at least the peer's.
pub proof fn lemma_vote_granted_exactly_when(v: RaftView, a: RequestVoteArgs)
    requires
        log_wf(v),
    ensures
        grants_vote(v, a) <==> {
            let last = v.log[v.log.len() - 1].0 as u32;
            &&& a.current_term >= v.term
            &&& (a.current_term > v.term || v.voted_for is None || v.voted_for == Some(a.requesting_peer))
            &&& (a.current_entry_hash > last || (a.current_entry_hash == last
                && a.current_index as int >= (v.log.len() as u32) as int - 1))
        },
        grants_vote(v, a) ==> after_request_vote(v, a).voted_for == Some(a.requesting_peer),
        !grants_vote(v, a) && a.current_term <= v.term ==> after_request_vote(v, a) == v,
{
}

/// Which AppendEntries requests a peer takes: exactly those whose term is not
/// older than the peer's and whose previous entry is in the peer's log at
/// the previous index, with the previous term. A request refused for its
/// previous entry leaves the log as it was.
pub proof fn lemma_append_taken_exactly_when(v: RaftView, a: AppendEntriesArgs)
    ensures
        append_entries_reply(v, a).success <==> a.term >= v.term && (a.prev_index as int) < v.log.len()
            && v.log[a.prev_index as int].0 == a.prev_term,
        !append_entries_reply(v, a).success ==> after_append_entries(v, a).log == v.log,
        (a.prev_index as int) < v.log.len() && v.log[a.prev_index as int].0 != a.prev_term
            ==> !append_entries_reply(v, a).success && after_append_entries(v, a).log == v.log,
        append_entries_reply(v, a).success ==> after_append_entries(v, a).log.take(a.prev_index + 1)
            == v.log.take(a.prev_index + 1),
{
    if append_entries_reply(v, a).success {
        let e = stored_entries(a.entries@);
        let start = a.prev_index + 1;
        lemma_agree_len(v.log, start, e, 0);
        let k = agree_len(v.log, start, e, 0);
        if k < e.len() {
            assert(after_append_entries(v, a).log.take(start) =~= v.log.take(start));
        }
    }
}

/// The vote request a peer sends when it stands for election names the
/// next term, the peer itself, and its last entry as it stands: the term of
/// its last log entry (narrowed to 32 bits), whatever its current term, and
/// the index of that entry.
pub proof fn lemma_election_request_describes_last_entry(v: RaftView)
    requires
        log_wf(v),
        election_in_range(v),
    ensures
        election_request(v).current_term == v.term + 1,
        election_request(v).current_entry_hash == v.log[v.log.len() - 1].0 as u32,
        election_request(v).requesting_peer == v.me as u32,
        v.log.len() <= u32::MAX ==> election_request(v).current_index == v.log.len() - 1,
{
}

/// Standing for election and then counting it: the peer is a candidate in
/// the term its vote request names, having voted for itself, with its log
/// unchanged; it comes out leading in that term exactly when its own vote
/// plus the granted votes are more than half of all the peers.
pub proof fn lemma_stand_then_count(v: RaftView, votes: Seq<u32>)
    requires
        election_in_range(v),
    ensures
        after_standing(v).term == election_request(v).current_term,
        after_standing(v).term == v.term + 1,
        after_standing(v).voted_for == Some(v.me as u32),
        after_standing(v).candidate,
        !after_standing(v).is_leader,
        after_standing(v).log == v.log,
        after_election(after_standing(v), election_request(v).current_term, votes).is_leader
            <==> 2 * (1 + vote_sum(votes)) > v.n_peers,
        after_election(after_standing(v), election_request(v).current_term, votes).term == v.term + 1,
{
}

/// The highest answered term is at least every answered term and the term it
/// starts from, and is one of them.
proof fn lemma_highest_answered(term: u64, outs: Seq<HeartbeatOutcome>)
    ensures
        highest_answered_term(term, outs) >= term,
        forall|i: int|
            0 <= i < outs.len() ==> (#[trigger] outs[i] matches HeartbeatOutcome::Answered(r) ==> highest_answered_term(
                term,
                outs,
            ) >= r.term),
        highest_answered_term(term, outs) == term || exists|i: int|
            0 <= i < outs.len() && (#[trigger] outs[i] matches HeartbeatOutcome::Answered(r) && r.term
                == highest_answered_term(term, outs)),
    decreases outs.len(),
{
    if outs.len() > 0 {
        let init = outs.drop_last();
        lemma_highest_answered(term, init);
        assert forall|i: int|
            0 <= i < outs.len() implies (#[trigger] outs[i] matches HeartbeatOutcome::Answered(r) ==> highest_answered_term(
            term,
            outs,
        ) >= r.term) by {
            if i < outs.len() - 1 {
                assert(outs[i] == init[i]);
            }
        }
        let h = highest_answered_term(term, outs);
        if h != term && h != highest_answered_term(term, init) {
            assert(outs[outs.len() - 1] matches HeartbeatOutcome::Answered(r) && r.term == h);
        } else if h != term {
            let i = choose|i: int|
                0 <= i < init.len() && (#[trigger] init[i] matches HeartbeatOutcome::Answered(r) && r.term
                    == highest_answered_term(term, init));
            assert(outs[i] == init[i]);
        }
    }
}

/// After a round of heartbeats a leader's term is the highest of its own
/// term and every term answered: at least each of them, and one of them.
/// It keeps leading only if no answer carried a newer term and not every
/// heartbeat failed.
pub proof fn lemma_heartbeats_take_highest_answered_term(v: RaftView, outs: Seq<HeartbeatOutcome>)
    ensures
        after_heartbeat_replies(v, outs).term >= v.term,
        forall|i: int|
            0 <= i < outs.len() ==> (#[trigger] outs[i] matches HeartbeatOutcome::Answered(r) ==> after_heartbeat_replies(
                v,
                outs,
            ).term >= r.term),
        after_heartbeat_replies(v, outs).term == v.term || exists|i: int|
            0 <= i < outs.len() && (#[trigger] outs[i] matches HeartbeatOutcome::Answered(r) && r.term
                == after_heartbeat_replies(v, outs).term),
        after_heartbeat_replies(v, outs).is_leader <==> v.is_leader && (forall|i: int|
            0 <= i < outs.len() ==> (#[trigger] outs[i] matches HeartbeatOutcome::Answered(r) ==> r.term
                <= v.term)) && (exists|i: int| 0 <= i < outs.len() && !(#[trigger] outs[i] is Failed)),
        after_heartbeat_replies(v, outs).log == v.log,
{
    lemma_highest_answered(v.term, outs);
    lemma_failures_all(outs);
    if highest_answered_term(v.term, outs) > v.term {
        let i = choose|i: int|
            0 <= i < outs.len() && (#[trigger] outs[i] matches HeartbeatOutcome::Answered(r) && r.term
                == highest_answered_term(v.term, outs));
        assert(outs[i] matches HeartbeatOutcome::Answered(r) && r.term > v.term);
    }
}

/// Every heartbeat failed exactly when the failures count all of them.
proof fn lemma_failures_all(outs: Seq<HeartbeatOutcome>)
    ensures
        failures(outs) <= outs.len(),
        failures(outs) == outs.len() <==> forall|i: int| 0 <= i < outs.len() ==> (#[trigger] outs[i] is Failed),
    decreases outs.len(),
{
    if outs.len() > 0 {
        let init = outs.drop_last();
        lemma_failures_all(init);
        if failures(outs) == outs.len() {
            assert forall|i: int| 0 <= i < outs.len() implies (#[trigger] outs[i] is Failed) by {
                if i < outs.len() - 1 {
                    assert(outs[i] == init[i]);
                }
            }
        } else {
            if forall|i: int| 0 <= i < outs.len() ==> (#[trigger] outs[i] is Failed) {
                assert forall|i: int| 0 <= i < init.len() implies (#[trigger] init[i] is Failed) by {
                    assert(outs[i] == init[i]);
                }
                assert(outs[outs.len() - 1] is Failed);
            }
        }
    }
}

/// How a taken AppendEntries request changes the log: entries up to the
/// previous one stay; every received position holds an entry of the term
/// the leader sent for it; and the log is cut only where an entry of it
/// conflicts in term with a received one: without a conflict, every entry
/// of the log stays where it was.
pub proof fn lemma_taken_entries_merge_into_log(v: RaftView, a: AppendEntriesArgs)
    requires
        append_entries_reply(v, a).success,
    ensures
        ({
            let after = after_append_entries(v, a).log;
            let start = a.prev_index + 1;
            &&& after.len() >= start + a.entries@.len()
            &&& forall|i: int| 0 <= i < start ==> #[trigger] after[i] == v.log[i]
            &&& forall|j: int| 0 <= j < a.entries@.len() ==> #[trigger] after[start + j].0 == a.entries@[j].term
            &&& (forall|j: int|
                0 <= j < a.entries@.len() && start + j < v.log.len() ==> #[trigger] v.log[start + j].0
                    == a.entries@[j].term) ==> after.len() >= v.log.len() && forall|i: int|
                0 <= i < v.log.len() ==> #[trigger] after[i] == v.log[i]
        }),
{
    let e = stored_entries(a.entries@);
    let start = a.prev_index + 1;
    lemma_agree_len(v.log, start, e, 0);
    let k = agree_len(v.log, start, e, 0);
    let after = after_append_entries(v, a).log;
    assert(after == merge_entries(v.log, start, e));
    assert forall|j: int| 0 <= j < a.entries@.len() implies #[trigger] after[start + j].0 == a.entries@[j].term by {
        assert(e[j].0 == a.entries@[j].term);
        if k < e.len() && j >= k {
            assert(after[start + j] == e.skip(k as int)[j - k]);
        }
    }
    if forall|j: int|
        0 <= j < a.entries@.len() && start + j < v.log.len() ==> #[trigger] v.log[start + j].0
            == a.entries@[j].term {
        if k < e.len() {
            assert(e[k as int].0 == a.entries@[k as int].term);
            assert(start + k >= v.log.len());
        }
    }
}



} // verus!
