use raft::messages::{
    narrow_command, widen_command, AppendEntriesArgs, AppendEntriesReply, CommandEntry,
    HeartbeatOutcome, RequestVoteArgs,
};
use raft::node::{next_replication_step, replication_prev_index, Node, ReplicationStep};
use raft::peer::{Error, Raft};
use raft::state::State;
use raft::timing::{election_timeout_ms, ELECTION_TIMEOUT_MAX_MS, ELECTION_TIMEOUT_MIN_MS};

/// Reads the whole log of a peer as `(term, bytes)` pairs.
fn log_of(raft: &Raft) -> Vec<(u64, Vec<u8>)> {
    let n = raft.last_log_index() as usize + 1;
    raft.create_entries(n)
        .into_iter()
        .map(|e| (e.term, e.command.iter().map(|&w| w as u8).collect()))
        .collect()
}

/// A peer of `n` that has won an election in term 1.
fn leader(n: usize, me: usize) -> Raft {
    let mut rf = Raft::new(n, me, &[]);
    let args = rf.stand_for_election();
    assert_eq!(args.current_term, 1);
    let votes = vec![1u32; n / 2];
    assert!(rf.conclude_election(args.current_term, &votes));
    rf
}

fn entry(term: u64, bytes: &[u8]) -> CommandEntry {
    CommandEntry { term, command: bytes.iter().map(|&b| b as u32).collect() }
}

#[test]
fn new_peer_starts_as_follower_with_sentinel_entry() {
    assert!(!Raft::is_restorable(&[1, 2, 3]));
    assert!(Raft::is_restorable(&[]));
    let rf = Raft::new(3, 1, &[]);
    assert_eq!(rf.term(), 0);
    assert!(!rf.is_leader());
    assert_eq!(rf.last_log_index(), 0);
    assert_eq!(log_of(&rf), vec![(0, vec![])]);
    let s = rf.state();
    assert_eq!(s.term(), 0);
    assert!(!s.is_leader());
}

#[test]
fn state_getters_read_fields() {
    let s = State { term: 7, is_leader: true };
    assert_eq!(s.term(), 7);
    assert!(s.is_leader());
    let d = State::default();
    assert_eq!(d.term(), 0);
    assert!(!d.is_leader());
}

#[test]
fn follower_refuses_to_start_agreement() {
    let mut rf = Raft::new(3, 0, &[]);
    assert!(matches!(rf.start(vec![1, 2]), Err(Error::NotLeader)));
    assert_eq!(log_of(&rf), vec![(0, vec![])]);
}

#[test]
fn leader_appends_at_returned_index_in_its_term() {
    let mut rf = leader(3, 0);
    assert!(rf.is_leader());
    assert_eq!(rf.start(vec![7, 8]).unwrap(), (1, 1));
    assert_eq!(rf.start(vec![9]).unwrap(), (2, 1));
    assert_eq!(log_of(&rf), vec![(0, vec![]), (1, vec![7, 8]), (1, vec![9])]);
    let last = rf.create_entries(1);
    assert_eq!(last[0].term, 1);
    assert_eq!(last[0].command, vec![9u32]);
}

#[test]
fn standing_for_election_builds_vote_request() {
    let mut rf = Raft::new(5, 3, &[]);
    let args = rf.stand_for_election();
    assert_eq!(args.current_term, 1);
    assert_eq!(args.current_index, 0);
    assert_eq!(args.current_entry_hash, 0);
    assert_eq!(args.requesting_peer, 3);
    assert_eq!(rf.term(), 1);
    assert!(!rf.is_leader());
}

#[test]
fn election_needs_strict_majority() {
    // Five peers: own vote plus two others makes three, more than two.
    let mut rf = Raft::new(5, 0, &[]);
    let t = rf.stand_for_election().current_term;
    assert!(!rf.conclude_election(t, &vec![1, 0, 0, 0]));
    assert!(!rf.is_leader());
    assert!(rf.is_candidate());
    assert!(rf.conclude_election(t, &vec![1, 0, 1, 0]));
    assert!(rf.is_leader());
    assert!(!rf.is_candidate());
    // Four peers: own vote plus one other is two, not more than two.
    let mut rf = Raft::new(4, 0, &[]);
    let t = rf.stand_for_election().current_term;
    assert!(!rf.conclude_election(t, &vec![1, 0, 0]));
    assert!(rf.conclude_election(t, &vec![1, 1, 0]));
}

#[test]
fn one_vote_per_term() {
    let mut rf = Raft::new(3, 1, &[]);
    let first = RequestVoteArgs { current_term: 4, current_index: 0, current_entry_hash: 0, requesting_peer: 0 };
    assert_eq!(rf.request_vote(&first).vote_value, 1);
    assert_eq!(rf.term(), 4);
    let second = RequestVoteArgs { current_term: 4, current_index: 9, current_entry_hash: 9, requesting_peer: 2 };
    assert_eq!(rf.request_vote(&second).vote_value, 0);
    assert_eq!(rf.term(), 4);
    let later = RequestVoteArgs { current_term: 5, ..second };
    assert_eq!(rf.request_vote(&later).vote_value, 1);
    assert_eq!(rf.term(), 5);
}

#[test]
fn vote_refused_to_candidate_with_older_log() {
    let mut rf = Raft::new(3, 1, &[]);
    let hb = AppendEntriesArgs { term: 2, prev_index: 0, prev_term: 0, entries: vec![entry(2, &[1]), entry(2, &[2])] };
    assert!(rf.append_entries(hb).success);
    assert_eq!(rf.last_log_index(), 2);
    // older last term
    let older = RequestVoteArgs { current_term: 3, current_index: 5, current_entry_hash: 1, requesting_peer: 0 };
    assert_eq!(rf.request_vote(&older).vote_value, 0);
    // the newer term is taken even though the vote is refused
    assert_eq!(rf.term(), 3);
    assert_eq!(rf.voted_for(), None);
    // same last term, shorter log
    let shorter = RequestVoteArgs { current_term: 3, current_index: 1, current_entry_hash: 2, requesting_peer: 0 };
    assert_eq!(rf.request_vote(&shorter).vote_value, 0);
    // same last term, as long a log
    let equal = RequestVoteArgs { current_term: 3, current_index: 2, current_entry_hash: 2, requesting_peer: 0 };
    assert_eq!(rf.request_vote(&equal).vote_value, 1);
    assert_eq!(rf.term(), 3);
    assert_eq!(rf.voted_for(), Some(0));
}

#[test]
fn stale_requests_change_nothing() {
    let mut rf = Raft::new(3, 1, &[]);
    let vote = RequestVoteArgs { current_term: 6, current_index: 0, current_entry_hash: 0, requesting_peer: 0 };
    assert_eq!(rf.request_vote(&vote).vote_value, 1);
    let other = RequestVoteArgs { requesting_peer: 2, ..vote };
    assert_eq!(rf.request_vote(&other).vote_value, 0);
    let stale_vote = RequestVoteArgs { current_term: 5, ..other };
    assert_eq!(rf.request_vote(&stale_vote).vote_value, 0);
    assert_eq!(rf.voted_for(), Some(0));
    let stale = AppendEntriesArgs { term: 5, prev_index: 0, prev_term: 0, entries: vec![entry(5, &[1])] };
    let reply = rf.append_entries(stale);
    assert!(!reply.success);
    assert_eq!(reply.term, 6);
    assert_eq!(rf.term(), 6);
    assert_eq!(log_of(&rf), vec![(0, vec![])]);
}

#[test]
fn heartbeat_makes_leader_a_follower_in_newer_term() {
    let mut rf = leader(3, 0);
    let hb = AppendEntriesArgs { term: 3, prev_index: 0, prev_term: 0, entries: vec![] };
    let reply = rf.append_entries(hb);
    assert!(reply.success);
    assert_eq!(reply.term, 3);
    assert_eq!(rf.term(), 3);
    assert!(!rf.is_leader());
    assert_eq!(log_of(&rf), vec![(0, vec![])]);
}

#[test]
fn mismatching_entries_are_refused_with_new_term() {
    let mut rf = Raft::new(3, 1, &[]);
    // previous index past the end of the log
    let past = AppendEntriesArgs { term: 2, prev_index: 1, prev_term: 0, entries: vec![entry(2, &[1])] };
    let reply = rf.append_entries(past);
    assert!(!reply.success);
    assert_eq!(reply.term, 2);
    assert_eq!(rf.term(), 2);
    // previous entry of another term
    let other_term = AppendEntriesArgs { term: 2, prev_index: 0, prev_term: 1, entries: vec![entry(2, &[1])] };
    assert!(!rf.append_entries(other_term).success);
    assert_eq!(log_of(&rf), vec![(0, vec![])]);
}

#[test]
fn matching_entries_replace_the_log_tail() {
    let mut rf = Raft::new(3, 1, &[]);
    let first = AppendEntriesArgs { term: 1, prev_index: 0, prev_term: 0, entries: vec![entry(1, &[1]), entry(1, &[2])] };
    assert!(rf.append_entries(first).success);
    assert_eq!(log_of(&rf), vec![(0, vec![]), (1, vec![1]), (1, vec![2])]);
    let second = AppendEntriesArgs { term: 2, prev_index: 1, prev_term: 1, entries: vec![entry(2, &[5, 6])] };
    let reply = second_reply(&mut rf, second);
    assert!(reply.success);
    assert_eq!(reply.term, 2);
    assert_eq!(log_of(&rf), vec![(0, vec![]), (1, vec![1]), (2, vec![5, 6])]);
}

fn second_reply(rf: &mut Raft, args: AppendEntriesArgs) -> AppendEntriesReply {
    rf.append_entries(args)
}

#[test]
fn previous_entry_is_matched_at_its_index() {
    let mut rf = Raft::new(1, 0, &[]);
    assert!(rf.append_entries(AppendEntriesArgs { term: 1, prev_index: 0, prev_term: 0, entries: vec![entry(1, &[5])] }).success);
    assert!(rf.append_entries(AppendEntriesArgs { term: 2, prev_index: 1, prev_term: 1, entries: vec![entry(2, &[6])] }).success);
    assert_eq!(log_of(&rf), vec![(0, vec![]), (1, vec![5]), (2, vec![6])]);
    let reply = rf.append_entries(AppendEntriesArgs { term: 3, prev_index: 1, prev_term: 1, entries: vec![entry(3, &[7])] });
    assert!(reply.success);
    assert_eq!(reply.term, 3);
    assert_eq!(log_of(&rf), vec![(0, vec![]), (1, vec![5]), (3, vec![7])]);
    assert_eq!(rf.term(), 3);
}

#[test]
fn agreeing_entries_do_not_cut_the_log() {
    let mut rf = Raft::new(3, 1, &[]);
    let first = AppendEntriesArgs { term: 1, prev_index: 0, prev_term: 0, entries: vec![entry(1, &[1]), entry(1, &[2])] };
    assert!(rf.append_entries(first).success);
    // a late copy of an earlier request carries only entries already there
    let late = AppendEntriesArgs { term: 1, prev_index: 0, prev_term: 0, entries: vec![entry(1, &[1])] };
    assert!(rf.append_entries(late).success);
    assert_eq!(log_of(&rf), vec![(0, vec![]), (1, vec![1]), (1, vec![2])]);
    // entries past the end are appended after the agreeing ones
    let more = AppendEntriesArgs { term: 1, prev_index: 1, prev_term: 1, entries: vec![entry(1, &[2]), entry(1, &[3])] };
    assert!(rf.append_entries(more).success);
    assert_eq!(log_of(&rf), vec![(0, vec![]), (1, vec![1]), (1, vec![2]), (1, vec![3])]);
}

#[test]
fn received_words_are_narrowed_to_bytes() {
    let mut rf = Raft::new(3, 1, &[]);
    let e = CommandEntry { term: 1, command: vec![0x1ff, 0x102, 3] };
    let args = AppendEntriesArgs { term: 1, prev_index: 0, prev_term: 0, entries: vec![e] };
    assert!(rf.append_entries(args).success);
    assert_eq!(log_of(&rf), vec![(0, vec![]), (1, vec![0xff, 0x02, 3])]);
}

#[test]
fn widen_and_narrow_commands() {
    assert_eq!(widen_command(&vec![0u8, 255, 7]), vec![0u32, 255, 7]);
    assert_eq!(narrow_command(&vec![256u32, 257, 65535]), vec![0u8, 1, 255]);
    assert_eq!(narrow_command(&widen_command(&vec![9u8, 200])), vec![9u8, 200]);
}

#[test]
fn replication_installs_leader_log() {
    let mut ld = leader(3, 0);
    ld.start(vec![10]).unwrap();
    ld.start(vec![20, 21]).unwrap();
    let req = ld.replication_request(0);
    assert_eq!(req.term, 1);
    assert_eq!(req.prev_index, 0);
    assert_eq!(req.prev_term, 0);
    assert_eq!(req.entries.len(), 2);
    let mut follower = Raft::new(3, 1, &[]);
    assert!(follower.append_entries(req).success);
    // the follower keeps its log up to index 0, then the leader's log after index 0
    assert_eq!(log_of(&follower), vec![(0, vec![]), (1, vec![10]), (1, vec![20, 21])]);
    assert_eq!(log_of(&follower), log_of(&ld));
    assert_eq!(follower.term(), 1);
}

#[test]
fn command_lands_at_returned_index() {
    let mut ld = leader(3, 0);
    let (index, _) = ld.start(vec![5]).unwrap();
    assert_eq!(index, 1);
    let mut follower = Raft::new(3, 1, &[]);
    // the first request carries the new entry after the one before it
    let req = ld.replication_request(index - 1);
    assert_eq!(req.entries.len(), 1);
    assert!(follower.append_entries(req).success);
    assert_eq!(log_of(&follower), vec![(0, vec![]), (1, vec![5])]);
    assert_eq!(follower.last_log_index(), index);
}

#[test]
fn replication_steps_back_until_taken() {
    let mut ld = leader(3, 0);
    ld.start(vec![1]).unwrap();
    let (index, _) = ld.start(vec![2]).unwrap();
    let mut follower = Raft::new(3, 1, &[]);
    let mut prev = index - 1;
    loop {
        let req = ld.replication_request(prev);
        let reply = follower.append_entries(req);
        match next_replication_step(prev, Some(reply)) {
            ReplicationStep::Done => break,
            ReplicationStep::Retry(p) => prev = p,
            ReplicationStep::GiveUp => panic!("gave up"),
        }
    }
    assert_eq!(prev, 0);
    assert_eq!(log_of(&follower), log_of(&ld));
}

#[test]
fn replication_request_from_last_entry() {
    let mut ld = leader(3, 0);
    ld.start(vec![4]).unwrap();
    let req = ld.replication_request(ld.last_log_index());
    assert_eq!(req.prev_index, 1);
    assert_eq!(req.prev_term, 1);
    assert!(req.entries.is_empty());
    let req = ld.replication_request(0);
    assert_eq!(req.entries.len(), 1);
    assert_eq!(req.entries[0].command, vec![4u32]);
}

#[test]
fn persisted_state_is_restored() {
    let mut ld = leader(3, 0);
    ld.start(vec![7, 8]).unwrap();
    ld.start(vec![]).unwrap();
    let bytes = ld.persist();
    assert!(Raft::is_restorable(&bytes));
    let restarted = Raft::new(3, 0, &bytes);
    assert_eq!(restarted.term(), 1);
    assert!(!restarted.is_leader());
    assert_eq!(log_of(&restarted), log_of(&ld));
}

#[test]
fn persisted_bytes_layout() {
    let rf = Raft::new(3, 0, &[]);
    let bytes = rf.persist();
    let mut expected = vec![0u8; 16];
    expected.extend_from_slice(&1u64.to_le_bytes());
    expected.extend_from_slice(&[0u8; 16]);
    assert_eq!(bytes, expected);
    // truncated or padded states are refused
    assert!(!Raft::is_restorable(&bytes[..bytes.len() - 1]));
    let mut padded = bytes.clone();
    padded.push(0);
    assert!(!Raft::is_restorable(&padded));
    // a state with no entries is refused
    assert!(!Raft::is_restorable(&[0u8; 24]));
    // a state whose first entry is not of term 0 is refused
    let mut bad_first = bytes.clone();
    bad_first[24] = 1;
    assert!(!Raft::is_restorable(&bad_first));
    // a vote that names no peer index is refused
    let mut bad_vote = bytes.clone();
    bad_vote[8..16].copy_from_slice(&u64::MAX.to_le_bytes());
    assert!(!Raft::is_restorable(&bad_vote));
}

#[test]
fn restored_follower_votes_from_its_term() {
    let mut rf = Raft::new(3, 1, &[]);
    let vote = RequestVoteArgs { current_term: 9, current_index: 0, current_entry_hash: 0, requesting_peer: 0 };
    assert_eq!(rf.request_vote(&vote).vote_value, 1);
    let mut restarted = Raft::new(3, 1, &rf.persist());
    assert_eq!(restarted.term(), 9);
    assert_eq!(restarted.voted_for(), Some(0));
    let other = RequestVoteArgs { requesting_peer: 2, ..vote };
    assert_eq!(restarted.request_vote(&other).vote_value, 0);
}

#[test]
fn heartbeat_args_carry_term_only() {
    let ld = leader(3, 0);
    let hb = ld.heartbeat_args();
    assert_eq!(hb.term, 1);
    assert_eq!(hb.prev_index, 0);
    assert_eq!(hb.prev_term, 0);
    assert!(hb.entries.is_empty());
}

#[test]
fn other_peers_skip_me() {
    assert_eq!(Raft::new(5, 2, &[]).other_peers(), vec![0, 1, 3, 4]);
    assert_eq!(Raft::new(1, 0, &[]).other_peers(), Vec::<usize>::new());
    assert_eq!(Raft::new(3, 7, &[]).other_peers(), vec![0, 1, 2]);
}

#[test]
fn newer_term_in_heartbeat_answers_makes_leader_follow() {
    let mut ld = leader(3, 0);
    let outcomes = vec![
        HeartbeatOutcome::Answered(AppendEntriesReply { success: false, term: 5 }),
        HeartbeatOutcome::Answered(AppendEntriesReply { success: true, term: 1 }),
        HeartbeatOutcome::Answered(AppendEntriesReply { success: false, term: 4 }),
    ];
    ld.process_heartbeat_replies(&outcomes);
    assert!(!ld.is_leader());
    assert_eq!(ld.term(), 5);
    assert_eq!(ld.voted_for(), None);
}

#[test]
fn older_terms_in_heartbeat_answers_never_lower_the_term() {
    let mut ld = leader(3, 0);
    ld.stand_for_election();
    ld.stand_for_election();
    let t = ld.stand_for_election().current_term;
    assert!(ld.conclude_election(t, &vec![1, 1]));
    assert_eq!(ld.term(), 4);
    let outcomes = vec![
        HeartbeatOutcome::Answered(AppendEntriesReply { success: false, term: 2 }),
        HeartbeatOutcome::Answered(AppendEntriesReply { success: true, term: 4 }),
    ];
    ld.process_heartbeat_replies(&outcomes);
    assert_eq!(ld.term(), 4);
    assert!(ld.is_leader());
}

#[test]
fn acknowledged_heartbeats_keep_leadership() {
    let mut ld = leader(3, 0);
    let outcomes = vec![
        HeartbeatOutcome::Answered(AppendEntriesReply { success: true, term: 0 }),
        HeartbeatOutcome::Failed,
        HeartbeatOutcome::Unanswered,
    ];
    ld.process_heartbeat_replies(&outcomes);
    assert!(ld.is_leader());
    assert_eq!(ld.term(), 1);
}

#[test]
fn unreachable_leader_steps_down() {
    let mut ld = leader(3, 0);
    ld.process_heartbeat_replies(&vec![HeartbeatOutcome::Failed, HeartbeatOutcome::Failed]);
    assert!(!ld.is_leader());
    assert_eq!(ld.term(), 1);
    let mut alone = leader(1, 0);
    assert!(alone.is_leader());
    alone.process_heartbeat_replies(&vec![]);
    assert!(!alone.is_leader());
}

#[test]
fn unanswered_heartbeats_are_no_failures() {
    let mut ld = leader(3, 0);
    ld.process_heartbeat_replies(&vec![HeartbeatOutcome::Unanswered, HeartbeatOutcome::Failed]);
    assert!(ld.is_leader());
}

#[test]
fn replication_steps() {
    assert!(matches!(
        next_replication_step(0, Some(AppendEntriesReply { success: false, term: 2 })),
        ReplicationStep::GiveUp
    ));
    assert!(matches!(next_replication_step(3, None), ReplicationStep::Retry(3)));
    assert!(matches!(
        next_replication_step(3, Some(AppendEntriesReply { success: false, term: 2 })),
        ReplicationStep::Retry(2)
    ));
    assert!(matches!(
        next_replication_step(3, Some(AppendEntriesReply { success: true, term: 0 })),
        ReplicationStep::Done
    ));
}

#[test]
fn election_timer_forgets_heard_leader_then_stands() {
    let mut node = Node::new(Raft::new(3, 2, &[]));
    let hb = AppendEntriesArgs { term: 1, prev_index: 0, prev_term: 0, entries: vec![] };
    assert!(node.append_entries(hb).success);
    assert!(node.election_tick().is_none());
    assert_eq!(node.term(), 1);
    let args = node.election_tick().expect("stands for election");
    assert_eq!(args.current_term, 2);
    assert_eq!(args.requesting_peer, 2);
    assert_eq!(node.term(), 2);
    assert!(node.conclude_election(args.current_term, &vec![1, 0]));
    assert!(node.is_leader());
    assert!(node.election_tick().is_none());
    assert_eq!(node.term(), 2);
}

#[test]
fn stale_heartbeat_is_not_heard() {
    let mut node = Node::new(Raft::new(3, 2, &[]));
    node.election_tick().unwrap();
    node.election_tick().unwrap();
    assert_eq!(node.term(), 2);
    let stale = AppendEntriesArgs { term: 1, prev_index: 0, prev_term: 0, entries: vec![] };
    assert!(!node.append_entries(stale).success);
    let args = node.election_tick().expect("no leader was heard");
    assert_eq!(args.current_term, 3);
}

#[test]
fn voter_follows_candidate() {
    let mut node = Node::new(Raft::new(3, 1, &[]));
    let vote = RequestVoteArgs { current_term: 1, current_index: 0, current_entry_hash: 0, requesting_peer: 0 };
    assert_eq!(node.request_vote(&vote).vote_value, 1);
    let hb = AppendEntriesArgs { term: 1, prev_index: 0, prev_term: 0, entries: vec![] };
    let reply = node.append_entries(hb);
    assert!(reply.success);
    assert_eq!(reply.term, 1);
    assert!(!node.is_leader());
    assert_eq!(node.term(), 1);
}

#[test]
fn node_start_and_state() {
    let mut node = Node::new(Raft::new(3, 0, &[]));
    assert!(matches!(node.start(vec![1]), Err(Error::NotLeader)));
    let args = node.election_tick().unwrap();
    node.conclude_election(args.current_term, &vec![1, 1]);
    assert_eq!(node.start(vec![1]).unwrap(), (1, 1));
    let s = node.get_state();
    assert_eq!(s.term(), 1);
    assert!(s.is_leader());
    assert_eq!(node.raft().last_log_index(), 1);
    assert!(!node.is_killed());
    node.kill();
    assert!(node.is_killed());
    assert!(node.is_leader());
}

#[test]
fn election_timeouts_are_random_within_bounds() {
    let draws: Vec<u64> = (0..200).map(|_| election_timeout_ms()).collect();
    assert!(draws.iter().all(|&d| ELECTION_TIMEOUT_MIN_MS <= d && d <= ELECTION_TIMEOUT_MAX_MS));
    assert!(draws.iter().any(|&d| d != draws[0]));
}

#[test]
fn replication_stops_when_leadership_ends() {
    let mut node = Node::new(Raft::new(3, 0, &[]));
    let args = node.election_tick().unwrap();
    assert!(node.conclude_election(args.current_term, &vec![1, 0]));
    let (index, term) = node.start(vec![3]).unwrap();
    let req = node.next_replication_request(term, index - 1).expect("still leading");
    assert_eq!(req.prev_index, 0);
    assert_eq!(req.entries.len(), 1);
    assert!(node.next_replication_request(term, index + 1).is_none());
    assert!(node.next_replication_request(term + 1, index - 1).is_none());
    let hb = AppendEntriesArgs { term: term + 1, prev_index: 0, prev_term: 0, entries: vec![] };
    assert!(node.append_entries(hb).success);
    assert!(node.next_replication_request(term, index - 1).is_none());
}

#[test]
fn no_vote_in_own_election_term() {
    let mut node = Node::new(Raft::new(3, 0, &[]));
    let args = node.election_tick().unwrap();
    let other = RequestVoteArgs { requesting_peer: 1, ..args };
    assert_eq!(node.request_vote(&other).vote_value, 0);
    assert_eq!(node.term(), args.current_term);
}

#[test]
fn newer_vote_request_ends_leadership_and_candidacy() {
    let mut ld = leader(3, 0);
    let request = RequestVoteArgs { current_term: 2, current_index: 0, current_entry_hash: 0, requesting_peer: 1 };
    // the candidate's log is as up to date, and no vote was cast in the new term
    assert_eq!(ld.request_vote(&request).vote_value, 1);
    assert_eq!(ld.term(), 2);
    assert!(!ld.is_leader());
    // a candidate that learns of a newer term cannot lead from its election
    let mut c = Raft::new(3, 2, &[]);
    let t = c.stand_for_election().current_term;
    let newer = RequestVoteArgs { current_term: t + 1, current_index: 0, current_entry_hash: 0, requesting_peer: 1 };
    assert_eq!(c.request_vote(&newer).vote_value, 1);
    assert!(!c.is_candidate());
    assert!(!c.conclude_election(t, &vec![1, 1]));
    assert!(!c.is_leader());
}

#[test]
fn candidate_that_hears_a_leader_does_not_lead() {
    let mut c = Raft::new(3, 2, &[]);
    let t = c.stand_for_election().current_term;
    let hb = AppendEntriesArgs { term: t, prev_index: 0, prev_term: 0, entries: vec![] };
    assert!(c.append_entries(hb).success);
    assert!(!c.is_candidate());
    assert!(!c.conclude_election(t, &vec![1, 1]));
    assert!(!c.is_leader());
}

#[test]
fn leadership_only_in_the_term_stood_for() {
    let mut c = Raft::new(3, 2, &[]);
    let first = c.stand_for_election().current_term;
    let second = c.stand_for_election().current_term;
    assert_eq!(second, first + 1);
    assert!(!c.conclude_election(first, &vec![1, 1]));
    assert!(!c.is_leader());
    assert!(c.conclude_election(second, &vec![1, 1]));
    assert!(c.is_leader());
    assert_eq!(c.term(), second);
}

#[test]
fn first_replication_index_is_before_the_new_entry() {
    assert_eq!(replication_prev_index(5), 4);
    assert_eq!(replication_prev_index(1), 0);
    assert_eq!(replication_prev_index(0), 0);
}
