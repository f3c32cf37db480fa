use bangbang::command::{interferes, Command, Location, Op};
use bangbang::coordinator::{
    accept_quorum_reached, decide_pre_accept, retry_ballot, CoordinatorError, Decision, Replica,
};
use bangbang::execution::{execute_all, execute_next};
use bangbang::instance::{merge_ids, runs_before, same_ids, InstanceId, Status};
use bangbang::log::{Accept, Commit, InstanceLog, PreAccept, PreAcceptOk, ProtocolError};
use bangbang::quorum::{fast_quorum_size, majority_size, replica_count_of};
use bangbang::store::ObjectStore;

fn loc(v: f32) -> Location {
    Location { x: v.to_bits(), y: v.to_bits(), z: v.to_bits() }
}

fn put(key: u128, v: f32) -> Command {
    Command { key, op: Op::Put(loc(v)) }
}

fn iid(replica: u64, slot: u64) -> InstanceId {
    InstanceId { replica, slot }
}

fn own_reply(m: &PreAccept) -> PreAcceptOk {
    PreAcceptOk { id: m.id, deps: m.deps.clone(), seq: m.seq }
}

fn commit_of(id: InstanceId, command: Command, deps: Vec<InstanceId>, seq: u64) -> Commit {
    Commit { id, command, deps, seq }
}

fn status_of(log: &InstanceLog, id: InstanceId) -> Status {
    log.entry(log.find(id).unwrap()).status
}

#[test]
fn quorum_sizes() {
    assert_eq!(replica_count_of(1), 3);
    assert_eq!(fast_quorum_size(1), 2);
    assert_eq!(majority_size(1), 2);
    assert_eq!(replica_count_of(2), 5);
    assert_eq!(fast_quorum_size(2), 4);
    assert_eq!(majority_size(2), 3);
    assert_eq!(fast_quorum_size(3), 5);
    assert_eq!(fast_quorum_size(0), 1);
    assert!(accept_quorum_reached(2, 1));
    assert!(!accept_quorum_reached(1, 1));
}

#[test]
fn interference_is_key_overlap_and_symmetric() {
    let a = put(1, 0.0);
    let b = Command { key: 1, op: Op::Read };
    let c = Command { key: 2, op: Op::Delete };
    assert!(interferes(&a, &b));
    assert!(interferes(&b, &a));
    assert!(!interferes(&a, &c));
    assert!(!interferes(&c, &a));
}

#[test]
fn id_sets() {
    let mut a = vec![iid(0, 0), iid(1, 0)];
    merge_ids(&mut a, &vec![iid(1, 0), iid(2, 5)]);
    assert_eq!(a, vec![iid(0, 0), iid(1, 0), iid(2, 5)]);
    assert!(same_ids(&a, &vec![iid(2, 5), iid(0, 0), iid(1, 0)]));
    assert!(!same_ids(&a, &vec![iid(2, 5), iid(0, 0)]));
    assert!(runs_before(1, iid(5, 5), 2, iid(0, 0)));
    assert!(runs_before(2, iid(0, 9), 2, iid(1, 0)));
    assert!(runs_before(2, iid(1, 0), 2, iid(1, 1)));
    assert!(!runs_before(2, iid(1, 1), 2, iid(1, 1)));
}

#[test]
fn propose_takes_next_slot_and_interfering_deps() {
    let mut r = Replica::new(0);
    let a = r.propose(put(7, 1.0));
    assert_eq!(a.id, iid(0, 0));
    assert!(a.deps.is_empty());
    assert_eq!(a.seq, 1);
    let b = r.propose(put(8, 1.0));
    assert_eq!(b.id, iid(0, 1));
    assert!(b.deps.is_empty());
    assert_eq!(b.seq, 1);
    let c = r.propose(put(7, 2.0));
    assert_eq!(c.id, iid(0, 2));
    assert_eq!(c.deps, vec![iid(0, 0)]);
    assert_eq!(c.seq, 2);
    assert_eq!(r.next_slot, 3);
    assert_eq!(status_of(&r.log, iid(0, 2)), Status::PreAccepted);
}

#[test]
fn pre_accept_merges_local_conflicts() {
    let mut log = InstanceLog::new();
    let mut r = Replica::new(1);
    let local = r.propose(put(3, 0.0));
    log.handle_pre_accept(&local).unwrap();
    let m = PreAccept { id: iid(0, 0), command: put(3, 1.0), deps: vec![iid(2, 0)], seq: 1, ballot: 0 };
    let ok = log.handle_pre_accept(&m).unwrap();
    assert!(same_ids(&ok.deps, &vec![iid(2, 0), iid(1, 0)]));
    assert_eq!(ok.seq, 2);
    let m2 = PreAccept { id: iid(0, 1), command: put(4, 1.0), deps: vec![], seq: 5, ballot: 0 };
    let ok2 = log.handle_pre_accept(&m2).unwrap();
    assert!(ok2.deps.is_empty());
    assert_eq!(ok2.seq, 5);
}

#[test]
fn stale_ballot_is_refused() {
    let mut log = InstanceLog::new();
    let m = PreAccept { id: iid(0, 0), command: put(1, 0.0), deps: vec![], seq: 1, ballot: 3 };
    log.handle_pre_accept(&m).unwrap();
    let old = PreAccept { ballot: 2, ..m.clone() };
    assert_eq!(log.handle_pre_accept(&old).unwrap_err(), ProtocolError::StaleBallot);
    let acc = Accept { id: iid(0, 0), command: put(1, 0.0), deps: vec![], seq: 1, ballot: 1 };
    assert_eq!(log.handle_accept(&acc).unwrap_err(), ProtocolError::StaleBallot);
    let acc_ok = Accept { ballot: 3, ..acc };
    assert_eq!(log.handle_accept(&acc_ok).unwrap().id, iid(0, 0));
    assert_eq!(status_of(&log, iid(0, 0)), Status::Accepted);
}

#[test]
fn accepted_instance_reports_its_values() {
    let mut log = InstanceLog::new();
    let acc = Accept { id: iid(0, 0), command: put(1, 0.0), deps: vec![iid(4, 4)], seq: 9, ballot: 0 };
    log.handle_accept(&acc).unwrap();
    let m = PreAccept { id: iid(0, 0), command: put(1, 0.0), deps: vec![], seq: 1, ballot: 1 };
    let ok = log.handle_pre_accept(&m).unwrap();
    assert_eq!(ok.deps, vec![iid(4, 4)]);
    assert_eq!(ok.seq, 9);
    assert_eq!(status_of(&log, iid(0, 0)), Status::Accepted);
}

#[test]
fn commit_redelivery_is_a_no_op() {
    let mut log = InstanceLog::new();
    let mut store = ObjectStore::new();
    let c = commit_of(iid(0, 0), put(1, 1.0), vec![], 1);
    assert!(log.handle_commit(&c));
    assert!(!log.handle_commit(&commit_of(iid(0, 0), put(1, 2.0), vec![iid(9, 9)], 7)));
    let e = log.entry(0);
    assert_eq!(e.seq, 1);
    assert!(e.deps.is_empty());
    assert_eq!(e.command, put(1, 1.0));
    assert_eq!(execute_all(&mut log, &mut store), vec![iid(0, 0)]);
    assert!(!log.handle_commit(&c));
    assert_eq!(execute_next(&mut log, &mut store), None);
    assert_eq!(store.get(1), Some(loc(1.0)));
    assert_eq!(status_of(&log, iid(0, 0)), Status::Executed);
}

#[test]
fn later_messages_do_not_change_a_committed_instance() {
    let mut log = InstanceLog::new();
    log.handle_commit(&commit_of(iid(0, 0), put(1, 1.0), vec![iid(2, 2)], 4));
    let m = PreAccept { id: iid(0, 0), command: put(1, 3.0), deps: vec![], seq: 1, ballot: 9 };
    let ok = log.handle_pre_accept(&m).unwrap();
    assert_eq!(ok.deps, vec![iid(2, 2)]);
    assert_eq!(ok.seq, 4);
    let acc = Accept { id: iid(0, 0), command: put(1, 3.0), deps: vec![], seq: 1, ballot: 9 };
    log.handle_accept(&acc).unwrap();
    let e = log.entry(0);
    assert_eq!(e.command, put(1, 1.0));
    assert_eq!(e.deps, vec![iid(2, 2)]);
    assert_eq!(e.seq, 4);
    assert_eq!(e.status, Status::Committed);
}

#[test]
fn fast_path_commits_proposal_unchanged() {
    let deps = vec![iid(1, 0)];
    let replies = vec![
        PreAcceptOk { id: iid(0, 0), deps: deps.clone(), seq: 2 },
        PreAcceptOk { id: iid(0, 0), deps: vec![iid(1, 0)], seq: 2 },
    ];
    match decide_pre_accept(&deps, 2, &replies, 1, false) {
        Decision::FastCommit { deps: d, seq } => {
            assert_eq!(d, deps);
            assert_eq!(seq, 2);
        }
        _ => panic!("expected the fast path"),
    }
}

#[test]
fn disagreeing_replies_take_the_slow_path() {
    let deps = vec![];
    let replies = vec![
        PreAcceptOk { id: iid(0, 0), deps: vec![], seq: 1 },
        PreAcceptOk { id: iid(0, 0), deps: vec![iid(1, 0)], seq: 3 },
    ];
    match decide_pre_accept(&deps, 1, &replies, 1, false) {
        Decision::SlowAccept { deps: d, seq } => {
            assert_eq!(d, vec![iid(1, 0)]);
            assert_eq!(seq, 3);
        }
        _ => panic!("expected the slow path"),
    }
}

#[test]
fn too_few_replies_wait_until_timeout() {
    let deps = vec![];
    let one = vec![PreAcceptOk { id: iid(0, 0), deps: vec![], seq: 1 }];
    assert!(matches!(decide_pre_accept(&deps, 1, &one, 1, true), Decision::Wait));
    let three = vec![
        PreAcceptOk { id: iid(0, 0), deps: vec![], seq: 1 },
        PreAcceptOk { id: iid(0, 0), deps: vec![], seq: 1 },
        PreAcceptOk { id: iid(0, 0), deps: vec![iid(3, 1)], seq: 1 },
    ];
    // f = 2: fast quorum 4, majority 3
    assert!(matches!(decide_pre_accept(&deps, 1, &three, 2, false), Decision::Wait));
    match decide_pre_accept(&deps, 1, &three, 2, true) {
        Decision::SlowAccept { deps: d, seq } => {
            assert_eq!(d, vec![iid(3, 1)]);
            assert_eq!(seq, 1);
        }
        _ => panic!("expected the slow path after the timeout"),
    }
}

#[test]
fn execution_waits_for_uncommitted_dependency() {
    let mut log = InstanceLog::new();
    let mut store = ObjectStore::new();
    log.handle_commit(&commit_of(iid(0, 1), put(1, 2.0), vec![iid(0, 0)], 2));
    assert_eq!(execute_next(&mut log, &mut store), None);
    let m = PreAccept { id: iid(0, 0), command: put(1, 1.0), deps: vec![], seq: 1, ballot: 0 };
    log.handle_pre_accept(&m).unwrap();
    assert_eq!(execute_next(&mut log, &mut store), None);
    log.handle_commit(&commit_of(iid(0, 0), put(1, 1.0), vec![], 1));
    assert_eq!(execute_all(&mut log, &mut store), vec![iid(0, 0), iid(0, 1)]);
    assert_eq!(store.get(1), Some(loc(2.0)));
}

#[test]
fn cycle_runs_in_seq_then_id_order() {
    let mut log = InstanceLog::new();
    let mut store = ObjectStore::new();
    log.handle_commit(&commit_of(iid(0, 0), put(5, 1.0), vec![iid(1, 0)], 3));
    log.handle_commit(&commit_of(iid(1, 0), put(5, 2.0), vec![iid(0, 0)], 2));
    assert_eq!(execute_all(&mut log, &mut store), vec![iid(1, 0), iid(0, 0)]);
    assert_eq!(store.get(5), Some(loc(1.0)));

    let mut tie = InstanceLog::new();
    let mut s2 = ObjectStore::new();
    tie.handle_commit(&commit_of(iid(1, 0), put(5, 2.0), vec![iid(0, 0)], 2));
    tie.handle_commit(&commit_of(iid(0, 0), put(5, 1.0), vec![iid(1, 0)], 2));
    assert_eq!(execute_all(&mut tie, &mut s2), vec![iid(0, 0), iid(1, 0)]);
    assert_eq!(s2.get(5), Some(loc(2.0)));
}

#[test]
fn dependencies_run_first() {
    let mut log = InstanceLog::new();
    let mut store = ObjectStore::new();
    log.handle_commit(&commit_of(iid(0, 2), Command { key: 1, op: Op::Delete }, vec![iid(0, 1)], 1));
    log.handle_commit(&commit_of(iid(0, 1), put(1, 3.0), vec![iid(0, 0)], 1));
    log.handle_commit(&commit_of(iid(0, 0), put(1, 1.0), vec![], 9));
    assert_eq!(execute_all(&mut log, &mut store), vec![iid(0, 0), iid(0, 1), iid(0, 2)]);
    assert_eq!(store.get(1), None);
}

#[test]
fn same_committed_set_same_order_and_state() {
    let commits = vec![
        commit_of(iid(0, 0), put(1, 1.0), vec![iid(1, 0)], 2),
        commit_of(iid(1, 0), put(1, 2.0), vec![iid(0, 0)], 2),
        commit_of(iid(2, 0), put(2, 3.0), vec![], 1),
        commit_of(iid(2, 1), Command { key: 1, op: Op::Delete }, vec![iid(0, 0), iid(1, 0)], 3),
    ];
    let mut a = InstanceLog::new();
    let mut b = InstanceLog::new();
    for c in commits.iter() {
        a.handle_commit(c);
    }
    for c in commits.iter().rev() {
        b.handle_commit(c);
    }
    let mut sa = ObjectStore::new();
    let mut sb = ObjectStore::new();
    let oa = execute_all(&mut a, &mut sa);
    let ob = execute_all(&mut b, &mut sb);
    assert_eq!(oa, ob);
    assert_eq!(oa.len(), 4);
    assert_eq!(sa.get(1), sb.get(1));
    assert_eq!(sa.get(2), sb.get(2));
    assert_eq!(sa.get(1), None);
    assert_eq!(sa.get(2), Some(loc(3.0)));
}

/// Delivers a PreAccept to a peer and returns its reply.
fn pre_accept_at(peer: &mut Replica, m: &PreAccept) -> PreAcceptOk {
    peer.log.handle_pre_accept(m).unwrap()
}

fn broadcast_commit(replicas: &mut Vec<Replica>, c: &Commit) {
    for r in replicas.iter_mut() {
        r.log.handle_commit(c);
    }
}

#[test]
fn scenario_independent_commands_take_the_fast_path() {
    let f: u64 = 1;
    let mut rs = vec![Replica::new(0), Replica::new(1), Replica::new(2)];
    let mut proposals = Vec::new();
    for i in 0..3 {
        proposals.push(rs[i].propose(put(100 + i as u128, i as f32)));
    }
    let mut commits = Vec::new();
    for i in 0..3 {
        let m = &proposals[i];
        let mut replies = vec![own_reply(m)];
        for j in 0..3 {
            if j != i {
                replies.push(pre_accept_at(&mut rs[j], m));
            }
        }
        match decide_pre_accept(&m.deps, m.seq, &replies, f, false) {
            Decision::FastCommit { deps, seq } => {
                assert!(deps.is_empty());
                assert_eq!(seq, 1);
                commits.push(commit_of(m.id, m.command, deps, seq));
            }
            _ => panic!("independent commands take the fast path"),
        }
    }
    for c in commits.iter() {
        broadcast_commit(&mut rs, c);
    }
    for r in rs.iter_mut() {
        let mut store = ObjectStore::new();
        let order = execute_all(&mut r.log, &mut store);
        assert_eq!(order.len(), 3);
        for i in 0..3 {
            assert_eq!(store.get(100 + i as u128), Some(loc(i as f32)));
        }
    }
}

#[test]
fn scenario_conflicting_commands_take_the_slow_path() {
    let f: u64 = 1;
    let mut rs = vec![Replica::new(0), Replica::new(1), Replica::new(2)];
    // Replica 1 starts B locally, replica 0 starts A on the same key.
    let b = rs[1].propose(put(9, 2.0));
    let a = rs[0].propose(put(9, 1.0));
    // A reaches replica 2, which has seen nothing: the fast quorum agrees.
    let a_replies = vec![own_reply(&a), pre_accept_at(&mut rs[2], &a)];
    let (a_deps, a_seq) = match decide_pre_accept(&a.deps, a.seq, &a_replies, f, false) {
        Decision::FastCommit { deps, seq } => (deps, seq),
        _ => panic!("A takes the fast path"),
    };
    // B reaches replica 0, which holds A: the replies disagree.
    let b_replies = vec![own_reply(&b), pre_accept_at(&mut rs[0], &b)];
    let (b_deps, b_seq) = match decide_pre_accept(&b.deps, b.seq, &b_replies, f, false) {
        Decision::SlowAccept { deps, seq } => (deps, seq),
        _ => panic!("B falls to the slow path"),
    };
    assert_eq!(b_deps, vec![a.id]);
    assert_eq!(b_seq, 2);
    let acc = Accept { id: b.id, command: b.command, deps: b_deps.clone(), seq: b_seq, ballot: 0 };
    let mut acks: u64 = 0;
    for r in rs.iter_mut().take(2) {
        r.log.handle_accept(&acc).unwrap();
        acks += 1;
    }
    assert!(accept_quorum_reached(acks, f));
    broadcast_commit(&mut rs, &commit_of(a.id, a.command, a_deps, a_seq));
    broadcast_commit(&mut rs, &commit_of(b.id, b.command, b_deps, b_seq));
    for r in rs.iter_mut() {
        let mut store = ObjectStore::new();
        let order = execute_all(&mut r.log, &mut store);
        assert_eq!(order, vec![a.id, b.id]);
        assert_eq!(store.get(9), Some(loc(2.0)));
    }
}

#[test]
fn scenario_recovery_after_coordinator_crash() {
    let f: u64 = 1;
    let mut rs = vec![Replica::new(0), Replica::new(1), Replica::new(2)];
    let other = rs[1].propose(put(4, 0.5));
    let a = rs[0].propose(put(4, 1.0));
    let replies = vec![own_reply(&a), pre_accept_at(&mut rs[1], &a)];
    let (deps, seq) = match decide_pre_accept(&a.deps, a.seq, &replies, f, false) {
        Decision::SlowAccept { deps, seq } => (deps, seq),
        _ => panic!("A falls to the slow path"),
    };
    assert_eq!(deps, vec![other.id]);
    let acc = Accept { id: a.id, command: a.command, deps: deps.clone(), seq, ballot: 0 };
    rs[0].log.handle_accept(&acc).unwrap();
    rs[1].log.handle_accept(&acc).unwrap();
    // Replica 0 crashes before sending Commit. Replica 1 notices the stall
    // and takes over with a higher ballot, proposing what it holds.
    let retry = PreAccept { id: a.id, command: a.command, deps: deps.clone(), seq, ballot: 1 };
    let r1 = pre_accept_at(&mut rs[1], &retry);
    let r2 = pre_accept_at(&mut rs[2], &retry);
    assert_eq!(r1.deps, deps);
    assert_eq!(r1.seq, seq);
    let mut replies = vec![r1, r2];
    let decided = decide_pre_accept(&retry.deps, retry.seq, &replies, f, true);
    let (d2, s2) = match decided {
        Decision::FastCommit { deps, seq } => (deps, seq),
        Decision::SlowAccept { deps, seq } => (deps, seq),
        Decision::Wait => panic!("two replies make a quorum"),
    };
    assert!(same_ids(&d2, &deps));
    assert_eq!(s2, seq);
    // The crashed coordinator's old ballot is now fenced off at replica 2.
    assert_eq!(rs[2].log.handle_accept(&acc).unwrap_err(), ProtocolError::StaleBallot);
    replies.clear();
    let commit = commit_of(a.id, a.command, d2, s2);
    rs[1].log.handle_commit(&commit);
    rs[2].log.handle_commit(&commit);
    broadcast_commit(&mut rs, &commit_of(other.id, other.command, vec![], other.seq));
    for r in rs.iter_mut().skip(1) {
        let e = r.log.entry(r.log.find(a.id).unwrap());
        assert_eq!(e.status, Status::Committed);
        assert_eq!(e.deps, deps);
        assert_eq!(e.seq, seq);
        let mut store = ObjectStore::new();
        assert_eq!(execute_all(&mut r.log, &mut store), vec![other.id, a.id]);
        assert_eq!(store.get(4), Some(loc(1.0)));
    }
}

#[test]
fn timeouts_bump_the_ballot_until_the_bound() {
    assert_eq!(retry_ballot(0, 0, 3), Ok(1));
    assert_eq!(retry_ballot(7, 2, 3), Ok(8));
    assert_eq!(retry_ballot(7, 3, 3), Err(CoordinatorError::QuorumTimeout));
    assert_eq!(retry_ballot(u64::MAX, 0, 3), Err(CoordinatorError::QuorumTimeout));
}

#[test]
fn replicas_agree_on_committed_values() {
    let f: u64 = 1;
    let mut rs = vec![Replica::new(0), Replica::new(1), Replica::new(2)];
    let b = rs[1].propose(put(9, 2.0));
    let a = rs[0].propose(put(9, 1.0));
    let replies = vec![own_reply(&a), pre_accept_at(&mut rs[1], &a)];
    let commit = match decide_pre_accept(&a.deps, a.seq, &replies, f, false) {
        Decision::SlowAccept { deps, seq } => commit_of(a.id, a.command, deps, seq),
        _ => panic!("the replies disagree"),
    };
    broadcast_commit(&mut rs, &commit);
    // A late duplicate with other values changes nothing anywhere.
    broadcast_commit(&mut rs, &commit_of(a.id, put(9, 5.0), vec![], 1));
    for r in rs.iter() {
        let e = r.log.entry(r.log.find(a.id).unwrap());
        assert_eq!(e.status, Status::Committed);
        assert_eq!(e.command, put(9, 1.0));
        assert_eq!(e.deps, vec![b.id]);
        assert_eq!(e.seq, 2);
    }
}

#[test]
fn progress_with_one_replica_unreachable() {
    let f: u64 = 1;
    let mut rs = vec![Replica::new(0), Replica::new(1), Replica::new(2)];
    let other = rs[1].propose(put(3, 0.0));
    let a = rs[0].propose(put(3, 1.0));
    // Replica 2 never answers; replica 1 conflicts, so Accept is needed.
    let replies = vec![own_reply(&a), pre_accept_at(&mut rs[1], &a)];
    let (deps, seq) = match decide_pre_accept(&a.deps, a.seq, &replies, f, true) {
        Decision::SlowAccept { deps, seq } => (deps, seq),
        _ => panic!("two of three replies run Accept"),
    };
    let acc = Accept { id: a.id, command: a.command, deps: deps.clone(), seq, ballot: 0 };
    rs[0].log.handle_accept(&acc).unwrap();
    rs[1].log.handle_accept(&acc).unwrap();
    assert!(accept_quorum_reached(2, f));
    let c = commit_of(a.id, a.command, deps, seq);
    assert!(rs[0].log.handle_commit(&c));
    assert!(rs[1].log.handle_commit(&c));
    assert_eq!(status_of(&rs[0].log, a.id), Status::Committed);
    assert_eq!(deps_len(&rs[1].log, a.id), 1);
    assert_eq!(other.seq, 1);
}

fn deps_len(log: &InstanceLog, id: InstanceId) -> usize {
    log.entry(log.find(id).unwrap()).deps.len()
}
