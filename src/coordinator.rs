//! The coordinator's decisions: starting an instance, choosing the fast or
//! the slow path, and retrying after a timeout.

use vstd::prelude::*;
use crate::instance::{merge_ids, same_ids, InstanceId};
use crate::command::Command;
use crate::instance::Status;
use crate::log::{has_id, interfering, local_seq, rec, written, InstanceLog, PreAccept, PreAcceptOk};
use crate::quorum::{
    fast_quorum, majority, majority_size, fast_quorum_size, replica_count, MAX_FAULTS,
};

verus! {

/// What the coordinator does once PreAccept replies are in.
#[derive(Clone, Debug)]
pub enum Decision {
    /// Not enough replies yet.
    Wait,
    /// A fast quorum agreed with the proposal: commit it as proposed.
    FastCommit { deps: Vec<InstanceId>, seq: u64 },
    /// Run Accept with the merged attributes.
    SlowAccept { deps: Vec<InstanceId>, seq: u64 },
}

/// Every reply carries the proposed deps (as a set) and seq.
pub open spec fn all_agree(deps: Seq<InstanceId>, seq: u64, rs: Seq<PreAcceptOk>) -> bool {
    forall|i: int| 0 <= i < rs.len() ==> rs[i].deps@.to_set() == deps.to_set() && rs[i].seq == seq
}

/// The proposed deps united with the deps of every reply.
pub open spec fn merged_deps(deps: Seq<InstanceId>, rs: Seq<PreAcceptOk>) -> Set<InstanceId>
    decreases rs.len(),
{
    if rs.len() == 0 {
        deps.to_set()
    } else {
        merged_deps(deps, rs.drop_last()) + rs.last().deps@.to_set()
    }
}

/// The largest of the proposed seq and the seq of every reply.
pub open spec fn merged_seq(seq: u64, rs: Seq<PreAcceptOk>) -> u64
    decreases rs.len(),
{
    if rs.len() == 0 {
        seq
    } else {
        let m = merged_seq(seq, rs.drop_last());
        if rs.last().seq > m {
            rs.last().seq
        } else {
            m
        }
    }
}

/// A fast quorum answered and every reply matches the proposal.
pub open spec fn fast_path(deps: Seq<InstanceId>, seq: u64, rs: Seq<PreAcceptOk>, f: nat) -> bool {
    rs.len() >= fast_quorum(f) && all_agree(deps, seq, rs)
}

/// Enough replies to run Accept: a fast quorum, or a majority after a timeout.
pub open spec fn slow_path(rs: Seq<PreAcceptOk>, f: nat, timed_out: bool) -> bool {
    rs.len() >= majority(f) && (rs.len() >= fast_quorum(f) || timed_out)
}

/// Whether every reply matches the proposal.
fn replies_agree(deps: &Vec<InstanceId>, seq: u64, replies: &Vec<PreAcceptOk>) -> (r: bool)
    ensures
        r == all_agree(deps@, seq, replies@),
{
    let mut i: usize = 0;
    while i < replies.len()
        invariant
            i <= replies@.len(),
            all_agree(deps@, seq, replies@.subrange(0, i as int)),
        decreases replies@.len() - i,
    {
        if replies[i].seq != seq || !same_ids(&replies[i].deps, deps) {
            proof {
                assert(!(replies@[i as int].deps@.to_set() == deps@.to_set() && replies@[i as int].seq
                    == seq));
            }
            return false;
        }
        proof {
            assert forall|j: int| 0 <= j < i + 1 implies (#[trigger] replies@.subrange(0, i + 1)[j]).deps@.to_set()
                == deps@.to_set() && replies@.subrange(0, i + 1)[j].seq == seq by {
                if j < i {
                    assert(replies@.subrange(0, i + 1)[j] == replies@.subrange(0, i as int)[j]);
                }
            }
        }
        i += 1;
    }
    proof {
        assert(replies@.subrange(0, replies@.len() as int) =~= replies@);
    }
    true
}

/// Unites the proposal with every reply: deps by union, seq by maximum.
fn merge_replies(deps: &Vec<InstanceId>, seq: u64, replies: &Vec<PreAcceptOk>) -> (r: (
    Vec<InstanceId>,
    u64,
))
    ensures
        r.0@.to_set() == merged_deps(deps@, replies@),
        r.1 == merged_seq(seq, replies@),
{
    let mut d = deps.clone();
    let mut m = seq;
    let mut i: usize = 0;
    while i < replies.len()
        invariant
            i <= replies@.len(),
            d@.to_set() == merged_deps(deps@, replies@.subrange(0, i as int)),
            m == merged_seq(seq, replies@.subrange(0, i as int)),
        decreases replies@.len() - i,
    {
        proof {
            assert(replies@.subrange(0, i + 1).drop_last() =~= replies@.subrange(0, i as int));
        }
        merge_ids(&mut d, &replies[i].deps);
        if replies[i].seq > m {
            m = replies[i].seq;
        }
        i += 1;
    }
    proof {
        assert(replies@.subrange(0, replies@.len() as int) =~= replies@);
    }
    (d, m)
}

/// The coordinator's choice after PreAccept. `replies` holds one reply per
/// distinct replica, the coordinator's own included. With a fast quorum of
/// replies that all carry the proposed (deps, seq) it commits those values
/// at once. Otherwise, once a fast quorum has answered, or a majority has
/// and the wait timed out, it goes to Accept with the union of all deps and
/// the largest seq. Else it waits.
pub fn decide_pre_accept(
    deps: &Vec<InstanceId>,
    seq: u64,
    replies: &Vec<PreAcceptOk>,
    f: u64,
    timed_out: bool,
) -> (r: Decision)
    requires
        f <= MAX_FAULTS,
    ensures
        match r {
            Decision::FastCommit { deps: d, seq: s } => fast_path(deps@, seq, replies@, f as nat)
                && d@ == deps@ && s == seq,
            Decision::SlowAccept { deps: d, seq: s } => !fast_path(deps@, seq, replies@, f as nat)
                && slow_path(replies@, f as nat, timed_out) && d@.to_set() == merged_deps(
                deps@,
                replies@,
            ) && s == merged_seq(seq, replies@),
            Decision::Wait => !fast_path(deps@, seq, replies@, f as nat) && !slow_path(
                replies@,
                f as nat,
                timed_out,
            ),
        },
{
    let fast = fast_quorum_size(f);
    let n = replies.len() as u64;
    if n >= fast && replies_agree(deps, seq, replies) {
        return Decision::FastCommit { deps: deps.clone(), seq };
    }
    if n >= majority_size(f) && (n >= fast || timed_out) {
        let (d, s) = merge_replies(deps, seq, replies);
        return Decision::SlowAccept { deps: d, seq: s };
    }
    Decision::Wait
}

/// Accept succeeds once a majority (the coordinator included) has answered.
pub fn accept_quorum_reached(acks: u64, f: u64) -> (r: bool)
    requires
        f <= MAX_FAULTS,
    ensures
        r == (acks >= majority(f as nat)),
{
    acks >= majority_size(f)
}

/// Why a coordinator gave up on an instance.
#[derive(Clone, Copy, PartialEq, Eq, Structural, Debug)]
pub enum CoordinatorError {
    /// No quorum answered within the allowed number of attempts.
    QuorumTimeout,
}

/// After a phase timed out: the ballot to re-issue it with, one above the
/// last, unless `attempts` already reached `max_attempts` (or ballots ran
/// out), in which case the client sees a transient failure.
pub fn retry_ballot(ballot: u64, attempts: u64, max_attempts: u64) -> (r: Result<u64, CoordinatorError>)
    ensures
        attempts < max_attempts && ballot < u64::MAX ==> r == Ok::<u64, CoordinatorError>((ballot + 1) as u64),
        !(attempts < max_attempts && ballot < u64::MAX) ==> r == Err::<u64, CoordinatorError>(
            CoordinatorError::QuorumTimeout,
        ),
{
    if attempts < max_attempts && ballot < u64::MAX {
        Ok(ballot + 1)
    } else {
        Err(CoordinatorError::QuorumTimeout)
    }
}

/// Quorum tolerance: when at most `f` of the `2f + 1` replicas are
/// unreachable, the replies of the others never leave a coordinator waiting
/// once its PreAccept wait has timed out, and they make a majority for Accept.
pub proof fn lemma_no_wait_with_f_unreachable(
    deps: Seq<InstanceId>,
    seq: u64,
    replies: Seq<PreAcceptOk>,
    f: nat,
)
    requires
        replies.len() >= replica_count(f) - f,
    ensures
        fast_path(deps, seq, replies, f) || slow_path(replies, f, true),
        replies.len() >= majority(f),
{
}

/// A replica as coordinator: its id, the next sequence number it hands
/// out, and its log.
pub struct Replica {
    pub id: u64,
    pub next_slot: u64,
    pub log: InstanceLog,
}

impl Replica {
    /// The log is well formed and every instance of this replica in it has a
    /// sequence number below `next_slot`.
    pub open spec fn wf(&self) -> bool {
        &&& self.log.wf()
        &&& forall|j: int|
            0 <= j < self.log@.len() && (#[trigger] self.log@[j]).id.replica == self.id
                ==> self.log@[j].id.slot < self.next_slot
    }

    /// A replica with an empty log.
    pub fn new(id: u64) -> (r: Replica)
        ensures
            r.wf(),
            r.id == id,
            r.next_slot == 0,
            r.log@.len() == 0,
    {
        Replica { id, next_slot: 0, log: InstanceLog::new() }
    }

    /// Starts an instance for a client command: takes the next sequence
    /// number, records the instance PreAccepted with deps every interfering
    /// instance of the log and seq one above theirs, and returns the
    /// PreAccept to send to the peers (the coordinator's own copy already
    /// counted).
    pub fn propose(&mut self, c: Command) -> (r: PreAccept)
        requires
            old(self).wf(),
            old(self).next_slot < u64::MAX,
        ensures
            final(self).wf(),
            final(self).id == old(self).id,
            final(self).next_slot == old(self).next_slot + 1,
            r.id == (InstanceId { replica: old(self).id, slot: old(self).next_slot }),
            !has_id(old(self).log@, r.id),
            r.command == c,
            r.ballot == 0,
            r.deps@.to_set() == interfering(old(self).log@, c, r.id),
            r.seq == local_seq(old(self).log@, c, r.id),
            written(old(self).log@, final(self).log@, r.id),
            rec(final(self).log@, r.id).command == c,
            rec(final(self).log@, r.id).deps@ == r.deps@,
            rec(final(self).log@, r.id).seq == r.seq,
            rec(final(self).log@, r.id).ballot == 0,
            rec(final(self).log@, r.id).status == Status::PreAccepted,
    {
        let id = InstanceId { replica: self.id, slot: self.next_slot };
        proof {
            if has_id(self.log@, id) {
                let j = choose|j: int| 0 <= j < self.log@.len() && self.log@[j].id == id;
                assert(self.log@[j].id.replica == self.id);
            }
        }
        let m0 = PreAccept { id, command: c, deps: Vec::new(), seq: 0, ballot: 0 };
        let ghost l0 = self.log@;
        let reply = self.log.handle_pre_accept(&m0);
        self.next_slot = self.next_slot + 1;
        proof {
            assert(m0.deps@.to_set() =~= Set::<InstanceId>::empty());
            let l = self.log@;
            assert(l.last().id == id);
            assert forall|j: int|
                0 <= j < l.len() && (#[trigger] l[j]).id.replica == self.id implies l[j].id.slot
                < self.next_slot by {
                if j < l0.len() {
                    assert(l0[j].id != id);
                    assert(l[j] == l0[j]);
                }
            }
            assert(interfering(l0, c, id) =~= Set::<InstanceId>::empty() + interfering(l0, c, id)
                + Set::<InstanceId>::empty());
        }
        let ok = reply.unwrap();
        PreAccept { id, command: c, deps: ok.deps, seq: ok.seq, ballot: 0 }
    }
}

} // verus!
