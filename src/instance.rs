//! Instance ids, protocol states, log slots and small helpers on sets of ids.

use vstd::prelude::*;
use crate::command::Command;

verus! {

/// An instance: the coordinating replica and its sequence number there.
#[derive(Clone, Copy, PartialEq, Eq, Structural, Debug)]
pub struct InstanceId {
    pub replica: u64,
    pub slot: u64,
}

/// Protocol state of an instance, in the order it may advance.
#[derive(Clone, Copy, PartialEq, Eq, Structural, Debug)]
pub enum Status {
    PreAccepted,
    Accepted,
    Committed,
    Executed,
}

/// Position of a status in `PreAccepted < Accepted < Committed < Executed`.
pub open spec fn rank(s: Status) -> nat {
    match s {
        Status::PreAccepted => 0,
        Status::Accepted => 1,
        Status::Committed => 2,
        Status::Executed => 3,
    }
}

/// Committed or Executed: command, deps and seq are final.
pub open spec fn decided(s: Status) -> bool {
    rank(s) >= 2
}

impl Status {
    pub fn is_decided(&self) -> (r: bool)
        ensures
            r == decided(*self),
    {
        match self {
            Status::Committed | Status::Executed => true,
            _ => false,
        }
    }
}

/// One slot of a replica's log.
#[derive(Clone, Debug)]
pub struct Instance {
    pub id: InstanceId,
    pub command: Command,
    pub seq: u64,
    pub deps: Vec<InstanceId>,
    pub ballot: u64,
    pub status: Status,
}

/// The order used inside a strongly connected component: ascending `seq`,
/// then replica, then slot.
pub open spec fn order_before(seq_a: u64, a: InstanceId, seq_b: u64, b: InstanceId) -> bool {
    seq_a < seq_b || (seq_a == seq_b && (a.replica < b.replica || (a.replica == b.replica
        && a.slot < b.slot)))
}

/// Decides `order_before` on two (seq, id) pairs.
pub fn runs_before(seq_a: u64, a: InstanceId, seq_b: u64, b: InstanceId) -> (r: bool)
    ensures
        r == order_before(seq_a, a, seq_b, b),
{
    seq_a < seq_b || (seq_a == seq_b && (a.replica < b.replica || (a.replica == b.replica
        && a.slot < b.slot)))
}

/// Whether a vector of ids holds a given id.
pub fn holds_id(v: &Vec<InstanceId>, id: InstanceId) -> (r: bool)
    ensures
        r == v@.contains(id),
{
    let mut i: usize = 0;
    while i < v.len()
        invariant
            i <= v.len(),
            forall|j: int| 0 <= j < i ==> v@[j] != id,
        decreases v.len() - i,
    {
        if v[i] == id {
            return true;
        }
        i += 1;
    }
    false
}

/// Adds to `a` every id of `b` that it lacks.
pub fn merge_ids(a: &mut Vec<InstanceId>, b: &Vec<InstanceId>)
    ensures
        final(a)@.to_set() == old(a)@.to_set() + b@.to_set(),
        old(a)@.no_duplicates() ==> final(a)@.no_duplicates(),
{
    let ghost a0 = a@;
    let mut i: usize = 0;
    while i < b.len()
        invariant
            i <= b.len(),
            a@.to_set() == a0.to_set() + b@.subrange(0, i as int).to_set(),
            a0.no_duplicates() ==> a@.no_duplicates(),
        decreases b.len() - i,
    {
        let x = b[i];
        let ghost before = a@;
        if !holds_id(a, x) {
            a.push(x);
            proof {
                assert(a@ =~= before + seq![x]);
            }
        }
        proof {
            assert(b@.subrange(0, i + 1) =~= b@.subrange(0, i as int) + seq![x]);
            assert(a@.to_set() =~= a0.to_set() + b@.subrange(0, i + 1).to_set()) by {
                broadcast use vstd::seq::Seq::lemma_to_set_insert_commutes;
            }
        }
        i += 1;
    }
    proof {
        assert(b@.subrange(0, b@.len() as int) =~= b@);
    }
}

/// Whether two vectors of ids hold the same set.
pub fn same_ids(a: &Vec<InstanceId>, b: &Vec<InstanceId>) -> (r: bool)
    ensures
        r == (a@.to_set() == b@.to_set()),
{
    let mut i: usize = 0;
    while i < a.len()
        invariant
            i <= a.len(),
            forall|j: int| 0 <= j < i ==> b@.contains(#[trigger] a@[j]),
        decreases a.len() - i,
    {
        if !holds_id(b, a[i]) {
            proof {
                assert(a@.to_set().contains(a@[i as int]));
                assert(!b@.to_set().contains(a@[i as int]));
            }
            return false;
        }
        i += 1;
    }
    let mut k: usize = 0;
    while k < b.len()
        invariant
            k <= b.len(),
            forall|j: int| 0 <= j < a.len() ==> b@.contains(#[trigger] a@[j]),
            forall|j: int| 0 <= j < k ==> a@.contains(#[trigger] b@[j]),
        decreases b.len() - k,
    {
        if !holds_id(a, b[k]) {
            proof {
                assert(b@.to_set().contains(b@[k as int]));
                assert(!a@.to_set().contains(b@[k as int]));
            }
            return false;
        }
        k += 1;
    }
    proof {
        assert(a@.to_set() =~= b@.to_set());
    }
    true
}

} // verus!
