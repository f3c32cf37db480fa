//! Cluster and quorum sizes, and why quorums intersect.

use vstd::prelude::*;
use vstd::set_lib::{lemma_len_subset, lemma_set_disjoint_lens, set_int_range, lemma_int_range};

verus! {

/// Replicas in a cluster that tolerates `f` failures: `2f + 1`.
pub open spec fn replica_count(f: nat) -> nat {
    2 * f + 1
}

/// Fast quorum: `f + ceil((f + 1) / 2)`.
pub open spec fn fast_quorum(f: nat) -> nat {
    f + (f + 2) / 2
}

/// Majority quorum: `f + 1`.
pub open spec fn majority(f: nat) -> nat {
    f + 1
}

/// Largest `f` the size functions accept.
pub const MAX_FAULTS: u64 = 0x3fff_ffff_ffff_ffff;

pub fn replica_count_of(f: u64) -> (r: u64)
    requires
        f <= MAX_FAULTS,
    ensures
        r == replica_count(f as nat),
{
    2 * f + 1
}

pub fn fast_quorum_size(f: u64) -> (r: u64)
    requires
        f <= MAX_FAULTS,
    ensures
        r == fast_quorum(f as nat),
{
    f + (f + 2) / 2
}

pub fn majority_size(f: u64) -> (r: u64)
    requires
        f <= MAX_FAULTS,
    ensures
        r == majority(f as nat),
{
    f + 1
}

/// The quorum sizes fit the cluster: a majority is reached by the replicas
/// left when `f` are unreachable, a fast quorum is at least a majority, and
/// neither exceeds the cluster.
pub proof fn lemma_quorum_sizes(f: nat)
    ensures
        majority(f) <= replica_count(f) - f,
        majority(f) <= fast_quorum(f),
        fast_quorum(f) <= replica_count(f),
        2 * majority(f) > replica_count(f),
        fast_quorum(f) + majority(f) > replica_count(f),
{
}

/// Two sets of replicas whose sizes add up to more than the cluster share a
/// replica; so any two majorities, and any fast quorum and any majority,
/// intersect.
pub proof fn lemma_quorums_intersect(f: nat, a: Set<int>, b: Set<int>)
    requires
        a.finite(),
        b.finite(),
        a.subset_of(set_int_range(0, replica_count(f) as int)),
        b.subset_of(set_int_range(0, replica_count(f) as int)),
        a.len() + b.len() > replica_count(f),
    ensures
        exists|r: int| a.contains(r) && b.contains(r),
{
    if !(exists|r: int| a.contains(r) && b.contains(r)) {
        assert(a.disjoint(b));
        lemma_set_disjoint_lens(a, b);
        lemma_int_range(0, replica_count(f) as int);
        lemma_len_subset(a + b, set_int_range(0, replica_count(f) as int));
    }
}

} // verus!
