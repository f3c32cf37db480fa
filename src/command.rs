//! Commands of the object store and the conflict detector.

use vstd::prelude::*;

verus! {

/// A location, each coordinate held as the bit pattern of an `f32`.
#[derive(Clone, Copy, PartialEq, Eq, Structural, Debug)]
pub struct Location {
    pub x: u32,
    pub y: u32,
    pub z: u32,
}

/// What a command does to the object it names.
#[derive(Clone, Copy, PartialEq, Eq, Structural, Debug)]
pub enum Op {
    /// Track the object at a location (create or move).
    Put(Location),
    /// Stop tracking the object.
    Delete,
    /// Observe the object; changes nothing.
    Read,
}

/// A command of the object store. Its declared key set is `{key}`.
#[derive(Clone, Copy, PartialEq, Eq, Structural, Debug)]
pub struct Command {
    pub key: u128,
    pub op: Op,
}

/// The key set a command declares.
pub open spec fn key_set(c: Command) -> Set<u128> {
    set![c.key]
}

/// Two commands interfere when their key sets intersect.
pub open spec fn conflicts(a: Command, b: Command) -> bool {
    exists|k: u128| key_set(a).contains(k) && key_set(b).contains(k)
}

/// Decides whether two commands interfere.
pub fn interferes(a: &Command, b: &Command) -> (r: bool)
    ensures
        r == conflicts(*a, *b),
{
    let r = a.key == b.key;
    proof {
        if !r {
            assert forall|k: u128| !(key_set(*a).contains(k) && key_set(*b).contains(k)) by {}
        } else {
            assert(key_set(*a).contains(a.key) && key_set(*b).contains(a.key));
        }
    }
    r
}

/// Interference is symmetric.
pub proof fn lemma_interference_symmetric(a: Command, b: Command)
    ensures
        conflicts(a, b) == conflicts(b, a),
{
    if conflicts(a, b) {
        let k = choose|k: u128| key_set(a).contains(k) && key_set(b).contains(k);
        assert(key_set(b).contains(k) && key_set(a).contains(k));
    }
    if conflicts(b, a) {
        let k = choose|k: u128| key_set(b).contains(k) && key_set(a).contains(k);
        assert(key_set(a).contains(k) && key_set(b).contains(k));
    }
}

} // verus!
