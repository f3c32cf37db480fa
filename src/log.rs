//! A replica's instance log and the acceptor side of PreAccept, Accept and
//! Commit.

use vstd::prelude::*;
use crate::command::{Command, conflicts, interferes};
use crate::instance::{decided, holds_id, merge_ids, rank, Instance, InstanceId, Status};

verus! {

/// PreAccept: a coordinator proposes a command with its attributes.
#[derive(Clone, Debug)]
pub struct PreAccept {
    pub id: InstanceId,
    pub command: Command,
    pub deps: Vec<InstanceId>,
    pub seq: u64,
    pub ballot: u64,
}

/// PreAcceptOk: the attributes a replica merged in.
#[derive(Clone, Debug)]
pub struct PreAcceptOk {
    pub id: InstanceId,
    pub deps: Vec<InstanceId>,
    pub seq: u64,
}

/// Accept: the coordinator's final candidate attributes (slow path).
#[derive(Clone, Debug)]
pub struct Accept {
    pub id: InstanceId,
    pub command: Command,
    pub deps: Vec<InstanceId>,
    pub seq: u64,
    pub ballot: u64,
}

/// AcceptOk: a replica stored the candidate.
#[derive(Clone, Copy, Debug)]
pub struct AcceptOk {
    pub id: InstanceId,
}

/// Commit: the decided command and attributes of an instance.
#[derive(Clone, Debug)]
pub struct Commit {
    pub id: InstanceId,
    pub command: Command,
    pub deps: Vec<InstanceId>,
    pub seq: u64,
}

/// Why a replica refused a message.
#[derive(Clone, Copy, PartialEq, Eq, Structural, Debug)]
pub enum ProtocolError {
    /// The message's ballot is below the one stored for its instance.
    StaleBallot,
}

pub open spec fn ids_unique(s: Seq<Instance>) -> bool {
    forall|i: int, j: int| 0 <= i < s.len() && 0 <= j < s.len() && i != j ==> s[i].id != s[j].id
}

pub open spec fn has_id(s: Seq<Instance>, id: InstanceId) -> bool {
    exists|i: int| 0 <= i < s.len() && s[i].id == id
}

pub open spec fn index_of(s: Seq<Instance>, id: InstanceId) -> int {
    choose|i: int| 0 <= i < s.len() && s[i].id == id
}

/// The stored instance `id` (meaningful when `has_id(s, id)`).
pub open spec fn rec(s: Seq<Instance>, id: InstanceId) -> Instance {
    s[index_of(s, id)]
}

/// The ids of the instances other than `x` whose commands interfere with `c`.
pub open spec fn interfering(s: Seq<Instance>, c: Command, x: InstanceId) -> Set<InstanceId> {
    Set::new(
        |d: InstanceId|
            exists|i: int| 0 <= i < s.len() && s[i].id == d && d != x && conflicts(s[i].command, c),
    )
}

/// Those ids, in log order.
pub open spec fn interfering_seq(s: Seq<Instance>, c: Command, x: InstanceId) -> Seq<InstanceId>
    decreases s.len(),
{
    if s.len() == 0 {
        seq![]
    } else {
        let p = interfering_seq(s.drop_last(), c, x);
        if s.last().id != x && conflicts(s.last().command, c) {
            p.push(s.last().id)
        } else {
            p
        }
    }
}

/// The largest `seq` among those instances, 0 if there is none.
pub open spec fn max_interfering_seq(s: Seq<Instance>, c: Command, x: InstanceId) -> nat
    decreases s.len(),
{
    if s.len() == 0 {
        0
    } else {
        let m = max_interfering_seq(s.drop_last(), c, x);
        if s.last().id != x && conflicts(s.last().command, c) && s.last().seq > m {
            s.last().seq as nat
        } else {
            m
        }
    }
}

/// The `seq` a replica proposes for `c`: one above every interfering
/// instance, held at `u64::MAX`.
pub open spec fn local_seq(s: Seq<Instance>, c: Command, x: InstanceId) -> u64 {
    if max_interfering_seq(s, c, x) + 1 > u64::MAX {
        u64::MAX
    } else {
        (max_interfering_seq(s, c, x) + 1) as u64
    }
}

pub open spec fn max_u64(a: u64, b: u64) -> u64 {
    if a >= b {
        a
    } else {
        b
    }
}

/// `new` is `old` with the instance `id` written or appended, the others kept.
pub open spec fn written(old: Seq<Instance>, new: Seq<Instance>, id: InstanceId) -> bool {
    &&& ids_unique(new)
    &&& has_id(new, id)
    &&& has_id(old, id) ==> new.len() == old.len() && index_of(new, id) == index_of(old, id)
    &&& !has_id(old, id) ==> new.len() == old.len() + 1 && new.last().id == id
    &&& forall|j: int| 0 <= j < old.len() && old[j].id != id ==> new[j] == old[j]
}

/// A PreAccept or Accept whose ballot is below the stored one.
pub open spec fn stale(s: Seq<Instance>, id: InstanceId, ballot: u64) -> bool {
    has_id(s, id) && ballot < rec(s, id).ballot
}

/// Every instance decided in `old` is still decided in `new`, with the same
/// command, deps and seq.
pub open spec fn keeps_decided(old: Seq<Instance>, new: Seq<Instance>) -> bool {
    forall|id: InstanceId|
        #[trigger] has_id(old, id) && decided(rec(old, id).status) ==> has_id(new, id) && decided(
            rec(new, id).status,
        ) && rec(new, id).command == rec(old, id).command && rec(new, id).deps@ == rec(
            old,
            id,
        ).deps@ && rec(new, id).seq == rec(old, id).seq
}

/// Decided values are final across any number of steps that each keep them.
pub proof fn lemma_keeps_decided_trans(a: Seq<Instance>, b: Seq<Instance>, c: Seq<Instance>)
    requires
        keeps_decided(a, b),
        keeps_decided(b, c),
    ensures
        keeps_decided(a, c),
{
    assert forall|id: InstanceId| #[trigger] has_id(a, id) && decided(rec(a, id).status) implies has_id(
        c,
        id,
    ) && decided(rec(c, id).status) && rec(c, id).command == rec(a, id).command && rec(c, id).deps@
        == rec(a, id).deps@ && rec(c, id).seq == rec(a, id).seq by {
        assert(has_id(b, id));
    }
}

proof fn lemma_written_keeps(old: Seq<Instance>, new: Seq<Instance>, id: InstanceId)
    requires
        ids_unique(old),
        written(old, new, id),
        !(has_id(old, id) && decided(rec(old, id).status)),
    ensures
        keeps_decided(old, new),
{
    assert forall|y: InstanceId| #[trigger] has_id(old, y) && decided(rec(old, y).status) implies has_id(
        new,
        y,
    ) && decided(rec(new, y).status) && rec(new, y).command == rec(old, y).command && rec(new, y).deps@
        == rec(old, y).deps@ && rec(new, y).seq == rec(old, y).seq by {
        let j = index_of(old, y);
        lemma_rec_at(old, j);
        assert(y != id);
        assert(new[j] == old[j]);
        lemma_rec_at(new, j);
    }
}

pub proof fn lemma_rec_at(s: Seq<Instance>, i: int)
    requires
        ids_unique(s),
        0 <= i < s.len(),
    ensures
        has_id(s, s[i].id),
        index_of(s, s[i].id) == i,
        rec(s, s[i].id) == s[i],
{
    assert(has_id(s, s[i].id));
}

proof fn lemma_interfering_seq(s: Seq<Instance>, c: Command, x: InstanceId)
    ensures
        interfering_seq(s, c, x).to_set() == interfering(s, c, x),
    decreases s.len(),
{
    if s.len() > 0 {
        let t = s.drop_last();
        lemma_interfering_seq(t, c, x);
        let p = interfering_seq(t, c, x);
        assert forall|d: InstanceId| interfering_seq(s, c, x).to_set().contains(d) == interfering(
            s,
            c,
            x,
        ).contains(d) by {
            if interfering(t, c, x).contains(d) {
                let i = choose|i: int|
                    0 <= i < t.len() && t[i].id == d && d != x && conflicts(t[i].command, c);
                assert(s[i] == t[i]);
            }
            if interfering(s, c, x).contains(d) {
                let i = choose|i: int|
                    0 <= i < s.len() && s[i].id == d && d != x && conflicts(s[i].command, c);
                if i < t.len() {
                    assert(t[i] == s[i]);
                    assert(interfering(t, c, x).contains(d));
                }
            }
            if s.last().id != x && conflicts(s.last().command, c) {
                assert(p.push(s.last().id).contains(d) == (p.contains(d) || d == s.last().id)) by {
                    if p.push(s.last().id).contains(d) {
                        let k = choose|k: int|
                            0 <= k < p.len() + 1 && p.push(s.last().id)[k] == d;
                        if k < p.len() {
                            assert(p[k] == d);
                        }
                    }
                    if p.contains(d) {
                        let k = choose|k: int| 0 <= k < p.len() && p[k] == d;
                        assert(p.push(s.last().id)[k] == d);
                    }
                    if d == s.last().id {
                        assert(p.push(s.last().id)[p.len() as int] == d);
                    }
                }
                if d == s.last().id {
                    assert(s[s.len() - 1].id == d);
                }
            }
        }
        assert(interfering_seq(s, c, x).to_set() =~= interfering(s, c, x));
    } else {
        assert(interfering(s, c, x) =~= Set::empty());
        assert(interfering_seq(s, c, x).to_set() =~= Set::empty());
    }
}

/// One replica's instances.
pub struct InstanceLog {
    entries: Vec<Instance>,
}

impl View for InstanceLog {
    type V = Seq<Instance>;

    closed spec fn view(&self) -> Seq<Instance> {
        self.entries@
    }
}

impl InstanceLog {
    pub open spec fn wf(&self) -> bool {
        ids_unique(self@)
    }

    /// A log without instances.
    pub fn new() -> (r: InstanceLog)
        ensures
            r@ == Seq::<Instance>::empty(),
            r.wf(),
    {
        InstanceLog { entries: Vec::new() }
    }

    pub fn len(&self) -> (r: usize)
        ensures
            r == self@.len(),
    {
        self.entries.len()
    }

    pub fn entry(&self, i: usize) -> (r: &Instance)
        requires
            i < self@.len(),
        ensures
            *r == self@[i as int],
    {
        &self.entries[i]
    }

    /// The position of the instance `id`, if it is stored.
    pub fn find(&self, id: InstanceId) -> (r: Option<usize>)
        requires
            self.wf(),
        ensures
            match r {
                Some(i) => i < self@.len() && self@[i as int].id == id && index_of(self@, id) == i,
                None => !has_id(self@, id),
            },
    {
        let mut i: usize = 0;
        while i < self.entries.len()
            invariant
                i <= self@.len(),
                self.wf(),
                forall|j: int| 0 <= j < i ==> self@[j].id != id,
            decreases self@.len() - i,
        {
            if self.entries[i].id == id {
                proof {
                    lemma_rec_at(self@, i as int);
                }
                return Some(i);
            }
            i += 1;
        }
        None
    }

    /// The instances other than `x` that interfere with `c`, and the `seq`
    /// this replica would give `c`.
    pub fn local_attributes(&self, c: &Command, x: InstanceId) -> (r: (Vec<InstanceId>, u64))
        ensures
            r.0@ == interfering_seq(self@, *c, x),
            r.0@.to_set() == interfering(self@, *c, x),
            r.1 == local_seq(self@, *c, x),
    {
        let ghost s = self@;
        let mut deps: Vec<InstanceId> = Vec::new();
        let mut m: u64 = 0;
        let mut i: usize = 0;
        while i < self.entries.len()
            invariant
                i <= s.len(),
                s == self@,
                deps@ == interfering_seq(s.subrange(0, i as int), *c, x),
                m == max_interfering_seq(s.subrange(0, i as int), *c, x),
            decreases s.len() - i,
        {
            let e = &self.entries[i];
            proof {
                assert(s.subrange(0, i + 1).drop_last() =~= s.subrange(0, i as int));
                assert(s.subrange(0, i + 1).last() == s[i as int]);
            }
            if e.id != x && interferes(&e.command, c) {
                deps.push(e.id);
                if e.seq > m {
                    m = e.seq;
                }
            }
            i += 1;
        }
        proof {
            assert(s.subrange(0, s.len() as int) =~= s);
            lemma_interfering_seq(s, *c, x);
        }
        let seq = if m == u64::MAX {
            m
        } else {
            m + 1
        };
        (deps, seq)
    }

    /// Writes `inst` at position `at`, or appends it when `at` is `None`.
    fn write(&mut self, at: Option<usize>, inst: Instance)
        requires
            old(self).wf(),
            match at {
                Some(i) => i < old(self)@.len() && old(self)@[i as int].id == inst.id,
                None => !has_id(old(self)@, inst.id),
            },
        ensures
            written(old(self)@, final(self)@, inst.id),
            rec(final(self)@, inst.id) == inst,
    {
        let ghost s0 = self@;
        let id = inst.id;
        match at {
            Some(i) => {
                self.entries.set(i, inst);
                proof {
                    assert forall|a: int, b: int|
                        0 <= a < self@.len() && 0 <= b < self@.len() && a != b implies self@[a].id
                        != self@[b].id by {
                        assert(self@[a].id == s0[a].id && self@[b].id == s0[b].id);
                    }
                    lemma_rec_at(s0, i as int);
                    lemma_rec_at(self@, i as int);
                }
            },
            None => {
                self.entries.push(inst);
                proof {
                    let n = s0.len() as int;
                    assert forall|a: int, b: int|
                        0 <= a < self@.len() && 0 <= b < self@.len() && a != b implies self@[a].id
                        != self@[b].id by {
                        if a == n {
                            assert(s0[b].id == self@[b].id);
                        } else if b == n {
                            assert(s0[a].id == self@[a].id);
                        }
                    }
                    lemma_rec_at(self@, n);
                }
            },
        }
    }

    /// Acceptor side of PreAccept. A stale ballot is refused. An instance
    /// already Accepted, Committed or Executed keeps its values and reports
    /// them. Otherwise the instance becomes PreAccepted with the proposed
    /// deps merged with every interfering local instance (and any deps it
    /// already had), and `seq` the larger of the proposed one and the local
    /// estimate.
    pub fn handle_pre_accept(&mut self, m: &PreAccept) -> (r: Result<PreAcceptOk, ProtocolError>)
        requires
            old(self).wf(),
        ensures
            final(self).wf(),
            keeps_decided(old(self)@, final(self)@),
            stale(old(self)@, m.id, m.ballot) ==> r == Err::<PreAcceptOk, ProtocolError>(
                ProtocolError::StaleBallot,
            ) && final(self)@ == old(self)@,
            !stale(old(self)@, m.id, m.ballot) && has_id(old(self)@, m.id) && rank(
                rec(old(self)@, m.id).status,
            ) >= 1 ==> final(self)@ == old(self)@ && r is Ok && r->Ok_0.id == m.id
                && r->Ok_0.deps@ == rec(old(self)@, m.id).deps@ && r->Ok_0.seq == rec(
                old(self)@,
                m.id,
            ).seq,
            !stale(old(self)@, m.id, m.ballot) && !(has_id(old(self)@, m.id) && rank(
                rec(old(self)@, m.id).status,
            ) >= 1) ==> {
                let n = rec(final(self)@, m.id);
                &&& written(old(self)@, final(self)@, m.id)
                &&& n.command == m.command
                &&& n.ballot == m.ballot
                &&& n.status == Status::PreAccepted
                &&& n.seq == max_u64(m.seq, local_seq(old(self)@, m.command, m.id))
                &&& n.deps@.to_set() == m.deps@.to_set() + interfering(
                    old(self)@,
                    m.command,
                    m.id,
                ) + (if has_id(old(self)@, m.id) {
                    rec(old(self)@, m.id).deps@.to_set()
                } else {
                    Set::empty()
                })
                &&& r is Ok && r->Ok_0.id == m.id && r->Ok_0.deps@ == n.deps@ && r->Ok_0.seq
                    == n.seq
            },
    {
        let at = self.find(m.id);
        if let Some(i) = at {
            if m.ballot < self.entries[i].ballot {
                return Err(ProtocolError::StaleBallot);
            }
            match self.entries[i].status {
                Status::PreAccepted => {},
                _ => {
                    let e = &self.entries[i];
                    return Ok(PreAcceptOk { id: m.id, deps: e.deps.clone(), seq: e.seq });
                },
            }
        }
        let (local, local_seq) = self.local_attributes(&m.command, m.id);
        let mut deps = m.deps.clone();
        merge_ids(&mut deps, &local);
        match at {
            Some(i) => merge_ids(&mut deps, &self.entries[i].deps),
            None => {},
        }
        let seq = if m.seq >= local_seq {
            m.seq
        } else {
            local_seq
        };
        let reply = PreAcceptOk { id: m.id, deps: deps.clone(), seq };
        let inst = Instance {
            id: m.id,
            command: m.command,
            seq,
            deps,
            ballot: m.ballot,
            status: Status::PreAccepted,
        };
        self.write(at, inst);
        proof {
            lemma_written_keeps(old(self)@, self@, m.id);
            if has_id(old(self)@, m.id) {
            } else {
                assert(deps@.to_set() =~= deps@.to_set() + Set::empty());
            }
        }
        Ok(reply)
    }
    /// Acceptor side of Accept. A stale ballot is refused; a Committed or
    /// Executed instance is left as it is; otherwise the instance becomes
    /// Accepted with exactly the given command, deps, seq and ballot.
    pub fn handle_accept(&mut self, m: &Accept) -> (r: Result<AcceptOk, ProtocolError>)
        requires
            old(self).wf(),
        ensures
            final(self).wf(),
            keeps_decided(old(self)@, final(self)@),
            stale(old(self)@, m.id, m.ballot) ==> r == Err::<AcceptOk, ProtocolError>(
                ProtocolError::StaleBallot,
            ) && final(self)@ == old(self)@,
            !stale(old(self)@, m.id, m.ballot) ==> r is Ok && r->Ok_0.id == m.id,
            !stale(old(self)@, m.id, m.ballot) && has_id(old(self)@, m.id) && decided(
                rec(old(self)@, m.id).status,
            ) ==> final(self)@ == old(self)@,
            !stale(old(self)@, m.id, m.ballot) && !(has_id(old(self)@, m.id) && decided(
                rec(old(self)@, m.id).status,
            )) ==> {
                let n = rec(final(self)@, m.id);
                &&& written(old(self)@, final(self)@, m.id)
                &&& n.command == m.command
                &&& n.deps@ == m.deps@
                &&& n.seq == m.seq
                &&& n.ballot == m.ballot
                &&& n.status == Status::Accepted
            },
    {
        let at = self.find(m.id);
        if let Some(i) = at {
            if m.ballot < self.entries[i].ballot {
                return Err(ProtocolError::StaleBallot);
            }
            if self.entries[i].status.is_decided() {
                return Ok(AcceptOk { id: m.id });
            }
        }
        let inst = Instance {
            id: m.id,
            command: m.command,
            seq: m.seq,
            deps: m.deps.clone(),
            ballot: m.ballot,
            status: Status::Accepted,
        };
        self.write(at, inst);
        proof {
            lemma_written_keeps(old(self)@, self@, m.id);
        }
        Ok(AcceptOk { id: m.id })
    }

    /// Acceptor side of Commit. Commit is not ballot-fenced. An instance
    /// already Committed or Executed is left as it is and `false` is
    /// returned; otherwise the instance becomes Committed with the given
    /// command, deps and seq (keeping its ballot), and `true` says it is new
    /// work for the execution engine.
    pub fn handle_commit(&mut self, m: &Commit) -> (r: bool)
        requires
            old(self).wf(),
        ensures
            final(self).wf(),
            keeps_decided(old(self)@, final(self)@),
            r == !(has_id(old(self)@, m.id) && decided(rec(old(self)@, m.id).status)),
            !r ==> final(self)@ == old(self)@,
            r ==> {
                let n = rec(final(self)@, m.id);
                &&& written(old(self)@, final(self)@, m.id)
                &&& n.command == m.command
                &&& n.deps@ == m.deps@
                &&& n.seq == m.seq
                &&& n.ballot == (if has_id(old(self)@, m.id) {
                    rec(old(self)@, m.id).ballot
                } else {
                    0
                })
                &&& n.status == Status::Committed
            },
    {
        let at = self.find(m.id);
        let mut ballot: u64 = 0;
        if let Some(i) = at {
            if self.entries[i].status.is_decided() {
                return false;
            }
            ballot = self.entries[i].ballot;
        }
        let inst = Instance {
            id: m.id,
            command: m.command,
            seq: m.seq,
            deps: m.deps.clone(),
            ballot,
            status: Status::Committed,
        };
        self.write(at, inst);
        proof {
            lemma_written_keeps(old(self)@, self@, m.id);
        }
        true
    }
    /// Marks the instance at position `i` Executed, changing nothing else.
    pub fn mark_executed(&mut self, i: usize)
        requires
            old(self).wf(),
            i < old(self)@.len(),
        ensures
            final(self).wf(),
            keeps_decided(old(self)@, final(self)@),
            final(self)@.len() == old(self)@.len(),
            forall|j: int| 0 <= j < old(self)@.len() && j != i ==> final(self)@[j] == old(self)@[j],
            final(self)@[i as int].id == old(self)@[i as int].id,
            final(self)@[i as int].command == old(self)@[i as int].command,
            final(self)@[i as int].seq == old(self)@[i as int].seq,
            final(self)@[i as int].deps@ == old(self)@[i as int].deps@,
            final(self)@[i as int].ballot == old(self)@[i as int].ballot,
            final(self)@[i as int].status == Status::Executed,
    {
        let ghost s0 = self@;
        let e = &self.entries[i];
        let inst = Instance {
            id: e.id,
            command: e.command,
            seq: e.seq,
            deps: e.deps.clone(),
            ballot: e.ballot,
            status: Status::Executed,
        };
        self.entries.set(i, inst);
        proof {
            assert(self@[i as int].deps@ == s0[i as int].deps@);
            assert forall|a: int, b: int|
                0 <= a < self@.len() && 0 <= b < self@.len() && a != b implies self@[a].id
                != self@[b].id by {
                assert(self@[a].id == s0[a].id && self@[b].id == s0[b].id);
            }
            assert forall|y: InstanceId| #[trigger] has_id(s0, y) && decided(rec(s0, y).status) implies has_id(
                self@,
                y,
            ) && decided(rec(self@, y).status) && rec(self@, y).command == rec(s0, y).command && rec(
                self@,
                y,
            ).deps@ == rec(s0, y).deps@ && rec(self@, y).seq == rec(s0, y).seq by {
                let j = index_of(s0, y);
                lemma_rec_at(s0, j);
                assert(self@[j].id == y);
                lemma_rec_at(self@, j);
            }
        }
    }
}

} // verus!
