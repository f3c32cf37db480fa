//! The execution engine. An instance runs once it and everything it reaches
//! through deps are decided, and every instance it reaches that has not run
//! lies on a cycle through it and comes after it in (seq, id) order. Among
//! such instances the first in (seq, id) order runs. This runs strongly
//! connected components dependencies-first, each by ascending (seq, id), and
//! the result depends only on the decided instances.

use vstd::prelude::*;
use vstd::set_lib::{lemma_int_range, lemma_len_subset, set_int_range};
use crate::command::{Command, Location};
use crate::instance::{decided, order_before, runs_before, Instance, InstanceId, Status};
use crate::log::{has_id, ids_unique, index_of, lemma_rec_at, rec, InstanceLog};
use crate::store::{apply_op, ObjectStore};

verus! {

/// What the execution engine reads of an instance: command, deps, seq and
/// status.
pub type Node = (Command, Set<InstanceId>, u64, Status);

/// The dependency graph of a log: each stored instance with its deps as a set.
/// It does not depend on the order in which the log holds the instances.
pub open spec fn graph_of(s: Seq<Instance>) -> Map<InstanceId, Node> {
    Map::new(
        |id: InstanceId| has_id(s, id),
        |id: InstanceId|
            (rec(s, id).command, rec(s, id).deps@.to_set(), rec(s, id).seq, rec(s, id).status),
    )
}

/// `p` follows dependency edges: each node but the last is in the graph and
/// lists the next among its deps.
pub open spec fn is_path(g: Map<InstanceId, Node>, p: Seq<InstanceId>) -> bool {
    &&& p.len() >= 1
    &&& forall|k: int|
        0 <= k < p.len() - 1 ==> g.contains_key(#[trigger] p[k]) && g[p[k]].1.contains(p[k + 1])
}

/// `y` is in the transitive deps closure of `x` (or is `x`).
pub open spec fn reaches(g: Map<InstanceId, Node>, x: InstanceId, y: InstanceId) -> bool {
    exists|p: Seq<InstanceId>| is_path(g, p) && p[0] == x && p.last() == y
}

/// `x` is Committed and everything it reaches is known and Committed or
/// Executed.
pub open spec fn ready(g: Map<InstanceId, Node>, x: InstanceId) -> bool {
    &&& g.contains_key(x)
    &&& g[x].3 == Status::Committed
    &&& forall|y: InstanceId| #[trigger] reaches(g, x, y) ==> g.contains_key(y) && decided(g[y].3)
}

/// `x` may run now: it is ready, and every instance it reaches that has not
/// run yet lies on a cycle through `x` (its strongly connected component)
/// and comes after `x` in (seq, id) order.
pub open spec fn executable(g: Map<InstanceId, Node>, x: InstanceId) -> bool {
    &&& ready(g, x)
    &&& forall|y: InstanceId|
        #[trigger] reaches(g, x, y) && y != x && g[y].3 == Status::Committed ==> reaches(g, y, x)
            && order_before(g[x].2, x, g[y].2, y)
}

/// `x` is the executable instance that comes first in (seq, id) order.
pub open spec fn chosen(g: Map<InstanceId, Node>, x: InstanceId) -> bool {
    &&& executable(g, x)
    &&& forall|y: InstanceId|
        #[trigger] executable(g, y) && y != x ==> order_before(g[x].2, x, g[y].2, y)
}

proof fn lemma_path_extend(g: Map<InstanceId, Node>, p: Seq<InstanceId>, y: InstanceId)
    requires
        is_path(g, p),
        g.contains_key(p.last()),
        g[p.last()].1.contains(y),
    ensures
        is_path(g, p.push(y)),
        p.push(y)[0] == p[0],
        p.push(y).last() == y,
{
    let q = p.push(y);
    assert forall|k: int| 0 <= k < q.len() - 1 implies g.contains_key(#[trigger] q[k]) && g[q[k]].1.contains(
        q[k + 1],
    ) by {
        if k < p.len() - 1 {
            assert(q[k] == p[k] && q[k + 1] == p[k + 1]);
        } else {
            assert(q[k] == p.last());
        }
    }
}

/// A set that holds `x` and, for each member, every dep that is in the graph,
/// holds every node in the graph on a path from `x`; a path from `x` that
/// leaves the graph does so from a member.
proof fn lemma_closed_set(
    g: Map<InstanceId, Node>,
    x: InstanceId,
    m: Set<InstanceId>,
    p: Seq<InstanceId>,
)
    requires
        m.contains(x),
        forall|v: InstanceId| #[trigger] m.contains(v) ==> g.contains_key(v),
        forall|v: InstanceId, y: InstanceId|
            m.contains(v) && #[trigger] g[v].1.contains(y) && g.contains_key(y) ==> m.contains(y),
        is_path(g, p),
        p[0] == x,
    ensures
        g.contains_key(p.last()) ==> m.contains(p.last()),
        !g.contains_key(p.last()) ==> p.len() >= 2 && m.contains(p[p.len() - 2]) && g[p[p.len()
            - 2]].1.contains(p.last()),
    decreases p.len(),
{
    if p.len() > 1 {
        let q = p.drop_last();
        assert forall|k: int| 0 <= k < q.len() - 1 implies g.contains_key(#[trigger] q[k])
            && g[q[k]].1.contains(q[k + 1]) by {
            assert(q[k] == p[k] && q[k + 1] == p[k + 1]);
        }
        lemma_closed_set(g, x, m, q);
        assert(q.last() == p[p.len() - 2]);
        assert(g.contains_key(p[p.len() - 2]));
    }
}

/// The positions of the log that the instance at position `a` reaches, and
/// whether it reaches an instance the log does not hold.
fn reach_from(log: &InstanceLog, a: usize) -> (r: (Vec<bool>, bool))
    requires
        log.wf(),
        a < log@.len(),
    ensures
        r.0@.len() == log@.len(),
        forall|b: int|
            0 <= b < log@.len() ==> r.0@[b] == reaches(graph_of(log@), log@[a as int].id, log@[b].id),
        r.1 == exists|y: InstanceId|
            reaches(graph_of(log@), log@[a as int].id, y) && !graph_of(log@).contains_key(y),
{
    let ghost s = log@;
    let ghost g = graph_of(s);
    let ghost x = s[a as int].id;
    let n = log.len();
    let mut marks: Vec<bool> = Vec::new();
    let mut i: usize = 0;
    while i < n
        invariant
            i <= n,
            n == s.len(),
            marks@.len() == i,
            forall|b: int| 0 <= b < i ==> !marks@[b],
        decreases n - i,
    {
        marks.push(false);
        i += 1;
    }
    marks.set(a, true);
    let mut stack: Vec<usize> = Vec::new();
    stack.push(a);
    let mut missing = false;
    let ghost mut mpos: Set<int> = set![a as int];
    proof {
        lemma_rec_at(s, a as int);
        let p = seq![x];
        assert(is_path(g, p) && p[0] == x && p.last() == x);
        assert(mpos.subset_of(set_int_range(0, n as int)));
        assert(stack@[0] == a);
        assert forall|b: int| 0 <= b < n && marks@[b] implies b == a && stack@.contains(b as usize) by {
            assert(stack@[0] == a);
        }
    }
    while stack.len() > 0
        invariant
            s == log@,
            g == graph_of(s),
            x == s[a as int].id,
            log.wf(),
            a < n,
            n == s.len(),
            marks@.len() == n,
            mpos.finite(),
            mpos.subset_of(set_int_range(0, n as int)),
            forall|b: int| 0 <= b < n ==> (marks@[b] <==> mpos.contains(b)),
            stack@.no_duplicates(),
            forall|k: int| 0 <= k < stack@.len() ==> stack@[k] < n && marks@[stack@[k] as int],
            marks@[a as int],
            forall|b: int| 0 <= b < n && #[trigger] marks@[b] ==> reaches(g, x, s[b].id),
            missing ==> exists|y: InstanceId| reaches(g, x, y) && !g.contains_key(y),
            forall|b: int, d: InstanceId|
                0 <= b < n && marks@[b] && !stack@.contains(b as usize) && #[trigger] s[b].deps@.contains(
                    d,
                ) ==> (has_id(s, d) ==> marks@[index_of(s, d)]) && (!has_id(s, d) ==> missing),
        decreases n - mpos.len(), stack@.len(),
    {
        proof {
            lemma_int_range(0, n as int);
            lemma_len_subset(mpos, set_int_range(0, n as int));
        }
        let ghost mpos0 = mpos;
        let ghost st0 = stack@;
        let v = stack.pop().unwrap();
        let ghost stack1 = stack@;
        proof {
            assert(stack1.no_duplicates());
            assert(!stack1.contains(v)) by {
                if stack1.contains(v) {
                    let k = choose|k: int| 0 <= k < stack1.len() && stack1[k] == v;
                    assert(st0[k] == v);
                }
            }
            assert(st0 == stack1.push(v));
            assert forall|b: usize| b != v && !stack1.contains(b) implies !#[trigger] st0.contains(b) by {
                if st0.contains(b) {
                    let q = choose|q: int| 0 <= q < st0.len() && st0[q] == b;
                    if q < stack1.len() {
                        assert(stack1[q] == b);
                    }
                }
            }
        }
        let deps = &log.entry(v).deps;
        let mut k: usize = 0;
        while k < deps.len()
            invariant
                s == log@,
                g == graph_of(s),
                x == s[a as int].id,
                log.wf(),
                a < n,
                n == s.len(),
                v < n,
                *deps == s[v as int].deps,
                k <= deps@.len(),
                marks@.len() == n,
                mpos.finite(),
                mpos.subset_of(set_int_range(0, n as int)),
                mpos0.subset_of(mpos),
                forall|b: int| 0 <= b < n ==> (marks@[b] <==> mpos.contains(b)),
                stack@.no_duplicates(),
                stack@.len() == stack1.len() + (mpos.len() - mpos0.len()),
                stack@.len() >= stack1.len(),
                forall|j: int| 0 <= j < stack1.len() ==> stack@[j] == stack1[j],
                forall|j: int| 0 <= j < stack@.len() ==> stack@[j] < n && marks@[stack@[j] as int],
                !stack@.contains(v),
                marks@[a as int],
                marks@[v as int],
                forall|b: int| 0 <= b < n && #[trigger] marks@[b] ==> reaches(g, x, s[b].id),
                missing ==> exists|y: InstanceId| reaches(g, x, y) && !g.contains_key(y),
                forall|b: int, d: InstanceId|
                    0 <= b < n && b != v && marks@[b] && !stack@.contains(b as usize)
                        && #[trigger] s[b].deps@.contains(d) ==> (has_id(s, d) ==> marks@[index_of(
                        s,
                        d,
                    )]) && (!has_id(s, d) ==> missing),
                forall|j: int|
                    0 <= j < k ==> (has_id(s, #[trigger] deps@[j]) ==> marks@[index_of(s, deps@[j])])
                        && (!has_id(s, deps@[j]) ==> missing),
            decreases deps@.len() - k,
        {
            let d = deps[k];
            let ghost marks_i = marks@;
            let ghost stack_i = stack@;
            let ghost missing_i = missing;
            proof {
                lemma_rec_at(s, v as int);
                let pv = choose|p: Seq<InstanceId>| is_path(g, p) && p[0] == x && p.last() == s[v as int].id;
                assert(s[v as int].deps@.contains(d));
                assert(g[s[v as int].id].1.contains(d));
                lemma_path_extend(g, pv, d);
                assert(reaches(g, x, d));
            }
            match log.find(d) {
                None => {
                    missing = true;
                },
                Some(j) => {
                    if !marks[j] {
                        let ghost st = stack@;
                        marks.set(j, true);
                        stack.push(j);
                        proof {
                            assert(!mpos.contains(j as int));
                            mpos = mpos.insert(j as int);
                            assert(!st.contains(j)) by {
                                if st.contains(j) {
                                    let q = choose|q: int| 0 <= q < st.len() && st[q] == j;
                                    assert(marks@[j as int]);
                                }
                            }
                            assert(stack@ == st.push(j));
                            assert forall|q: usize| st.contains(q) implies stack@.contains(q) by {
                                let w = choose|w: int| 0 <= w < st.len() && st[w] == q;
                                assert(stack@[w] == q);
                            }
                            assert forall|w: int| 0 <= w < stack1.len() implies stack@[w] == stack1[w] by {
                                assert(stack@[w] == st[w]);
                            }
                            assert(stack@[stack@.len() - 1] == j);
                        }
                    }
                },
            }
            proof {
                assert forall|b: int, dd: InstanceId|
                    0 <= b < n && b != v && marks@[b] && !stack@.contains(b as usize)
                        && #[trigger] s[b].deps@.contains(dd) implies (has_id(s, dd) ==> marks@[index_of(
                        s,
                        dd,
                    )]) && (!has_id(s, dd) ==> missing) by {
                    if !marks_i[b] {
                        assert(stack@[stack@.len() - 1] == b as usize);
                    }
                    if stack_i.contains(b as usize) {
                        let w = choose|w: int| 0 <= w < stack_i.len() && stack_i[w] == b as usize;
                        assert(stack@[w] == b as usize);
                    }
                    if has_id(s, dd) {
                        assert(marks_i[index_of(s, dd)]);
                    }
                }
            }
            k += 1;
        }
        proof {
            assert forall|b: int, dd: InstanceId|
                0 <= b < n && marks@[b] && !stack@.contains(b as usize)
                    && #[trigger] s[b].deps@.contains(dd) implies (has_id(s, dd) ==> marks@[index_of(s, dd)])
                    && (!has_id(s, dd) ==> missing) by {
                if b == v {
                    let j = choose|j: int| 0 <= j < deps@.len() && deps@[j] == dd;
                }
            }
            if mpos.len() == mpos0.len() {
                assert(stack@.len() == stack1.len());
            } else {
                lemma_len_subset(mpos0, mpos);
            }
            lemma_len_subset(mpos, set_int_range(0, n as int));
        }
    }
    proof {
        let m = Set::new(|y: InstanceId| has_id(s, y) && marks@[index_of(s, y)]);
        assert forall|v: InstanceId| #[trigger] m.contains(v) implies g.contains_key(v) by {}
        assert forall|v: InstanceId, y: InstanceId|
            m.contains(v) && #[trigger] g[v].1.contains(y) && g.contains_key(y) implies m.contains(y) by {
            let b = index_of(s, v);
            assert(s[b].id == v);
            assert(s[b].deps@.contains(y));
        }
        assert(m.contains(x));
        assert forall|b: int| 0 <= b < n implies marks@[b] == reaches(g, x, s[b].id) by {
            lemma_rec_at(s, b);
            if reaches(g, x, s[b].id) {
                let p = choose|p: Seq<InstanceId>| is_path(g, p) && p[0] == x && p.last() == s[b].id;
                lemma_closed_set(g, x, m, p);
            }
        }
        if exists|y: InstanceId| reaches(g, x, y) && !g.contains_key(y) {
            let y = choose|y: InstanceId| reaches(g, x, y) && !g.contains_key(y);
            let p = choose|p: Seq<InstanceId>| is_path(g, p) && p[0] == x && p.last() == y;
            lemma_closed_set(g, x, m, p);
            let w = p[p.len() - 2];
            let b = index_of(s, w);
            assert(s[b].id == w);
            assert(s[b].deps@.contains(y));
        }
    }
    (marks, missing)
}

/// Reachability between every two positions of the log, and for each
/// position whether it reaches an instance the log does not hold.
fn reach_table(log: &InstanceLog) -> (r: (Vec<Vec<bool>>, Vec<bool>))
    requires
        log.wf(),
    ensures
        r.0@.len() == log@.len(),
        r.1@.len() == log@.len(),
        forall|a: int| 0 <= a < log@.len() ==> (#[trigger] r.0@[a])@.len() == log@.len(),
        forall|a: int, b: int|
            0 <= a < log@.len() && 0 <= b < log@.len() ==> #[trigger] r.0@[a]@[b] == reaches(
                graph_of(log@),
                log@[a].id,
                log@[b].id,
            ),
        forall|a: int|
            0 <= a < log@.len() ==> #[trigger] r.1@[a] == exists|y: InstanceId|
                reaches(graph_of(log@), log@[a].id, y) && !graph_of(log@).contains_key(y),
{
    let n = log.len();
    let mut rows: Vec<Vec<bool>> = Vec::new();
    let mut missing: Vec<bool> = Vec::new();
    let mut a: usize = 0;
    while a < n
        invariant
            a <= n,
            n == log@.len(),
            log.wf(),
            rows@.len() == a,
            missing@.len() == a,
            forall|i: int| 0 <= i < a ==> (#[trigger] rows@[i])@.len() == n,
            forall|i: int, b: int|
                0 <= i < a && 0 <= b < n ==> #[trigger] rows@[i]@[b] == reaches(
                    graph_of(log@),
                    log@[i].id,
                    log@[b].id,
                ),
            forall|i: int|
                0 <= i < a ==> #[trigger] missing@[i] == exists|y: InstanceId|
                    reaches(graph_of(log@), log@[i].id, y) && !graph_of(log@).contains_key(y),
        decreases n - a,
    {
        let (row, miss) = reach_from(log, a);
        rows.push(row);
        missing.push(miss);
        a += 1;
    }
    (rows, missing)
}

/// Decides `executable` for the instance at position `a`.
fn executable_at(log: &InstanceLog, rows: &Vec<Vec<bool>>, missing: &Vec<bool>, a: usize) -> (r: bool)
    requires
        log.wf(),
        a < log@.len(),
        rows@.len() == log@.len(),
        missing@.len() == log@.len(),
        forall|i: int| 0 <= i < log@.len() ==> (#[trigger] rows@[i])@.len() == log@.len(),
        forall|i: int, b: int|
            0 <= i < log@.len() && 0 <= b < log@.len() ==> #[trigger] rows@[i]@[b] == reaches(
                graph_of(log@),
                log@[i].id,
                log@[b].id,
            ),
        forall|i: int|
            0 <= i < log@.len() ==> #[trigger] missing@[i] == exists|y: InstanceId|
                reaches(graph_of(log@), log@[i].id, y) && !graph_of(log@).contains_key(y),
    ensures
        r == executable(graph_of(log@), log@[a as int].id),
{
    let ghost s = log@;
    let ghost g = graph_of(s);
    let ghost x = s[a as int].id;
    proof {
        lemma_rec_at(s, a as int);
    }
    let ea = log.entry(a);
    match ea.status {
        Status::Committed => {},
        _ => {
            return false;
        },
    }
    if missing[a] {
        return false;
    }
    let n = log.len();
    proof {
        assert(!missing@[a as int]);
    }
    let mut b: usize = 0;
    while b < n
        invariant
            b <= n,
            n == s.len(),
            s == log@,
            g == graph_of(s),
            x == s[a as int].id,
            *ea == s[a as int],
            ids_unique(s),
            !(exists|y: InstanceId| reaches(g, x, y) && !g.contains_key(y)),
            a < n,
            rows@.len() == n,
            forall|i: int| 0 <= i < n ==> (#[trigger] rows@[i])@.len() == n,
            forall|i: int, c: int|
                0 <= i < n && 0 <= c < n ==> #[trigger] rows@[i]@[c] == reaches(g, s[i].id, s[c].id),
            forall|c: int|
                0 <= c < b && reaches(g, x, s[c].id) ==> decided(#[trigger] s[c].status) && (c != a
                    && s[c].status == Status::Committed ==> reaches(g, s[c].id, x) && order_before(
                    s[a as int].seq,
                    x,
                    s[c].seq,
                    s[c].id,
                )),
        decreases n - b,
    {
        if rows[a][b] {
            let eb = log.entry(b);
            if !eb.status.is_decided() {
                proof {
                    lemma_rec_at(s, b as int);
                    assert(reaches(g, x, s[b as int].id));
                }
                return false;
            }
            if b != a {
                match eb.status {
                    Status::Committed => {
                        if !rows[b][a] || !runs_before(ea.seq, ea.id, eb.seq, eb.id) {
                            proof {
                                lemma_rec_at(s, b as int);
                                assert(reaches(g, x, s[b as int].id));
                                assert(s[b as int].id != x);
                            }
                            return false;
                        }
                    },
                    _ => {},
                }
            }
        }
        b += 1;
    }
    proof {
        assert forall|y: InstanceId| #[trigger] reaches(g, x, y) implies g.contains_key(y) && decided(
            g[y].3,
        ) by {
            let c = index_of(s, y);
            lemma_rec_at(s, c);
        }
        assert forall|y: InstanceId|
            #[trigger] reaches(g, x, y) && y != x && g[y].3 == Status::Committed implies reaches(
            g,
            y,
            x,
        ) && order_before(g[x].2, x, g[y].2, y) by {
            let c = index_of(s, y);
            lemma_rec_at(s, c);
        }
    }
    true
}

/// The position of the chosen instance: the executable one first in
/// (seq, id) order, if any instance is executable.
fn next_position(log: &InstanceLog) -> (r: Option<usize>)
    requires
        log.wf(),
    ensures
        match r {
            Some(i) => i < log@.len() && chosen(graph_of(log@), log@[i as int].id),
            None => forall|y: InstanceId| !#[trigger] executable(graph_of(log@), y),
        },
{
    let ghost s = log@;
    let ghost g = graph_of(s);
    let (rows, missing) = reach_table(log);
    let n = log.len();
    let mut best: Option<usize> = None;
    let mut a: usize = 0;
    while a < n
        invariant
            a <= n,
            n == s.len(),
            s == log@,
            g == graph_of(s),
            log.wf(),
            rows@.len() == n,
            missing@.len() == n,
            forall|i: int| 0 <= i < n ==> (#[trigger] rows@[i])@.len() == n,
            forall|i: int, b: int|
                0 <= i < n && 0 <= b < n ==> #[trigger] rows@[i]@[b] == reaches(g, s[i].id, s[b].id),
            forall|i: int|
                0 <= i < n ==> #[trigger] missing@[i] == exists|y: InstanceId|
                    reaches(g, s[i].id, y) && !g.contains_key(y),
            match best {
                Some(i) => i < a && executable(g, s[i as int].id) && forall|c: int|
                    0 <= c < a && c != i && executable(g, #[trigger] s[c].id) ==> order_before(
                        s[i as int].seq,
                        s[i as int].id,
                        s[c].seq,
                        s[c].id,
                    ),
                None => forall|c: int| 0 <= c < a ==> !executable(g, #[trigger] s[c].id),
            },
        decreases n - a,
    {
        if executable_at(log, &rows, &missing, a) {
            match best {
                None => {
                    best = Some(a);
                },
                Some(i) => {
                    let ei = log.entry(i);
                    let ea = log.entry(a);
                    if runs_before(ea.seq, ea.id, ei.seq, ei.id) {
                        best = Some(a);
                        proof {
                            assert forall|c: int|
                                0 <= c < a + 1 && c != a && executable(g, #[trigger] s[c].id)
                                implies order_before(
                                s[a as int].seq,
                                s[a as int].id,
                                s[c].seq,
                                s[c].id,
                            ) by {
                                if c != i {
                                    assert(order_before(s[i as int].seq, s[i as int].id, s[c].seq, s[c].id));
                                }
                            }
                        }
                    } else {
                        proof {
                            assert(s[a as int].id != s[i as int].id);
                        }
                    }
                },
            }
        }
        a += 1;
    }
    proof {
        match best {
            Some(i) => {
                assert forall|y: InstanceId| #[trigger] executable(g, y) && y != s[i as int].id implies order_before(
                    g[s[i as int].id].2,
                    s[i as int].id,
                    g[y].2,
                    y,
                ) by {
                    let c = index_of(s, y);
                    lemma_rec_at(s, c);
                    lemma_rec_at(s, i as int);
                }
            },
            None => {
                assert forall|y: InstanceId| !#[trigger] executable(g, y) by {
                    if executable(g, y) {
                        let c = index_of(s, y);
                        lemma_rec_at(s, c);
                    }
                }
            },
        }
    }
    best
}

/// The graph once `x` has run.
pub open spec fn mark_run(g: Map<InstanceId, Node>, x: InstanceId) -> Map<InstanceId, Node> {
    g.insert(x, (g[x].0, g[x].1, g[x].2, Status::Executed))
}

/// The graph once the instances of `o` have run, in that order.
pub open spec fn state_after(g: Map<InstanceId, Node>, o: Seq<InstanceId>) -> Map<InstanceId, Node>
    decreases o.len(),
{
    if o.len() == 0 {
        g
    } else {
        mark_run(state_after(g, o.drop_last()), o.last())
    }
}

/// Each instance of `o` was the chosen one when it ran.
pub open spec fn valid_order(g: Map<InstanceId, Node>, o: Seq<InstanceId>) -> bool
    decreases o.len(),
{
    if o.len() == 0 {
        true
    } else {
        valid_order(g, o.drop_last()) && chosen(state_after(g, o.drop_last()), o.last())
    }
}

/// The objects once the commands of `o` have been applied, in that order.
pub open spec fn effect(
    m: Map<u128, Location>,
    g: Map<InstanceId, Node>,
    o: Seq<InstanceId>,
) -> Map<u128, Location>
    decreases o.len(),
{
    if o.len() == 0 {
        m
    } else {
        apply_op(effect(m, g, o.drop_last()), g[o.last()].0)
    }
}

/// Committed instances not yet executed.
pub open spec fn pending(s: Seq<Instance>) -> nat
    decreases s.len(),
{
    if s.len() == 0 {
        0
    } else {
        pending(s.drop_last()) + if s.last().status == Status::Committed {
            1nat
        } else {
            0nat
        }
    }
}

proof fn lemma_pending_run(s: Seq<Instance>, t: Seq<Instance>, i: int)
    requires
        0 <= i < s.len(),
        t.len() == s.len(),
        s[i].status == Status::Committed,
        t[i].status == Status::Executed,
        forall|j: int| 0 <= j < s.len() && j != i ==> t[j] == s[j],
    ensures
        pending(t) + 1 == pending(s),
    decreases s.len(),
{
    if i == s.len() - 1 {
        assert(t.drop_last() =~= s.drop_last());
    } else {
        lemma_pending_run(s.drop_last(), t.drop_last(), i);
    }
}

/// Runs the chosen instance, if any: applies its command to the objects and
/// marks it Executed. Returns its id, or `None` when no instance is
/// executable (all done, or waiting on an instance not yet committed).
pub fn execute_next(log: &mut InstanceLog, objects: &mut ObjectStore) -> (r: Option<InstanceId>)
    requires
        old(log).wf(),
        old(objects).wf(),
    ensures
        final(log).wf(),
        final(objects).wf(),
        match r {
            Some(x) => {
                &&& chosen(graph_of(old(log)@), x)
                &&& graph_of(final(log)@) == mark_run(graph_of(old(log)@), x)
                &&& final(objects)@ == apply_op(old(objects)@, graph_of(old(log)@)[x].0)
                &&& pending(final(log)@) + 1 == pending(old(log)@)
            },
            None => {
                &&& forall|y: InstanceId| !#[trigger] executable(graph_of(old(log)@), y)
                &&& final(log)@ == old(log)@
                &&& final(objects)@ == old(objects)@
            },
        },
{
    let ghost s0 = log@;
    let ghost g0 = graph_of(s0);
    match next_position(log) {
        None => None,
        Some(i) => {
            let e = log.entry(i);
            let id = e.id;
            let command = e.command;
            proof {
                lemma_rec_at(s0, i as int);
            }
            objects.apply(&command);
            log.mark_executed(i);
            proof {
                let s = log@;
                let g = graph_of(s);
                assert forall|j: int| 0 <= j < s.len() implies (#[trigger] s[j]).id == s0[j].id by {}
                assert forall|y: InstanceId| has_id(s, y) == has_id(s0, y) by {
                    if has_id(s0, y) {
                        let j = index_of(s0, y);
                        assert(s[j].id == y);
                    }
                    if has_id(s, y) {
                        let j = index_of(s, y);
                        assert(s0[j].id == y);
                    }
                }
                assert forall|y: InstanceId| #[trigger] g.contains_key(y) implies g[y] == mark_run(
                    g0,
                    id,
                )[y] by {
                    let j = index_of(s0, y);
                    lemma_rec_at(s0, j);
                    assert(s[j].id == y);
                    lemma_rec_at(s, j);
                }
                assert(g =~= mark_run(g0, id));
                lemma_pending_run(s0, s, i as int);
            }
            Some(id)
        },
    }
}

/// Runs chosen instances until none is executable; returns them in the
/// order they ran.
pub fn execute_all(log: &mut InstanceLog, objects: &mut ObjectStore) -> (r: Vec<InstanceId>)
    requires
        old(log).wf(),
        old(objects).wf(),
    ensures
        final(log).wf(),
        final(objects).wf(),
        valid_order(graph_of(old(log)@), r@),
        graph_of(final(log)@) == state_after(graph_of(old(log)@), r@),
        forall|y: InstanceId| !#[trigger] executable(state_after(graph_of(old(log)@), r@), y),
        final(objects)@ == effect(old(objects)@, graph_of(old(log)@), r@),
{
    let ghost g0 = graph_of(log@);
    let ghost m0 = objects@;
    let mut order: Vec<InstanceId> = Vec::new();
    loop
        invariant
            g0 == graph_of(old(log)@),
            m0 == old(objects)@,
            log.wf(),
            objects.wf(),
            valid_order(g0, order@),
            graph_of(log@) == state_after(g0, order@),
            objects@ == effect(m0, g0, order@),
        decreases pending(log@),
    {
        let ghost before = order@;
        match execute_next(log, objects) {
            None => {
                return order;
            },
            Some(x) => {
                order.push(x);
                proof {
                    assert(order@.drop_last() =~= before);
                    lemma_state_after_keeps_commands(g0, before, x);
                    assert(order@.last() == x);
                }
            },
        }
    }
}

/// Running instances changes only their status.
proof fn lemma_state_after_keeps_commands(g: Map<InstanceId, Node>, o: Seq<InstanceId>, x: InstanceId)
    requires
        valid_order(g, o),
        state_after(g, o).contains_key(x),
    ensures
        g.contains_key(x),
        state_after(g, o)[x].0 == g[x].0,
    decreases o.len(),
{
    if o.len() > 0 {
        let p = o.drop_last();
        if x != o.last() {
            lemma_state_after_keeps_commands(g, p, x);
        } else {
            assert(state_after(g, p).contains_key(x));
            lemma_state_after_keeps_commands(g, p, x);
        }
    }
}

/// At most one instance is chosen: (seq, id) order is total on distinct ids.
pub proof fn lemma_chosen_unique(g: Map<InstanceId, Node>, x: InstanceId, y: InstanceId)
    requires
        chosen(g, x),
        chosen(g, y),
    ensures
        x == y,
{
    if x != y {
        assert(order_before(g[x].2, x, g[y].2, y));
        assert(order_before(g[y].2, y, g[x].2, x));
    }
}

/// Dependency closure: when an instance that lies on no dependency cycle
/// runs, every instance in its transitive deps closure has already run.
pub proof fn lemma_dependency_closure(g: Map<InstanceId, Node>, x: InstanceId)
    requires
        executable(g, x),
        forall|y: InstanceId| reaches(g, x, y) && y != x ==> !reaches(g, y, x),
    ensures
        forall|y: InstanceId| reaches(g, x, y) && y != x ==> g[y].3 == Status::Executed,
{
    assert forall|y: InstanceId| reaches(g, x, y) && y != x implies g[y].3 == Status::Executed by {
        assert(g.contains_key(y) && decided(g[y].3));
        if g[y].3 == Status::Committed {
            assert(reaches(g, y, x));
        }
    }
}

/// The decided (Committed or Executed) instances of a graph.
pub open spec fn decided_part(g: Map<InstanceId, Node>) -> Map<InstanceId, Node> {
    Map::new(|x: InstanceId| g.contains_key(x) && decided(g[x].3), |x: InstanceId| g[x])
}

proof fn lemma_path_take(g: Map<InstanceId, Node>, p: Seq<InstanceId>, k: int)
    requires
        is_path(g, p),
        1 <= k <= p.len(),
    ensures
        is_path(g, p.take(k)),
        p.take(k)[0] == p[0],
        p.take(k).last() == p[k - 1],
{
    let q = p.take(k);
    assert forall|j: int| 0 <= j < q.len() - 1 implies g.contains_key(#[trigger] q[j]) && g[q[j]].1.contains(
        q[j + 1],
    ) by {
        assert(q[j] == p[j] && q[j + 1] == p[j + 1]);
    }
}

proof fn lemma_path_concat(g: Map<InstanceId, Node>, p: Seq<InstanceId>, q: Seq<InstanceId>)
    requires
        is_path(g, p),
        is_path(g, q),
        p.last() == q[0],
    ensures
        is_path(g, p + q.drop_first()),
        (p + q.drop_first())[0] == p[0],
        (p + q.drop_first()).last() == q.last(),
{
    let r = p + q.drop_first();
    assert forall|j: int| 0 <= j < r.len() - 1 implies g.contains_key(#[trigger] r[j]) && g[r[j]].1.contains(
        r[j + 1],
    ) by {
        if j < p.len() - 1 {
            assert(r[j] == p[j] && r[j + 1] == p[j + 1]);
        } else if j == p.len() - 1 {
            assert(r[j] == q[0] && r[j + 1] == q[1]);
        } else {
            let i = j - p.len() + 1;
            assert(r[j] == q[i] && r[j + 1] == q[i + 1]);
        }
    }
    if q.len() == 1 {
        assert(r =~= p);
    } else {
        assert(r.last() == q.drop_first().last());
    }
}

/// `reaches` is transitive.
proof fn lemma_reaches_trans(g: Map<InstanceId, Node>, x: InstanceId, y: InstanceId, z: InstanceId)
    requires
        reaches(g, x, y),
        reaches(g, y, z),
    ensures
        reaches(g, x, z),
{
    let p = choose|p: Seq<InstanceId>| is_path(g, p) && p[0] == x && p.last() == y;
    let q = choose|q: Seq<InstanceId>| is_path(g, q) && q[0] == y && q.last() == z;
    lemma_path_concat(g, p, q);
}

/// A node of `g2` whose entry matches `g1` where `g1` decides it.
proof fn lemma_same_entry(g1: Map<InstanceId, Node>, g2: Map<InstanceId, Node>, v: InstanceId)
    requires
        decided_part(g1) == decided_part(g2),
        g1.contains_key(v),
        decided(g1[v].3),
    ensures
        g2.contains_key(v),
        g2[v] == g1[v],
{
    assert(decided_part(g1).contains_key(v));
    assert(decided_part(g2).contains_key(v));
    assert(decided_part(g2)[v] == g2[v]);
}

/// From a node that a ready `x` reaches, a path in `g2` is one in `g1` too.
proof fn lemma_path_to_g1(
    g1: Map<InstanceId, Node>,
    g2: Map<InstanceId, Node>,
    x: InstanceId,
    p: Seq<InstanceId>,
)
    requires
        decided_part(g1) == decided_part(g2),
        ready(g1, x),
        is_path(g2, p),
        reaches(g1, x, p[0]),
    ensures
        is_path(g1, p),
    decreases p.len(),
{
    if p.len() > 1 {
        let q = p.drop_last();
        lemma_path_take(g2, p, p.len() - 1);
        assert(q =~= p.take(p.len() - 1));
        lemma_path_to_g1(g1, g2, x, q);
        let w = p[p.len() - 2];
        assert(q.last() == w);
        assert(reaches(g1, p[0], w));
        lemma_reaches_trans(g1, x, p[0], w);
        lemma_same_entry(g1, g2, w);
        assert forall|j: int| 0 <= j < p.len() - 1 implies g1.contains_key(#[trigger] p[j])
            && g1[p[j]].1.contains(p[j + 1]) by {
            if j < p.len() - 2 {
                assert(q[j] == p[j] && q[j + 1] == p[j + 1]);
            }
        }
    }
}

/// From a node that a ready `x` reaches, a path in `g1` is one in `g2` too.
proof fn lemma_path_to_g2(
    g1: Map<InstanceId, Node>,
    g2: Map<InstanceId, Node>,
    x: InstanceId,
    p: Seq<InstanceId>,
)
    requires
        decided_part(g1) == decided_part(g2),
        ready(g1, x),
        is_path(g1, p),
        reaches(g1, x, p[0]),
    ensures
        is_path(g2, p),
{
    assert forall|j: int| 0 <= j < p.len() - 1 implies g2.contains_key(#[trigger] p[j])
        && g2[p[j]].1.contains(p[j + 1]) by {
        lemma_path_take(g1, p, j + 1);
        assert(reaches(g1, p[0], p[j]));
        lemma_reaches_trans(g1, x, p[0], p[j]);
        lemma_same_entry(g1, g2, p[j]);
    }
}

/// Whether an instance is executable depends only on the decided instances.
proof fn lemma_executable_transfer(g1: Map<InstanceId, Node>, g2: Map<InstanceId, Node>, x: InstanceId)
    requires
        decided_part(g1) == decided_part(g2),
        executable(g1, x),
    ensures
        executable(g2, x),
        g2[x] == g1[x],
{
    let tx = seq![x];
    assert(is_path(g1, tx) && tx[0] == x && tx.last() == x);
    lemma_same_entry(g1, g2, x);
    assert forall|y: InstanceId| #[trigger] reaches(g2, x, y) implies reaches(g1, x, y) by {
        let p = choose|p: Seq<InstanceId>| is_path(g2, p) && p[0] == x && p.last() == y;
        lemma_path_to_g1(g1, g2, x, p);
    }
    assert forall|y: InstanceId| #[trigger] reaches(g2, x, y) implies g2.contains_key(y) && decided(
        g2[y].3,
    ) by {
        lemma_same_entry(g1, g2, y);
    }
    assert forall|y: InstanceId|
        #[trigger] reaches(g2, x, y) && y != x && g2[y].3 == Status::Committed implies reaches(
        g2,
        y,
        x,
    ) && order_before(g2[x].2, x, g2[y].2, y) by {
        lemma_same_entry(g1, g2, y);
        let p = choose|p: Seq<InstanceId>| is_path(g1, p) && p[0] == y && p.last() == x;
        lemma_path_to_g2(g1, g2, x, p);
    }
}

/// Runs with the same decided instances leave the same decided instances.
proof fn lemma_mark_run_transfer(g1: Map<InstanceId, Node>, g2: Map<InstanceId, Node>, x: InstanceId)
    requires
        decided_part(g1) == decided_part(g2),
        executable(g1, x),
    ensures
        decided_part(mark_run(g1, x)) == decided_part(mark_run(g2, x)),
{
    lemma_executable_transfer(g1, g2, x);
    let h1 = mark_run(g1, x);
    let h2 = mark_run(g2, x);
    assert forall|v: InstanceId| #[trigger] decided_part(h1).contains_key(v) == decided_part(h2).contains_key(v)
        && (decided_part(h1).contains_key(v) ==> decided_part(h1)[v] == decided_part(h2)[v]) by {
        if v != x {
            if g1.contains_key(v) && decided(g1[v].3) {
                lemma_same_entry(g1, g2, v);
            }
            if g2.contains_key(v) && decided(g2[v].3) {
                assert(decided_part(g2).contains_key(v));
                assert(decided_part(g1).contains_key(v));
            }
        }
    }
    assert(decided_part(h1) =~= decided_part(h2));
}

/// The first `k` instances of a valid order form a valid order, and the next
/// one was chosen after them.
proof fn lemma_valid_prefix(g: Map<InstanceId, Node>, o: Seq<InstanceId>, k: int)
    requires
        valid_order(g, o),
        0 <= k <= o.len(),
    ensures
        valid_order(g, o.take(k)),
        k < o.len() ==> chosen(state_after(g, o.take(k)), o[k]),
        k < o.len() ==> state_after(g, o.take(k + 1)) == mark_run(state_after(g, o.take(k)), o[k]),
    decreases o.len(),
{
    if k == o.len() {
        assert(o.take(k) =~= o);
    } else {
        let p = o.drop_last();
        lemma_valid_prefix(g, p, k);
        assert(p.take(k) =~= o.take(k));
        if k + 1 < o.len() {
            assert(p.take(k + 1) =~= o.take(k + 1));
        } else {
            assert(o.take(k + 1) =~= o);
            assert(o.take(k) =~= p);
        }
        assert(o.take(k + 1).drop_last() =~= o.take(k));
    }
}

/// The effect of a run depends only on the commands of its instances.
proof fn lemma_effect_same(
    m: Map<u128, Location>,
    g1: Map<InstanceId, Node>,
    g2: Map<InstanceId, Node>,
    o: Seq<InstanceId>,
)
    requires
        forall|k: int| 0 <= k < o.len() ==> g1[#[trigger] o[k]].0 == g2[o[k]].0,
    ensures
        effect(m, g1, o) == effect(m, g2, o),
    decreases o.len(),
{
    if o.len() > 0 {
        let p = o.drop_last();
        assert forall|k: int| 0 <= k < p.len() implies g1[#[trigger] p[k]].0 == g2[p[k]].0 by {
            assert(p[k] == o[k]);
        }
        lemma_effect_same(m, g1, g2, p);
        assert(o.last() == o[o.len() - 1]);
    }
}

/// Two valid orders from graphs with the same decided instances agree on
/// their first `k` instances.
proof fn lemma_common_prefix(
    g1: Map<InstanceId, Node>,
    g2: Map<InstanceId, Node>,
    o1: Seq<InstanceId>,
    o2: Seq<InstanceId>,
    k: int,
)
    requires
        decided_part(g1) == decided_part(g2),
        valid_order(g1, o1),
        valid_order(g2, o2),
        0 <= k <= o1.len(),
        k <= o2.len(),
    ensures
        o1.take(k) == o2.take(k),
        decided_part(state_after(g1, o1.take(k))) == decided_part(state_after(g2, o2.take(k))),
        forall|j: int| 0 <= j < k ==> g1[#[trigger] o1[j]].0 == g2[o1[j]].0,
    decreases k,
{
    if k == 0 {
        assert(o1.take(0) =~= o2.take(0));
    } else {
        let i = k - 1;
        lemma_common_prefix(g1, g2, o1, o2, i);
        lemma_valid_prefix(g1, o1, i);
        lemma_valid_prefix(g2, o2, i);
        let s1 = state_after(g1, o1.take(i));
        let s2 = state_after(g2, o2.take(i));
        assert(o1.take(i) == o2.take(i));
        lemma_executable_transfer(s1, s2, o1[i]);
        assert(chosen(s2, o1[i])) by {
            assert forall|y: InstanceId| #[trigger] executable(s2, y) && y != o1[i] implies order_before(
                s2[o1[i]].2,
                o1[i],
                s2[y].2,
                y,
            ) by {
                lemma_executable_transfer(s2, s1, y);
            }
        }
        lemma_chosen_unique(s2, o1[i], o2[i]);
        lemma_mark_run_transfer(s1, s2, o1[i]);
        lemma_valid_prefix(g1, o1, k);
        lemma_valid_prefix(g2, o2, k);
        lemma_valid_prefix(g1, o1, i);
        lemma_state_after_keeps_commands(g1, o1.take(i), o1[i]);
        lemma_state_after_keeps_commands(g2, o2.take(i), o1[i]);
        assert(o1.take(k) =~= o1.take(i).push(o1[i]));
        assert(o2.take(k) =~= o2.take(i).push(o2[i]));
        assert forall|j: int| 0 <= j < k implies g1[#[trigger] o1[j]].0 == g2[o1[j]].0 by {
            if j < i {
            }
        }
    }
}

/// Deterministic execution: two replicas whose logs hold the same decided
/// instances, each running the engine until nothing is executable, run the
/// same instances in the same order and reach the same objects from the same
/// start.
pub proof fn lemma_deterministic_execution(
    g1: Map<InstanceId, Node>,
    g2: Map<InstanceId, Node>,
    o1: Seq<InstanceId>,
    o2: Seq<InstanceId>,
    m: Map<u128, Location>,
)
    requires
        decided_part(g1) == decided_part(g2),
        valid_order(g1, o1),
        valid_order(g2, o2),
        forall|y: InstanceId| !#[trigger] executable(state_after(g1, o1), y),
        forall|y: InstanceId| !#[trigger] executable(state_after(g2, o2), y),
    ensures
        o1 == o2,
        effect(m, g1, o1) == effect(m, g2, o2),
{
    let n = if o1.len() <= o2.len() {
        o1.len() as int
    } else {
        o2.len() as int
    };
    lemma_common_prefix(g1, g2, o1, o2, n);
    lemma_valid_prefix(g1, o1, n);
    lemma_valid_prefix(g2, o2, n);
    if o1.len() > n {
        let s1 = state_after(g1, o1.take(n));
        let s2 = state_after(g2, o2.take(n));
        assert(o2.take(n) =~= o2);
        lemma_executable_transfer(s1, s2, o1[n]);
    }
    if o2.len() > n {
        let s1 = state_after(g1, o1.take(n));
        let s2 = state_after(g2, o2.take(n));
        assert(o1.take(n) =~= o1);
        lemma_executable_transfer(s2, s1, o2[n]);
    }
    assert(o1.take(n) =~= o1);
    assert(o2.take(n) =~= o2);
    lemma_effect_same(m, g1, g2, o1);
}

} // verus!
