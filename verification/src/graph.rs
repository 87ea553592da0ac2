//! The derived lineage graph: a rebuildable index of the artifact edges
//! implied by committed events.
//!
//! For an event, every consumed artifact is a parent of every produced
//! artifact. Edges are only ever added, and adding is idempotent, so the
//! graph built incrementally equals the graph rebuilt by replaying the
//! same events. Traversals track visited nodes and terminate on cycles;
//! a cycle is reported as a warning, never a failure.

use crate::types::{Event, EventV};
use vstd::prelude::*;

verus! {

broadcast use vstd::seq_lib::group_seq_properties;

/// The directed lineage edges, each recorded once.
pub struct LineageGraph {
    pub edges: Vec<(u64, u64)>,
}

/// The edge pairs implied by one event: every consumed artifact points to
/// every produced artifact.
pub open spec fn pair_set(ins: Seq<u64>, outs: Seq<u64>) -> Set<(u64, u64)> {
    Set::new(|p: (u64, u64)| ins.contains(p.0) && outs.contains(p.1))
}

/// The edge pairs implied by one event.
pub open spec fn event_pairs(e: EventV) -> Set<(u64, u64)> {
    pair_set(e.in_artifacts, e.out_artifacts)
}

/// The graph implied by a sequence of events: the union of their edges.
pub open spec fn graph_of(events: Seq<EventV>) -> Set<(u64, u64)>
    decreases events.len(),
{
    if events.len() == 0 {
        Set::empty()
    } else {
        graph_of(events.drop_last()).union(event_pairs(events.last()))
    }
}

/// Unfolds [`graph_of`] one event at a time from the front.
pub proof fn lemma_graph_of_snoc(events: Seq<EventV>, k: int)
    requires
        0 <= k < events.len(),
    ensures
        graph_of(events.take(k + 1)) == graph_of(events.take(k)).union(event_pairs(events[k])),
{
    assert(events.take(k + 1).drop_last() =~= events.take(k));
    assert(events.take(k + 1).last() == events[k]);
}

/// Whether consecutive elements of `p` are all edges of `g`.
pub open spec fn is_path(g: Set<(u64, u64)>, p: Seq<u64>) -> bool {
    forall|i: int| 0 <= i < p.len() - 1 ==> g.contains((#[trigger] p[i], p[i + 1]))
}

/// Whether `b` is reachable from `a` through at least one edge of `g`.
pub open spec fn reaches(g: Set<(u64, u64)>, a: u64, b: u64) -> bool {
    exists|p: Seq<u64>| p.len() >= 2 && p.first() == a && p.last() == b && is_path(g, p)
}

/// The edges of `g`, reversed.
pub open spec fn reversed(g: Set<(u64, u64)>) -> Set<(u64, u64)> {
    Set::new(|p: (u64, u64)| g.contains((p.1, p.0)))
}

/// One edge extends reachability by one step.
pub proof fn lemma_reaches_step(g: Set<(u64, u64)>, a: u64, v: u64, w: u64)
    requires
        v == a || reaches(g, a, v),
        g.contains((v, w)),
    ensures
        reaches(g, a, w),
{
    if v == a {
        let p = seq![a, w];
        assert(is_path(g, p));
        assert(p.len() >= 2 && p.first() == a && p.last() == w);
    } else {
        let p = choose|p: Seq<u64>|
            p.len() >= 2 && p.first() == a && p.last() == v && is_path(g, p);
        let q = p.push(w);
        assert forall|i: int| 0 <= i < q.len() - 1 implies g.contains(
            (#[trigger] q[i], q[i + 1]),
        ) by {
            if i < p.len() - 1 {
                assert(q[i] == p[i] && q[i + 1] == p[i + 1]);
            } else {
                assert(q[i] == p.last() && q[i + 1] == w);
            }
        }
        assert(q.len() >= 2 && q.first() == a && q.last() == w && is_path(g, q));
    }
}

/// Every node of a path out of `s` stays inside a closed node set.
///
/// A set of nodes is closed when every edge leaving it lands in it.
proof fn lemma_path_stays_in_closed(g: Set<(u64, u64)>, nodes: Seq<u64>, p: Seq<u64>)
    requires
        p.len() >= 1,
        nodes.contains(p.first()),
        is_path(g, p),
        forall|x: u64, y: u64|
            g.contains((x, y)) && nodes.contains(x) ==> nodes.contains(y),
    ensures
        nodes.contains(p.last()),
    decreases p.len(),
{
    if p.len() > 1 {
        assert(g.contains((p[0], p[1])));
        let q = p.drop_first();
        assert(is_path(g, q)) by {
            assert forall|i: int| 0 <= i < q.len() - 1 implies g.contains(
                (#[trigger] q[i], q[i + 1]),
            ) by {
                assert(q[i] == p[i + 1] && q[i + 1] == p[i + 2]);
            }
        }
        lemma_path_stays_in_closed(g, nodes, q);
    }
}

/// A path in the reversed graph is a path backwards in the graph.
#[verifier::rlimit(50)]
proof fn lemma_reverse_path(g: Set<(u64, u64)>, p: Seq<u64>)
    requires
        is_path(reversed(g), p),
    ensures
        is_path(g, p.reverse()),
{
    let q = p.reverse();
    assert forall|i: int| 0 <= i < q.len() - 1 implies g.contains((#[trigger] q[i], q[i + 1])) by {
        let n = p.len();
        assert(q[i] == p[n - 1 - i] && q[i + 1] == p[n - 2 - i]);
        assert(reversed(g).contains((p[n - 2 - i], p[n - 1 - i])));
    }
}

/// Reaching in the reversed graph is being reached in the graph.
pub proof fn lemma_reaches_reversed(g: Set<(u64, u64)>, a: u64, b: u64)
    ensures
        reaches(reversed(g), a, b) == reaches(g, b, a),
{
    if reaches(reversed(g), a, b) {
        let p = choose|p: Seq<u64>|
            p.len() >= 2 && p.first() == a && p.last() == b && is_path(reversed(g), p);
        lemma_reverse_path(g, p);
        let q = p.reverse();
        assert(q.len() >= 2 && q.first() == b && q.last() == a && is_path(g, q));
    }
    if reaches(g, b, a) {
        let p = choose|p: Seq<u64>|
            p.len() >= 2 && p.first() == b && p.last() == a && is_path(g, p);
        assert(is_path(reversed(reversed(g)), p)) by {
            assert forall|i: int| 0 <= i < p.len() - 1 implies reversed(reversed(g)).contains(
                (#[trigger] p[i], p[i + 1]),
            ) by {
                assert(g.contains((p[i], p[i + 1])));
            }
        }
        lemma_reverse_path(reversed(g), p);
        let q = p.reverse();
        assert(q.len() >= 2 && q.first() == a && q.last() == b && is_path(reversed(g), q));
    }
}

/// A node lies on a cycle exactly when some node it can reach (or itself)
/// has an edge back to it.
pub proof fn lemma_cycle_back_edge(g: Set<(u64, u64)>, v: u64)
    ensures
        reaches(g, v, v) == (exists|x: u64|
            (x == v || reaches(g, v, x)) && #[trigger] g.contains((x, v))),
{
    if reaches(g, v, v) {
        let p = choose|p: Seq<u64>|
            p.len() >= 2 && p.first() == v && p.last() == v && is_path(g, p);
        let n = p.len();
        let x = p[n - 2];
        assert(g.contains((p[n - 2], p[n - 1])));
        if n == 2 {
            assert(x == v && g.contains((x, v)));
        } else {
            let q = p.take(n - 1);
            assert(is_path(g, q)) by {
                assert forall|i: int| 0 <= i < q.len() - 1 implies g.contains(
                    (#[trigger] q[i], q[i + 1]),
                ) by {
                    assert(q[i] == p[i] && q[i + 1] == p[i + 1]);
                }
            }
            assert(q.len() >= 2 && q.first() == v && q.last() == x);
            assert(reaches(g, v, x) && g.contains((x, v)));
        }
    }
    if exists|x: u64| (x == v || reaches(g, v, x)) && #[trigger] g.contains((x, v)) {
        let x = choose|x: u64| (x == v || reaches(g, v, x)) && #[trigger] g.contains((x, v));
        lemma_reaches_step(g, v, x, v);
    }
}

/// Whether `b` is the head of some edge, in the given direction.
pub open spec fn is_target(es: Seq<(u64, u64)>, rev: bool, b: u64) -> bool {
    exists|j: int|
        0 <= j < es.len() && (if rev {
            (#[trigger] es[j]).0
        } else {
            es[j].1
        }) == b
}

/// Distinct nodes that are all edge heads (or the start node) are no more
/// numerous than the edges plus one.
proof fn lemma_visited_bound(visited: Seq<u64>, es: Seq<(u64, u64)>, rev: bool, start: u64)
    requires
        visited.no_duplicates(),
        forall|b: u64| #[trigger] visited.contains(b) ==> b == start || is_target(es, rev, b),
    ensures
        visited.len() <= es.len() + 1,
{
    broadcast use vstd::set::group_set_axioms;
    broadcast use vstd::seq_lib::seq_to_set_is_finite;

    let to_seq = Seq::new(
        es.len(),
        |j: int|
            if rev {
                es[j].0
            } else {
                es[j].1
            },
    );
    visited.unique_seq_to_set();
    to_seq.lemma_cardinality_of_set();
    let bound_set = to_seq.to_set().insert(start);
    assert(visited.to_set().subset_of(bound_set)) by {
        assert forall|b: u64| visited.to_set().contains(b) implies bound_set.contains(b) by {
            assert(visited.contains(b));
            if b != start {
                let j = choose|j: int|
                    0 <= j < es.len() && (if rev {
                        (#[trigger] es[j]).0
                    } else {
                        es[j].1
                    }) == b;
                assert(to_seq[j] == b);
                assert(to_seq.contains(b));
            }
        }
    }
    vstd::set_lib::lemma_len_subset(visited.to_set(), bound_set);
}

/// Whether a vector of identifiers contains `x`.
fn contains_id(v: &Vec<u64>, x: u64) -> (r: bool)
    ensures
        r == v@.contains(x),
{
    let mut i: usize = 0;
    while i < v.len()
        invariant
            i <= v@.len(),
            forall|j: int| 0 <= j < i ==> v@[j] != x,
        decreases v@.len() - i,
    {
        if v[i] == x {
            return true;
        }
        i += 1;
    }
    false
}

/// The direct successors of `a` among `es`, in edge order.
pub open spec fn spec_children(es: Seq<(u64, u64)>, a: u64) -> Seq<u64>
    decreases es.len(),
{
    if es.len() == 0 {
        Seq::empty()
    } else {
        spec_children(es.drop_last(), a) + if es.last().0 == a {
            seq![es.last().1]
        } else {
            Seq::empty()
        }
    }
}

/// The direct predecessors of `a` among `es`, in edge order.
pub open spec fn spec_parents(es: Seq<(u64, u64)>, a: u64) -> Seq<u64>
    decreases es.len(),
{
    if es.len() == 0 {
        Seq::empty()
    } else {
        spec_parents(es.drop_last(), a) + if es.last().1 == a {
            seq![es.last().0]
        } else {
            Seq::empty()
        }
    }
}

/// Membership in [`spec_children`] is having the forward edge.
pub proof fn lemma_spec_children_contains(es: Seq<(u64, u64)>, a: u64, y: u64)
    ensures
        spec_children(es, a).contains(y) == es.contains((a, y)),
    decreases es.len(),
{
    if es.len() > 0 {
        lemma_spec_children_contains(es.drop_last(), a, y);
        assert(es.contains((a, y)) == (es.drop_last().contains((a, y)) || es.last() == (a, y)))
            by {
            if es.contains((a, y)) {
                let i = choose|i: int| 0 <= i < es.len() && es[i] == (a, y);
                if i < es.len() - 1 {
                    assert(es.drop_last()[i] == (a, y));
                }
            }
            if es.drop_last().contains((a, y)) {
                let i = choose|i: int| 0 <= i < es.drop_last().len() && es.drop_last()[i] == (a, y);
                assert(es[i] == (a, y));
            }
        }
        let tail = if es.last().0 == a {
            seq![es.last().1]
        } else {
            Seq::<u64>::empty()
        };
        assert(spec_children(es, a).contains(y) == (spec_children(es.drop_last(), a).contains(y)
            || tail.contains(y))) by {
            let s = spec_children(es.drop_last(), a);
            if s.contains(y) {
                let i = choose|i: int| 0 <= i < s.len() && s[i] == y;
                assert((s + tail)[i] == y);
            }
            if tail.contains(y) {
                let i = choose|i: int| 0 <= i < tail.len() && tail[i] == y;
                assert((s + tail)[s.len() + i] == y);
            }
            if (s + tail).contains(y) {
                let i = choose|i: int| 0 <= i < (s + tail).len() && (s + tail)[i] == y;
                if i < s.len() {
                    assert(s[i] == y);
                } else {
                    assert(tail[i - s.len()] == y);
                }
            }
        }
        if tail.contains(y) {
            assert(es.last() == (a, y));
        }
        if es.last() == (a, y) {
            assert(tail == seq![y]);
            assert(tail[0] == y);
        }
    }
}

/// Membership in [`spec_parents`] is having the backward edge.
pub proof fn lemma_spec_parents_contains(es: Seq<(u64, u64)>, a: u64, x: u64)
    ensures
        spec_parents(es, a).contains(x) == es.contains((x, a)),
    decreases es.len(),
{
    if es.len() > 0 {
        lemma_spec_parents_contains(es.drop_last(), a, x);
        assert(es.contains((x, a)) == (es.drop_last().contains((x, a)) || es.last() == (x, a)))
            by {
            if es.contains((x, a)) {
                let i = choose|i: int| 0 <= i < es.len() && es[i] == (x, a);
                if i < es.len() - 1 {
                    assert(es.drop_last()[i] == (x, a));
                }
            }
            if es.drop_last().contains((x, a)) {
                let i = choose|i: int| 0 <= i < es.drop_last().len() && es.drop_last()[i] == (x, a);
                assert(es[i] == (x, a));
            }
        }
        let tail = if es.last().1 == a {
            seq![es.last().0]
        } else {
            Seq::<u64>::empty()
        };
        assert(spec_parents(es, a).contains(x) == (spec_parents(es.drop_last(), a).contains(x)
            || tail.contains(x))) by {
            let s = spec_parents(es.drop_last(), a);
            if s.contains(x) {
                let i = choose|i: int| 0 <= i < s.len() && s[i] == x;
                assert((s + tail)[i] == x);
            }
            if tail.contains(x) {
                let i = choose|i: int| 0 <= i < tail.len() && tail[i] == x;
                assert((s + tail)[s.len() + i] == x);
            }
            if (s + tail).contains(x) {
                let i = choose|i: int| 0 <= i < (s + tail).len() && (s + tail)[i] == x;
                if i < s.len() {
                    assert(s[i] == x);
                } else {
                    assert(tail[i - s.len()] == x);
                }
            }
        }
        if tail.contains(x) {
            assert(es.last() == (x, a));
        }
        if es.last() == (x, a) {
            assert(tail == seq![x]);
            assert(tail[0] == x);
        }
    }
}

/// With distinct edges the direct children are pairwise distinct.
pub proof fn lemma_children_no_dup(es: Seq<(u64, u64)>, a: u64)
    requires
        es.no_duplicates(),
    ensures
        spec_children(es, a).no_duplicates(),
    decreases es.len(),
{
    if es.len() > 0 {
        let head = es.drop_last();
        assert(head.no_duplicates());
        lemma_children_no_dup(head, a);
        let s = spec_children(head, a);
        if es.last().0 == a {
            let y = es.last().1;
            assert(!s.contains(y)) by {
                if s.contains(y) {
                    lemma_spec_children_contains(head, a, y);
                    let i = choose|i: int| 0 <= i < head.len() && head[i] == (a, y);
                    assert(es[i] == es[es.len() - 1]);
                }
            }
            let whole = s + seq![y];
            assert forall|m: int, n: int| 0 <= m < n < whole.len() implies whole[m] != whole[n] by {
                if n == s.len() {
                    assert(whole[n] == y);
                    assert(s.contains(s[m]));
                }
            }
        } else {
            assert(spec_children(es, a) =~= s);
        }
    }
}

/// With distinct edges the direct parents are pairwise distinct.
pub proof fn lemma_parents_no_dup(es: Seq<(u64, u64)>, a: u64)
    requires
        es.no_duplicates(),
    ensures
        spec_parents(es, a).no_duplicates(),
    decreases es.len(),
{
    if es.len() > 0 {
        let head = es.drop_last();
        assert(head.no_duplicates());
        lemma_parents_no_dup(head, a);
        let s = spec_parents(head, a);
        if es.last().1 == a {
            let x = es.last().0;
            assert(!s.contains(x)) by {
                if s.contains(x) {
                    lemma_spec_parents_contains(head, a, x);
                    let i = choose|i: int| 0 <= i < head.len() && head[i] == (x, a);
                    assert(es[i] == es[es.len() - 1]);
                }
            }
            let whole = s + seq![x];
            assert forall|m: int, n: int| 0 <= m < n < whole.len() implies whole[m] != whole[n] by {
                if n == s.len() {
                    assert(whole[n] == x);
                    assert(s.contains(s[m]));
                }
            }
        } else {
            assert(spec_parents(es, a) =~= s);
        }
    }
}

/// Unfolds [`spec_children`] one edge at a time from the front.
pub proof fn lemma_spec_children_snoc(es: Seq<(u64, u64)>, a: u64, k: int)
    requires
        0 <= k < es.len(),
    ensures
        spec_children(es.take(k + 1), a) == spec_children(es.take(k), a) + if es[k].0 == a {
            seq![es[k].1]
        } else {
            Seq::<u64>::empty()
        },
{
    assert(es.take(k + 1).drop_last() =~= es.take(k));
    assert(es.take(k + 1).last() == es[k]);
}

/// Unfolds [`spec_parents`] one edge at a time from the front.
pub proof fn lemma_spec_parents_snoc(es: Seq<(u64, u64)>, a: u64, k: int)
    requires
        0 <= k < es.len(),
    ensures
        spec_parents(es.take(k + 1), a) == spec_parents(es.take(k), a) + if es[k].1 == a {
            seq![es[k].0]
        } else {
            Seq::<u64>::empty()
        },
{
    assert(es.take(k + 1).drop_last() =~= es.take(k));
    assert(es.take(k + 1).last() == es[k]);
}

impl LineageGraph {
    /// The graph as a set of directed edges.
    pub open spec fn edge_set(self) -> Set<(u64, u64)> {
        Set::new(|p: (u64, u64)| self.edges@.contains(p))
    }

    /// Every edge is recorded once.
    pub open spec fn wf(self) -> bool {
        self.edges@.no_duplicates()
    }

    /// An empty graph.
    pub fn new() -> (r: LineageGraph)
        ensures
            r.wf(),
            r.edge_set() == Set::<(u64, u64)>::empty(),
    {
        let r = LineageGraph { edges: Vec::new() };
        proof {
            assert(r.edge_set() =~= Set::<(u64, u64)>::empty());
        }
        r
    }

    /// Whether the edge `x -> y` is recorded.
    fn has_edge(&self, x: u64, y: u64) -> (r: bool)
        ensures
            r == self.edge_set().contains((x, y)),
    {
        let mut i: usize = 0;
        while i < self.edges.len()
            invariant
                i <= self.edges@.len(),
                forall|j: int| 0 <= j < i ==> self.edges@[j] != (x, y),
            decreases self.edges@.len() - i,
        {
            if self.edges[i].0 == x && self.edges[i].1 == y {
                proof {
                    assert(self.edges@[i as int] == (x, y));
                }
                return true;
            }
            i += 1;
        }
        false
    }

    /// Records every edge implied by `e`, skipping edges already present.
    ///
    /// Replaying the same event any number of times leaves the graph
    /// unchanged after the first: the new edge set is a union, and union
    /// with the same pairs is idempotent.
    pub fn record_edges(&mut self, e: &Event)
        requires
            old(self).wf(),
        ensures
            final(self).wf(),
            final(self).edge_set() == old(self).edge_set().union(event_pairs(e@)),
    {
        let ins = &e.in_artifacts;
        let outs = &e.out_artifacts;
        let mut i: usize = 0;
        while i < ins.len()
            invariant
                i <= ins@.len(),
                self.wf(),
                self.edge_set() == old(self).edge_set().union(
                    pair_set(ins@.take(i as int), outs@),
                ),
            decreases ins@.len() - i,
        {
            let mut j: usize = 0;
            while j < outs.len()
                invariant
                    i < ins@.len(),
                    j <= outs@.len(),
                    self.wf(),
                    self.edge_set() == old(self).edge_set().union(
                        pair_set(ins@.take(i as int), outs@),
                    ).union(pair_set(seq![ins@[i as int]], outs@.take(j as int))),
                decreases outs@.len() - j,
            {
                let x = ins[i];
                let y = outs[j];
                let ghost before = self.edge_set();
                if !self.has_edge(x, y) {
                    let ghost pre = self.edges@;
                    self.edges.push((x, y));
                    proof {
                        assert(!pre.contains((x, y)));
                        assert(self.edges@ == pre.push((x, y)));
                        assert(self.edges@.no_duplicates()) by {
                            assert forall|m: int, n: int|
                                0 <= m < n < self.edges@.len() implies self.edges@[m]
                                != self.edges@[n] by {
                                if n == pre.len() {
                                    assert(pre.contains(pre[m]));
                                }
                            }
                        }
                        assert(self.edge_set() =~= before.insert((x, y)));
                    }
                }
                proof {
                    assert(seq![ins@[i as int]].contains(ins@[i as int]));
                    assert(outs@.take(j + 1).contains(outs@[j as int])) by {
                        assert(outs@.take(j + 1)[j as int] == outs@[j as int]);
                    }
                    assert forall|p: (u64, u64)|
                        pair_set(seq![ins@[i as int]], outs@.take(j + 1)).contains(p) implies
                        pair_set(seq![ins@[i as int]], outs@.take(j as int)).contains(p) || p == (
                            x,
                            y,
                        ) by {
                        let t = outs@.take(j + 1);
                        let k = choose|k: int| 0 <= k < t.len() && t[k] == p.1;
                        if k < j {
                            assert(outs@.take(j as int)[k] == p.1);
                        }
                        assert(seq![ins@[i as int]].contains(p.0) ==> p.0 == ins@[i as int]);
                    }
                    assert(self.edge_set() =~= old(self).edge_set().union(
                        pair_set(ins@.take(i as int), outs@),
                    ).union(pair_set(seq![ins@[i as int]], outs@.take(j + 1))));
                }
                j += 1;
            }
            proof {
                assert(outs@.take(outs@.len() as int) =~= outs@);
                assert forall|p: (u64, u64)|
                    pair_set(ins@.take(i + 1), outs@).contains(p) implies pair_set(
                    ins@.take(i as int),
                    outs@,
                ).contains(p) || pair_set(seq![ins@[i as int]], outs@).contains(p) by {
                    let t = ins@.take(i + 1);
                    let k = choose|k: int| 0 <= k < t.len() && t[k] == p.0;
                    if k < i {
                        assert(ins@.take(i as int)[k] == p.0);
                    } else {
                        assert(seq![ins@[i as int]][0] == p.0);
                    }
                }
                assert(ins@.take(i + 1).contains(ins@[i as int])) by {
                    assert(ins@.take(i + 1)[i as int] == ins@[i as int]);
                }
                assert forall|p: (u64, u64)|
                    pair_set(ins@.take(i as int), outs@).contains(p) || pair_set(
                    seq![ins@[i as int]],
                    outs@,
                ).contains(p) implies pair_set(ins@.take(i + 1), outs@).contains(p) by {
                    if pair_set(ins@.take(i as int), outs@).contains(p) {
                        let k = choose|k: int|
                            0 <= k < ins@.take(i as int).len() && ins@.take(i as int)[k] == p.0;
                        assert(ins@.take(i + 1)[k] == p.0);
                    }
                }
                assert(self.edge_set() =~= old(self).edge_set().union(
                    pair_set(ins@.take(i + 1), outs@),
                ));
            }
            i += 1;
        }
        proof {
            assert(ins@.take(ins@.len() as int) =~= ins@);
        }
    }

    /// Rebuilds the graph by replaying committed events in commit order.
    ///
    /// The result is the graph implied by the events, so it equals any
    /// graph maintained incrementally over the same events.
    pub fn rebuild(events: &Vec<Event>) -> (r: LineageGraph)
        ensures
            r.wf(),
            r.edge_set() == graph_of(events.deep_view()),
    {
        let mut g = LineageGraph::new();
        let mut k: usize = 0;
        while k < events.len()
            invariant
                k <= events@.len(),
                g.wf(),
                events.deep_view().len() == events@.len(),
                forall|j: int| 0 <= j < events@.len() ==> events.deep_view()[j] == events@[j]@,
                g.edge_set() == graph_of(events.deep_view().take(k as int)),
            decreases events@.len() - k,
        {
            g.record_edges(&events[k]);
            proof {
                lemma_graph_of_snoc(events.deep_view(), k as int);
            }
            k += 1;
        }
        proof {
            assert(events.deep_view().take(events@.len() as int) =~= events.deep_view());
        }
        g
    }

    /// The direct children of `a`, in edge order, each once.
    pub fn children_of(&self, a: u64) -> (r: Vec<u64>)
        requires
            self.wf(),
        ensures
            r@ == spec_children(self.edges@, a),
            forall|y: u64|
                #![trigger r@.contains(y)]
                #![trigger self.edge_set().contains((a, y))]
                r@.contains(y) == self.edge_set().contains((a, y)),
    {
        let mut r: Vec<u64> = Vec::new();
        let mut k: usize = 0;
        while k < self.edges.len()
            invariant
                k <= self.edges@.len(),
                r@ == spec_children(self.edges@.take(k as int), a),
            decreases self.edges@.len() - k,
        {
            proof {
                lemma_spec_children_snoc(self.edges@, a, k as int);
            }
            if self.edges[k].0 == a {
                r.push(self.edges[k].1);
                proof {
                    assert(r@ =~= spec_children(self.edges@.take(k + 1), a));
                }
            } else {
                proof {
                    assert(r@ =~= spec_children(self.edges@.take(k + 1), a));
                }
            }
            k += 1;
        }
        proof {
            assert(self.edges@.take(self.edges@.len() as int) =~= self.edges@);
            assert forall|y: u64| #![all_triggers] true implies r@.contains(y) == self.edge_set()
                .contains((a, y)) by {
                lemma_spec_children_contains(self.edges@, a, y);
            }
        }
        r
    }

    /// The direct parents of `a`, in edge order, each once.
    pub fn parents_of(&self, a: u64) -> (r: Vec<u64>)
        requires
            self.wf(),
        ensures
            r@ == spec_parents(self.edges@, a),
            forall|x: u64|
                #![trigger r@.contains(x)]
                #![trigger self.edge_set().contains((x, a))]
                r@.contains(x) == self.edge_set().contains((x, a)),
    {
        let mut r: Vec<u64> = Vec::new();
        let mut k: usize = 0;
        while k < self.edges.len()
            invariant
                k <= self.edges@.len(),
                r@ == spec_parents(self.edges@.take(k as int), a),
            decreases self.edges@.len() - k,
        {
            proof {
                lemma_spec_parents_snoc(self.edges@, a, k as int);
            }
            if self.edges[k].1 == a {
                r.push(self.edges[k].0);
                proof {
                    assert(r@ =~= spec_parents(self.edges@.take(k + 1), a));
                }
            } else {
                proof {
                    assert(r@ =~= spec_parents(self.edges@.take(k + 1), a));
                }
            }
            k += 1;
        }
        proof {
            assert(self.edges@.take(self.edges@.len() as int) =~= self.edges@);
            assert forall|x: u64| #![all_triggers] true implies r@.contains(x) == self.edge_set()
                .contains((x, a)) by {
                lemma_spec_parents_contains(self.edges@, a, x);
            }
        }
        r
    }

    /// The direction-dependent edge set: forward edges, or reversed for
    /// ancestor traversals.
    pub open spec fn dir_set(self, rev: bool) -> Set<(u64, u64)> {
        if rev {
            reversed(self.edge_set())
        } else {
            self.edge_set()
        }
    }

    /// The nodes reachable from `start` (through at least one edge),
    /// together with `start` itself, each once.
    fn closure_dir(&self, start: u64, rev: bool) -> (r: Vec<u64>)
        requires
            self.wf(),
        ensures
            r@.no_duplicates(),
            forall|b: u64| r@.contains(b) == (b == start || reaches(self.dir_set(rev), start, b)),
    {
        let ghost g = self.dir_set(rev);
        let mut visited: Vec<u64> = Vec::new();
        let mut stack: Vec<u64> = Vec::new();
        visited.push(start);
        stack.push(start);
        while stack.len() > 0
            invariant
                self.wf(),
                g == self.dir_set(rev),
                visited@.no_duplicates(),
                visited@.contains(start),
                visited@.len() <= self.edges@.len() + 1,
                forall|v: u64| stack@.contains(v) ==> visited@.contains(v),
                forall|v: u64|
                    #[trigger] visited@.contains(v) ==> v == start || is_target(
                        self.edges@,
                        rev,
                        v,
                    ),
                forall|v: u64|
                    visited@.contains(v) ==> v == start || #[trigger] reaches(g, start, v),
                forall|x: u64, y: u64|
                    g.contains((x, y)) && visited@.contains(x) && !stack@.contains(x)
                        ==> visited@.contains(y),
            decreases self.edges@.len() + 1 - visited@.len(), stack@.len(),
        {
            let v = stack.pop().unwrap();
            let ghost old_visited_len = visited@.len();
            let ghost old_stack_len = stack@.len();
            let mut k: usize = 0;
            while k < self.edges.len()
                invariant
                    self.wf(),
                    g == self.dir_set(rev),
                    k <= self.edges@.len(),
                    visited@.no_duplicates(),
                    visited@.contains(start),
                    visited@.contains(v),
                    visited@.len() <= self.edges@.len() + 1,
                    visited@.len() >= old_visited_len,
                    visited@.len() > old_visited_len || stack@.len() <= old_stack_len,
                    forall|w: u64|
                        #[trigger] visited@.contains(w) ==> w == start || is_target(
                            self.edges@,
                            rev,
                            w,
                        ),
                    forall|w: u64| stack@.contains(w) ==> visited@.contains(w),
                    forall|w: u64|
                        visited@.contains(w) ==> w == start || #[trigger] reaches(g, start, w),
                    forall|x: u64, y: u64|
                        g.contains((x, y)) && visited@.contains(x) && !stack@.contains(x) && x != v
                            ==> visited@.contains(y),
                    forall|j: int|
                        0 <= j < k ==> {
                            let from = if rev {
                                (#[trigger] self.edges@[j]).1
                            } else {
                                self.edges@[j].0
                            };
                            let to = if rev {
                                self.edges@[j].0
                            } else {
                                self.edges@[j].1
                            };
                            from == v ==> visited@.contains(to)
                        },
                decreases self.edges@.len() - k,
            {
                let e = self.edges[k];
                let from = if rev {
                    e.1
                } else {
                    e.0
                };
                let to = if rev {
                    e.0
                } else {
                    e.1
                };
                if from == v {
                    proof {
                        assert(self.edges@.contains((e.0, e.1)));
                        assert(g.contains((from, to)));
                    }
                    if !contains_id(&visited, to) {
                        proof {
                            lemma_reaches_step(g, start, v, to);
                        }
                        visited.push(to);
                        stack.push(to);
                        proof {
                            assert(is_target(self.edges@, rev, to)) by {
                                assert((if rev {
                                    self.edges@[k as int].0
                                } else {
                                    self.edges@[k as int].1
                                }) == to);
                            }
                            lemma_visited_bound(visited@, self.edges@, rev, start);
                        }
                    }
                }
                k += 1;
            }
            proof {
                assert forall|x: u64, y: u64|
                    g.contains((x, y)) && visited@.contains(x) && !stack@.contains(x) implies
                    visited@.contains(y) by {
                    if x == v {
                        if rev {
                            assert(self.edges@.contains((y, x)));
                            let j = choose|j: int|
                                0 <= j < self.edges@.len() && self.edges@[j] == (y, x);
                            assert(visited@.contains(y));
                        } else {
                            assert(self.edges@.contains((x, y)));
                            let j = choose|j: int|
                                0 <= j < self.edges@.len() && self.edges@[j] == (x, y);
                            assert(visited@.contains(y));
                        }
                    }
                }
            }
        }
        proof {
            assert forall|b: u64| #![all_triggers] true implies visited@.contains(b) == (b == start
                || reaches(g, start, b)) by {
                if b != start && reaches(g, start, b) && !visited@.contains(b) {
                    let p = choose|p: Seq<u64>|
                        p.len() >= 2 && p.first() == start && p.last() == b && is_path(g, p);
                    lemma_path_stays_in_closed(g, visited@, p);
                    assert(false);
                }
            }
        }
        visited
    }

    /// The transitive descendants of `a`: every node reachable from `a`
    /// through at least one forward edge, each once.
    pub fn descendants(&self, a: u64) -> (r: Vec<u64>)
        requires
            self.wf(),
        ensures
            r@.no_duplicates(),
            forall|b: u64|
                #![trigger r@.contains(b)]
                #![trigger reaches(self.edge_set(), a, b)]
                r@.contains(b) == reaches(self.edge_set(), a, b),
    {
        self.transitive_dir(a, false)
    }

    /// The transitive ancestors of `a`: every node from which `a` is
    /// reachable through at least one forward edge, each once.
    pub fn ancestors(&self, a: u64) -> (r: Vec<u64>)
        requires
            self.wf(),
        ensures
            r@.no_duplicates(),
            forall|b: u64|
                #![trigger r@.contains(b)]
                #![trigger reaches(self.edge_set(), b, a)]
                r@.contains(b) == reaches(self.edge_set(), b, a),
    {
        let r = self.transitive_dir(a, true);
        proof {
            assert forall|b: u64| #![all_triggers] true implies r@.contains(b) == reaches(
                self.edge_set(),
                b,
                a,
            ) by {
                lemma_reaches_reversed(self.edge_set(), a, b);
            }
        }
        r
    }

    /// The nodes reachable from `a` through at least one edge in the given
    /// direction: the closure without `a`, unless `a` lies on a cycle.
    fn transitive_dir(&self, a: u64, rev: bool) -> (r: Vec<u64>)
        requires
            self.wf(),
        ensures
            r@.no_duplicates(),
            forall|b: u64|
                #![trigger r@.contains(b)]
                #![trigger reaches(self.dir_set(rev), a, b)]
                r@.contains(b) == reaches(self.dir_set(rev), a, b),
    {
        let cl = self.closure_dir(a, rev);
        let self_reached = self.on_cycle_dir(a, rev);
        let mut r: Vec<u64> = Vec::new();
        let mut k: usize = 0;
        while k < cl.len()
            invariant
                k <= cl@.len(),
                cl@.no_duplicates(),
                r@.no_duplicates(),
                self_reached == reaches(self.dir_set(rev), a, a),
                forall|b: u64|
                    #![trigger cl@.contains(b)]
                    #![trigger reaches(self.dir_set(rev), a, b)]
                    cl@.contains(b) == (b == a || reaches(self.dir_set(rev), a, b)),
                forall|b: u64| r@.contains(b) ==> cl@.take(k as int).contains(b),
                forall|b: u64|
                    r@.contains(b) == (cl@.take(k as int).contains(b) && (b != a || self_reached)),
            decreases cl@.len() - k,
        {
            let b = cl[k];
            proof {
                assert(cl@.take(k + 1) =~= cl@.take(k as int).push(b));
                assert(!cl@.take(k as int).contains(b)) by {
                    if cl@.take(k as int).contains(b) {
                        let j = choose|j: int|
                            0 <= j < k && cl@.take(k as int)[j] == b;
                        assert(cl@[j] == cl@[k as int]);
                    }
                }
            }
            if b != a || self_reached {
                let ghost pre = r@;
                proof {
                    assert(!pre.contains(b));
                }
                r.push(b);
                proof {
                    assert(r@.no_duplicates()) by {
                        assert forall|m: int, n: int|
                            0 <= m < n < r@.len() implies r@[m] != r@[n] by {
                            if n == pre.len() {
                                assert(pre.contains(pre[m]));
                            }
                        }
                    }
                }
            }
            proof {
                assert forall|c: u64| #![all_triggers] true implies r@.contains(c) == (cl@.take(
                    k + 1,
                ).contains(c) && (c != a || self_reached)) by {
                    assert(cl@.take(k + 1).contains(c) == (cl@.take(k as int).contains(c) || c
                        == b));
                }
            }
            k += 1;
        }
        proof {
            assert(cl@.take(cl@.len() as int) =~= cl@);
            assert(cl@.contains(a));
        }
        r
    }

    /// Whether `a` lies on a cycle in the given direction: some node in
    /// its closure has an edge back to `a`.
    fn on_cycle_dir(&self, a: u64, rev: bool) -> (r: bool)
        requires
            self.wf(),
        ensures
            r == reaches(self.dir_set(rev), a, a),
    {
        let ghost g = self.dir_set(rev);
        let cl = self.closure_dir(a, rev);
        let mut k: usize = 0;
        let mut found = false;
        while k < self.edges.len()
            invariant
                self.wf(),
                g == self.dir_set(rev),
                k <= self.edges@.len(),
                forall|b: u64|
                    #![trigger cl@.contains(b)]
                    #![trigger reaches(g, a, b)]
                    cl@.contains(b) == (b == a || reaches(g, a, b)),
                found ==> reaches(g, a, a),
                !found ==> forall|j: int|
                    0 <= j < k ==> {
                        let from = if rev {
                            (#[trigger] self.edges@[j]).1
                        } else {
                            self.edges@[j].0
                        };
                        let to = if rev {
                            self.edges@[j].0
                        } else {
                            self.edges@[j].1
                        };
                        !(to == a && cl@.contains(from))
                    },
            decreases self.edges@.len() - k,
        {
            let e = self.edges[k];
            let from = if rev {
                e.1
            } else {
                e.0
            };
            let to = if rev {
                e.0
            } else {
                e.1
            };
            if !found && to == a && contains_id(&cl, from) {
                proof {
                    assert(self.edges@.contains((e.0, e.1)));
                    assert(g.contains((from, to)));
                    lemma_reaches_step(g, a, from, a);
                }
                found = true;
            }
            k += 1;
        }
        proof {
            if !found && reaches(g, a, a) {
                lemma_cycle_back_edge(g, a);
                let x = choose|x: u64| (x == a || reaches(g, a, x)) && #[trigger] g.contains((x, a));
                assert(cl@.contains(x));
                if rev {
                    assert(self.edge_set().contains((a, x)));
                    let j = choose|j: int|
                        0 <= j < self.edges@.len() && self.edges@[j] == (a, x);
                    assert(false);
                } else {
                    assert(self.edge_set().contains((x, a)));
                    let j = choose|j: int|
                        0 <= j < self.edges@.len() && self.edges@[j] == (x, a);
                    assert(false);
                }
            }
        }
        found
    }

    /// Whether any node in scope of `a` — `a` itself, a descendant, or an
    /// ancestor — lies on a cycle.
    pub open spec fn spec_cyclic_near(self, a: u64) -> bool {
        exists|v: u64|
            (v == a || reaches(self.edge_set(), a, v) || reaches(self.edge_set(), v, a))
                && #[trigger] reaches(self.edge_set(), v, v)
    }

    /// Detects a cycle among the nodes a transitive lineage query for `a`
    /// would reach, in either direction.
    pub fn cyclic_near(&self, a: u64) -> (r: bool)
        requires
            self.wf(),
        ensures
            r == self.spec_cyclic_near(a),
    {
        let fwd = self.closure_dir(a, false);
        let bwd = self.closure_dir(a, true);
        let mut k: usize = 0;
        while k < fwd.len()
            invariant
                self.wf(),
                k <= fwd@.len(),
                forall|b: u64|
                    #![trigger fwd@.contains(b)]
                    #![trigger reaches(self.edge_set(), a, b)]
                    fwd@.contains(b) == (b == a || reaches(self.edge_set(), a, b)),
                forall|j: int| 0 <= j < k ==> !reaches(self.edge_set(), #[trigger] fwd@[j], fwd@[j]),
            decreases fwd@.len() - k,
        {
            let v = fwd[k];
            if self.on_cycle_dir(v, false) {
                proof {
                    assert(fwd@.contains(v));
                    assert(v == a || reaches(self.edge_set(), a, v));
                }
                return true;
            }
            k += 1;
        }
        let mut k2: usize = 0;
        while k2 < bwd.len()
            invariant
                self.wf(),
                k2 <= bwd@.len(),
                forall|b: u64|
                    #![trigger bwd@.contains(b)]
                    #![trigger reaches(self.dir_set(true), a, b)]
                    bwd@.contains(b) == (b == a || reaches(self.dir_set(true), a, b)),
                forall|j: int|
                    0 <= j < k2 ==> !reaches(self.edge_set(), #[trigger] bwd@[j], bwd@[j]),
            decreases bwd@.len() - k2,
        {
            let v = bwd[k2];
            if self.on_cycle_dir(v, false) {
                proof {
                    assert(bwd@.contains(v));
                    lemma_reaches_reversed(self.edge_set(), a, v);
                    assert(v == a || reaches(self.edge_set(), v, a));
                }
                return true;
            }
            k2 += 1;
        }
        proof {
            if self.spec_cyclic_near(a) {
                let v = choose|v: u64|
                    (v == a || reaches(self.edge_set(), a, v) || reaches(self.edge_set(), v, a))
                        && #[trigger] reaches(self.edge_set(), v, v);
                if v == a || reaches(self.edge_set(), a, v) {
                    assert(fwd@.contains(v));
                    let j = choose|j: int| 0 <= j < fwd@.len() && fwd@[j] == v;
                    assert(false);
                } else {
                    lemma_reaches_reversed(self.edge_set(), a, v);
                    assert(bwd@.contains(v));
                    let j = choose|j: int| 0 <= j < bwd@.len() && bwd@[j] == v;
                    assert(false);
                }
            }
        }
        false
    }
}

/// Recording the pairs of an event twice yields the graph of recording
/// them once: edge insertion is idempotent.
pub proof fn lemma_record_edges_idempotent(g: Set<(u64, u64)>, e: EventV)
    ensures
        g.union(event_pairs(e)).union(event_pairs(e)) == g.union(event_pairs(e)),
{
    assert(g.union(event_pairs(e)).union(event_pairs(e)) =~= g.union(event_pairs(e)));
}

/// Recording the pairs of two events in either order yields the same
/// graph: edge insertion is commutative.
pub proof fn lemma_record_edges_commutative(g: Set<(u64, u64)>, e1: EventV, e2: EventV)
    ensures
        g.union(event_pairs(e1)).union(event_pairs(e2)) == g.union(event_pairs(e2)).union(
            event_pairs(e1),
        ),
{
    assert(g.union(event_pairs(e1)).union(event_pairs(e2)) =~= g.union(event_pairs(e2)).union(
        event_pairs(e1),
    ));
}

} // verus!
