use vstd::prelude::*;
use vstd::set_lib::lemma_int_range;
use vstd::set_lib::lemma_len_subset;
use vstd::set_lib::set_int_range;

use crate::edge::Edge;
use crate::edge::EdgeIdx;
use crate::filter::Filter;
use crate::node::NodeIdx;
use crate::pipeline::edge_listed;
use crate::pipeline::Pipeline;

verus! {

/// True when the schedule `s` contains node index `i`.
pub open spec fn sched_contains(s: Seq<NodeIdx>, i: int) -> bool {
    exists|k: int| 0 <= k < s.len() && s[k].idx == i
}

/// A node with incoming edge list `inc` is colored once every producer
/// feeding one of those edges appears in `done`: all of its inputs are
/// already placed, so the node itself can be placed.
pub open spec fn colored(inc: Seq<EdgeIdx>, edges: Seq<Edge>, done: Seq<NodeIdx>) -> bool {
    forall|k: int|
        0 <= k < inc.len() ==> sched_contains(
            done,
            edges[(#[trigger] inc[k]).idx as int].source.idx as int,
        )
}

/// `rank` witnesses that the edge relation is acyclic: every edge goes from
/// a lower-ranked node to a higher-ranked one.
pub open spec fn is_ranking(rank: Map<int, nat>, edges: Seq<Edge>) -> bool {
    forall|j: int|
        0 <= j < edges.len() ==> rank[(#[trigger] edges[j]).source.idx as int]
            < rank[edges[j].sink.idx as int]
}

/// The edge relation admits a ranking, i.e. the graph has no cycle.
pub open spec fn graph_acyclic(edges: Seq<Edge>) -> bool {
    exists|rank: Map<int, nat>| is_ranking(rank, edges)
}

/// Membership in a pushed schedule is membership in the old one, or the
/// pushed entry itself.
proof fn lemma_sched_contains_push(s: Seq<NodeIdx>, v: NodeIdx, x: int)
    ensures
        sched_contains(s.push(v), x) <==> (sched_contains(s, x) || v.idx == x),
{
    if sched_contains(s.push(v), x) {
        let k = choose|k: int| 0 <= k < s.push(v).len() && s.push(v)[k].idx == x;
        if k < s.len() {
            assert(s[k].idx == x);
        }
    }
    if sched_contains(s, x) {
        let k = choose|k: int| 0 <= k < s.len() && s[k].idx == x;
        assert(s.push(v)[k].idx == x);
    }
    if v.idx == x {
        assert(s.push(v)[s.len() as int].idx == x);
    }
}

/// Coloredness only ever grows as the schedule grows.
proof fn lemma_colored_push(inc: Seq<EdgeIdx>, edges: Seq<Edge>, done: Seq<NodeIdx>, v: NodeIdx)
    requires
        colored(inc, edges, done),
    ensures
        colored(inc, edges, done.push(v)),
{
    assert forall|k: int| 0 <= k < inc.len() implies sched_contains(
        done.push(v),
        edges[(#[trigger] inc[k]).idx as int].source.idx as int,
    ) by {
        lemma_sched_contains_push(done, v, edges[inc[k].idx as int].source.idx as int);
    }
}

/// Popping the head of a queue: membership splits into the head and the rest.
proof fn lemma_queue_pop(q: Seq<NodeIdx>, x: int)
    requires
        q.len() > 0,
    ensures
        sched_contains(q, x) <==> (q[0].idx == x || sched_contains(q.remove(0), x)),
{
    let t = q.remove(0);
    if sched_contains(q, x) {
        let k = choose|k: int| 0 <= k < q.len() && q[k].idx == x;
        if k > 0 {
            assert(t[k - 1].idx == x);
        }
    }
    if sched_contains(t, x) {
        let k = choose|k: int| 0 <= k < t.len() && t[k].idx == x;
        assert(q[k + 1].idx == x);
    }
}

/// Popping the head of a duplicate-free queue leaves a duplicate-free queue
/// that no longer holds the head.
proof fn lemma_queue_pop_nodup(q: Seq<NodeIdx>)
    requires
        q.len() > 0,
        q.no_duplicates(),
    ensures
        q.remove(0).no_duplicates(),
        !sched_contains(q.remove(0), q[0].idx as int),
{
    let t = q.remove(0);
    assert forall|i: int, j: int| 0 <= i < j < t.len() implies t[i] != t[j] by {
        assert(t[i] == q[i + 1]);
        assert(t[j] == q[j + 1]);
    }
    if sched_contains(t, q[0].idx as int) {
        let k = choose|k: int| 0 <= k < t.len() && t[k].idx == q[0].idx;
        assert(q[k + 1] == t[k]);
        assert(q[k + 1].idx == q[0].idx);
    }
}

/// A duplicate-free sequence of node handles drawn from `n` distinct indices
/// can hold at most `n` entries.
proof fn lemma_distinct_bounded_len(s: Seq<NodeIdx>, n: int)
    requires
        s.no_duplicates(),
        forall|k: int| 0 <= k < s.len() ==> (#[trigger] s[k]).idx < n,
        0 <= n,
    ensures
        s.len() <= n,
{
    let ids = s.map_values(|v: NodeIdx| v.idx as int);
    assert forall|i: int, j: int| 0 <= i < j < ids.len() implies ids[i] != ids[j] by {
        assert(s[i] != s[j]);
    }
    ids.unique_seq_to_set();
    assert forall|x: int| ids.to_set().contains(x) implies set_int_range(0, n).contains(x) by {
        let k = choose|k: int| 0 <= k < ids.len() && ids[k] == x;
        assert(s[k].idx < n);
    }
    lemma_int_range(0, n);
    lemma_len_subset(ids.to_set(), set_int_range(0, n));
}

/// Pigeonhole step for enqueuing a fresh node: two disjoint duplicate-free
/// pools plus one more distinct index still fit in `n`.
proof fn lemma_fresh_entry_fits(a: Seq<NodeIdx>, b: Seq<NodeIdx>, v: NodeIdx, n: int)
    requires
        a.no_duplicates(),
        b.no_duplicates(),
        forall|k: int| 0 <= k < a.len() ==> (#[trigger] a[k]).idx < n,
        forall|k: int| 0 <= k < b.len() ==> (#[trigger] b[k]).idx < n,
        v.idx < n,
        forall|k1: int, k2: int|
            0 <= k1 < a.len() && 0 <= k2 < b.len() ==> (#[trigger] a[k1]).idx != (
            #[trigger] b[k2]).idx,
        !sched_contains(a, v.idx as int),
        !sched_contains(b, v.idx as int),
        0 <= n,
    ensures
        a.len() + b.len() + 1 <= n,
{
    let c = a + b + seq![v];
    assert forall|i: int, j: int| 0 <= i < j < c.len() implies c[i] != c[j] by {
        let al = a.len() as int;
        let bl = b.len() as int;
        if i < al {
            assert(c[i] == a[i]);
        } else if i < al + bl {
            assert(c[i] == b[i - al]);
        } else {
            assert(c[i] == v);
        }
        if j < al {
            assert(c[j] == a[j]);
        } else if j < al + bl {
            assert(c[j] == b[j - al]);
        } else {
            assert(c[j] == v);
        }
        if i < al && j >= al + bl {
            assert(a[i].idx != v.idx);
        }
        if al <= i && i < al + bl && j >= al + bl {
            assert(b[i - al].idx != v.idx);
        }
    }
    assert forall|k: int| 0 <= k < c.len() implies (#[trigger] c[k]).idx < n by {
        let al = a.len() as int;
        let bl = b.len() as int;
        if k < al {
            assert(c[k] == a[k]);
        } else if k < al + bl {
            assert(c[k] == b[k - al]);
        } else {
            assert(c[k] == v);
        }
    }
    lemma_distinct_bounded_len(c, n);
}

/// In an acyclic well-formed graph, a schedule that is closed under coloring
/// (every colored node is already in it) must contain every node: induction
/// over the node's rank.
proof fn lemma_colored_closure_complete<F: Filter>(
    p: &Pipeline<F>,
    done: Seq<NodeIdx>,
    rank: Map<int, nat>,
    i: int,
)
    requires
        p.wf(),
        is_ranking(rank, p.edges@),
        0 <= i < p.nodes@.len(),
        forall|x: int|
            0 <= x < p.nodes@.len() && colored(
                (#[trigger] p.nodes@[x]).incoming_edges@,
                p.edges@,
                done,
            ) ==> sched_contains(done, x),
    ensures
        sched_contains(done, i),
    decreases rank[i],
{
    let inc = p.nodes@[i].incoming_edges@;
    assert forall|k: int| 0 <= k < inc.len() implies sched_contains(
        done,
        p.edges@[(#[trigger] inc[k]).idx as int].source.idx as int,
    ) by {
        let e = inc[k].idx as int;
        assert(p.edges@[e].sink.idx == i);
        let src = p.edges@[e].source.idx as int;
        assert(rank[src] < rank[i]);
        lemma_colored_closure_complete(p, done, rank, src);
    }
    assert(colored(inc, p.edges@, done));
}

impl<F: Filter> Pipeline<F> {
    /// Scan node `i`'s incoming edges and report whether every producer is
    /// already marked done.
    #[verifier::loop_isolation(false)]
    fn node_colored(&self, i: usize, done_marks: &Vec<bool>, done: Ghost<Seq<NodeIdx>>) -> (r:
        bool)
        requires
            self.wf(),
            i < self.nodes@.len(),
            done_marks@.len() == self.nodes@.len(),
            forall|x: int|
                0 <= x < done_marks@.len() ==> ((#[trigger] done_marks@[x]) == sched_contains(
                    done@,
                    x,
                )),
        ensures
            r == colored(self.nodes@[i as int].incoming_edges@, self.edges@, done@),
    {
        let ghost inc = self.nodes@[i as int].incoming_edges@;
        let node = &self.nodes[i];
        let len = node.incoming_edges.len();
        let mut k: usize = 0;
        while k < len
            invariant
                k <= len,
                forall|k2: int|
                    0 <= k2 < k ==> sched_contains(
                        done@,
                        self.edges@[(#[trigger] inc[k2]).idx as int].source.idx as int,
                    ),
            decreases len - k,
        {
            let e = node.incoming_edges[k];
            let src = self.edges[e.idx].source;
            if !done_marks[src.idx] {
                return false;
            }
            k += 1;
        }
        true
    }

    /// Produce a total visiting order over the nodes consistent with edge
    /// direction: a breadth-first relaxation of Kahn's algorithm.  The work
    /// queue is seeded with the graph's sources; a node is appended to the
    /// schedule, and marked visited, at the moment it is colored (all of its
    /// producers placed), and each append enqueues whichever of its
    /// consumers that append just colored.
    ///
    /// For an acyclic graph the result lists every node exactly once, with
    /// every edge's source placed before its sink.  A graph with no source
    /// nodes yields an empty schedule, and a cyclic region of the graph is
    /// simply never colored, so a cyclic graph yields a partial schedule of
    /// its colorable part rather than a distinct cycle error.  That is a
    /// deliberate choice: a graph whose every node has an incoming edge is
    /// itself cyclic, yet it must yield an empty schedule, not a failure, so
    /// the two reports cannot coexist at this boundary.  A caller that wants
    /// to surface cycles distinctly can compare the schedule's length with
    /// the node count: the contract guarantees they are equal on every
    /// acyclic graph, so a shorter schedule proves a cycle.
    ///
    /// The visiting order is deterministic in fact (sources are seeded in
    /// increasing node-index order into a first-in, first-out worklist),
    /// though the contract pins only the order's topological properties.
    #[verifier::loop_isolation(false)]
    #[verifier::rlimit(100)]
    pub fn make_schedule(&mut self) -> (r: Vec<NodeIdx>)
        requires
            old(self).wf(),
        ensures
            *final(self) == *old(self),
            r@.no_duplicates(),
            forall|k: int| 0 <= k < r@.len() ==> (#[trigger] r@[k]).idx < old(self).nodes@.len(),
            forall|k: int|
                0 <= k < r@.len() ==> colored(
                    old(self).nodes@[(#[trigger] r@[k]).idx as int].incoming_edges@,
                    old(self).edges@,
                    r@.take(k),
                ),
            forall|i: int|
                0 <= i < old(self).nodes@.len() && colored(
                    (#[trigger] old(self).nodes@[i]).incoming_edges@,
                    old(self).edges@,
                    r@,
                ) ==> sched_contains(r@, i),
            graph_acyclic(old(self).edges@) ==> forall|i: int|
                0 <= i < old(self).nodes@.len() ==> sched_contains(r@, i),
            graph_acyclic(old(self).edges@) ==> r@.len() == old(self).nodes@.len(),
            (r@.len() > 0) <==> old(self).has_source_node(),
    {
        let n = self.nodes.len();
        let mut queued: Vec<bool> = vec![false; n];
        let mut done_marks: Vec<bool> = vec![false; n];
        let mut queue: Vec<NodeIdx> = Vec::new();
        let mut sched: Vec<NodeIdx> = Vec::new();

        // Seed the work queue with every node that has no incoming edges.
        let mut i: usize = 0;
        while i < n
            invariant
                i <= n,
                queued@.len() == n,
                forall|x: int|
                    0 <= x < n ==> ((#[trigger] queued@[x]) <==> (x < i
                        && self.nodes@[x].incoming_edges@.len() == 0)),
                forall|k: int| 0 <= k < queue@.len() ==> (#[trigger] queue@[k]).idx < i,
                forall|x: int|
                    0 <= x < n && queued@[x] ==> sched_contains(queue@, x),
                forall|k: int|
                    0 <= k < queue@.len() ==> queued@[(#[trigger] queue@[k]).idx as int],
                queue@.no_duplicates(),
            decreases n - i,
        {
            if self.nodes[i].incoming_edges.len() == 0 {
                let ghost q0 = queue@;
                queue.push(NodeIdx { idx: i });
                let qm = &mut queued[i];
                *qm = true;
                proof {
                    assert forall|x: int| 0 <= x < n && queued@[x] implies sched_contains(
                        queue@,
                        x,
                    ) by {
                        lemma_sched_contains_push(q0, NodeIdx { idx: i }, x);
                    }
                }
            }
            i += 1;
        }

        proof {
            lemma_distinct_bounded_len(queue@, n as int);
            assert forall|x: int|
                0 <= x < n && colored(
                    (#[trigger] self.nodes@[x]).incoming_edges@,
                    self.edges@,
                    sched@,
                ) implies queued@[x] by {
                let inc = self.nodes@[x].incoming_edges@;
                if inc.len() > 0 {
                    assert(sched_contains(sched@, self.edges@[inc[0].idx as int].source.idx as int));
                }
            }
        }

        // Visit the queue in order; every entry is colored by the time it is
        // popped, so it is appended to the schedule at once, and each of its
        // consumers is enqueued at the moment this append colors it.
        while queue.len() > 0
            invariant
                queued@.len() == n,
                done_marks@.len() == n,
                forall|k: int| 0 <= k < queue@.len() ==> (#[trigger] queue@[k]).idx < n,
                forall|k: int| 0 <= k < sched@.len() ==> (#[trigger] sched@[k]).idx < n,
                sched@.no_duplicates(),
                queue@.no_duplicates(),
                forall|k1: int, k2: int|
                    0 <= k1 < sched@.len() && 0 <= k2 < queue@.len() ==> (
                    #[trigger] sched@[k1]).idx != (#[trigger] queue@[k2]).idx,
                forall|x: int|
                    0 <= x < n ==> ((#[trigger] done_marks@[x]) == sched_contains(sched@, x)),
                forall|x: int|
                    0 <= x < n ==> ((#[trigger] queued@[x]) <==> (sched_contains(sched@, x)
                        || sched_contains(queue@, x))),
                forall|k: int|
                    0 <= k < queue@.len() ==> colored(
                        self.nodes@[(#[trigger] queue@[k]).idx as int].incoming_edges@,
                        self.edges@,
                        sched@,
                    ),
                forall|k: int|
                    0 <= k < sched@.len() ==> colored(
                        self.nodes@[(#[trigger] sched@[k]).idx as int].incoming_edges@,
                        self.edges@,
                        sched@.take(k),
                    ),
                forall|x: int|
                    0 <= x < n && colored(
                        (#[trigger] self.nodes@[x]).incoming_edges@,
                        self.edges@,
                        sched@,
                    ) ==> queued@[x],
                sched@.len() + queue@.len() <= n,
            decreases n - sched@.len(),
        {
            let ghost queue0 = queue@;
            let ghost sched0 = sched@;
            let v = queue.remove(0);
            sched.push(v);
            let dm = &mut done_marks[v.idx];
            *dm = true;
            let ghost outg = self.nodes@[v.idx as int].outgoing_edges@;
            proof {
                lemma_queue_pop_nodup(queue0);
                assert forall|x: int| true implies (sched_contains(queue0, x) <==> (queue0[0].idx
                    == x || sched_contains(queue@, x))) by {
                    lemma_queue_pop(queue0, x);
                }
                assert forall|x: int| true implies (sched_contains(sched@, x) <==> (
                sched_contains(sched0, x) || v.idx == x)) by {
                    lemma_sched_contains_push(sched0, v, x);
                }
                // the appended node was colored when it sat in the queue
                assert(sched@.take(sched@.len() - 1) =~= sched0);
                // everything colored before stays colored
                assert forall|k: int|
                    0 <= k < queue@.len() implies colored(
                        self.nodes@[(#[trigger] queue@[k]).idx as int].incoming_edges@,
                        self.edges@,
                        sched@,
                    ) by {
                    assert(queue@[k] == queue0[k + 1]);
                    lemma_colored_push(
                        self.nodes@[queue@[k].idx as int].incoming_edges@,
                        self.edges@,
                        sched0,
                        v,
                    );
                }
                assert forall|k: int|
                    0 <= k < sched@.len() implies colored(
                        self.nodes@[(#[trigger] sched@[k]).idx as int].incoming_edges@,
                        self.edges@,
                        sched@.take(k),
                    ) by {
                    if k < sched0.len() {
                        assert(sched@.take(k) =~= sched0.take(k));
                        assert(sched0[k] == sched@[k]);
                    }
                }
            }

            // Everything this append newly colored is a consumer of `v`;
            // walk `v`'s outgoing edges and enqueue the sinks it colored.
            let out_len = self.nodes[v.idx].outgoing_edges.len();
            proof {
                assert forall|x: int|
                    0 <= x < n && colored(
                        (#[trigger] self.nodes@[x]).incoming_edges@,
                        self.edges@,
                        sched@,
                    ) implies (queued@[x] || exists|m: int|
                    0 <= m < out_len && self.edges@[(#[trigger] outg[m]).idx as int].sink.idx
                        == x) by {
                    let inc = self.nodes@[x].incoming_edges@;
                    if !colored(inc, self.edges@, sched0) {
                        let k = choose|k: int|
                            0 <= k < inc.len() && !sched_contains(
                                sched0,
                                self.edges@[inc[k].idx as int].source.idx as int,
                            );
                        let e = inc[k].idx as int;
                        let src = self.edges@[e].source.idx as int;
                        lemma_sched_contains_push(sched0, v, src);
                        assert(sched_contains(sched@, src));
                        assert(src == v.idx);
                        assert(edge_listed(e, outg));
                        let m = choose|m: int| 0 <= m < outg.len() && outg[m].idx == e;
                        assert(self.edges@[outg[m].idx as int].sink.idx == x);
                    }
                }
            }
            let mut k: usize = 0;
            while k < out_len
                invariant
                    k <= out_len,
                    out_len == outg.len(),
                    outg == self.nodes@[v.idx as int].outgoing_edges@,
                    v.idx < n,
                    queued@.len() == n,
                    forall|kq: int| 0 <= kq < queue@.len() ==> (#[trigger] queue@[kq]).idx < n,
                    queue@.no_duplicates(),
                    forall|k1: int, k2: int|
                        0 <= k1 < sched@.len() && 0 <= k2 < queue@.len() ==> (
                        #[trigger] sched@[k1]).idx != (#[trigger] queue@[k2]).idx,
                    forall|x: int|
                        0 <= x < n ==> ((#[trigger] queued@[x]) <==> (sched_contains(sched@, x)
                            || sched_contains(queue@, x))),
                    forall|kq: int|
                        0 <= kq < queue@.len() ==> colored(
                            self.nodes@[(#[trigger] queue@[kq]).idx as int].incoming_edges@,
                            self.edges@,
                            sched@,
                        ),
                    forall|x: int|
                        0 <= x < n && colored(
                            (#[trigger] self.nodes@[x]).incoming_edges@,
                            self.edges@,
                            sched@,
                        ) ==> (queued@[x] || exists|m: int|
                            k <= m < out_len && self.edges@[(#[trigger] outg[m]).idx as int].sink.idx
                                == x),
                    sched@.len() + queue@.len() <= n,
                decreases out_len - k,
            {
                let e = self.nodes[v.idx].outgoing_edges[k];
                let s = self.edges[e.idx].sink;
                if !queued[s.idx] {
                    if self.node_colored(s.idx, &done_marks, Ghost(sched@)) {
                        proof {
                            lemma_fresh_entry_fits(sched@, queue@, s, n as int);
                        }
                        let ghost queue1 = queue@;
                        queue.push(s);
                        let qm = &mut queued[s.idx];
                        *qm = true;
                        proof {
                            assert forall|x: int| true implies (sched_contains(queue@, x) <==> (
                            sched_contains(queue1, x) || s.idx == x)) by {
                                lemma_sched_contains_push(queue1, s, x);
                            }
                        }
                    }
                }
                k += 1;
            }
        }

        proof {
            // The queue has drained: the schedule is closed under coloring.
            assert forall|i2: int|
                0 <= i2 < n && colored(
                    (#[trigger] self.nodes@[i2]).incoming_edges@,
                    self.edges@,
                    sched@,
                ) implies sched_contains(sched@, i2) by {
                assert(queued@[i2]);
            }
            if graph_acyclic(self.edges@) {
                let rank = choose|rank: Map<int, nat>| is_ranking(rank, self.edges@);
                assert forall|i2: int| 0 <= i2 < n implies sched_contains(sched@, i2) by {
                    lemma_colored_closure_complete(self, sched@, rank, i2);
                }
                // no duplicates and full coverage: the schedule indices are
                // exactly 0..n, so the schedule length is exactly n
                let ids = sched@.map_values(|v: NodeIdx| v.idx as int);
                assert forall|k1: int, k2: int| 0 <= k1 < k2 < ids.len() implies ids[k1]
                    != ids[k2] by {
                    assert(sched@[k1] != sched@[k2]);
                }
                ids.unique_seq_to_set();
                assert forall|x: int| #[trigger]
                    ids.to_set().contains(x) implies set_int_range(0, n as int).contains(x) by {
                    let k = choose|k: int| 0 <= k < ids.len() && ids[k] == x;
                    assert(sched@[k].idx < n);
                }
                assert forall|x: int| #[trigger]
                    set_int_range(0, n as int).contains(x) implies ids.to_set().contains(x) by {
                    assert(sched_contains(sched@, x));
                    let k = choose|k: int| 0 <= k < sched@.len() && sched@[k].idx == x;
                    assert(ids[k] == x);
                }
                assert(ids.to_set() =~= set_int_range(0, n as int));
                lemma_int_range(0, n as int);
            }
            // A non-empty schedule starts with a source node ...
            if sched@.len() > 0 {
                assert(colored(
                    self.nodes@[sched@[0].idx as int].incoming_edges@,
                    self.edges@,
                    sched@.take(0),
                ));
                if self.nodes@[sched@[0].idx as int].incoming_edges@.len() > 0 {
                    assert(sched_contains(
                        sched@.take(0),
                        self.edges@[self.nodes@[sched@[0].idx as int].incoming_edges@[0].idx as int].source.idx as int,
                    ));
                }
            }
            // ... and a source node guarantees a non-empty schedule.
            if self.has_source_node() {
                let i2 = choose|i2: int|
                    0 <= i2 < self.nodes@.len() && (
                    #[trigger] self.nodes@[i2]).incoming_edges@.len() == 0;
                assert(colored(self.nodes@[i2].incoming_edges@, self.edges@, sched@));
                assert(sched_contains(sched@, i2));
            }
        }
        sched
    }
}

} // verus!
