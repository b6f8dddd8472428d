use vstd::prelude::*;

use crate::edge::Edge;
use crate::edge::EdgeIdx;
use crate::edge::EdgeType;
use crate::element::FilterState;
use crate::filter::Filter;
use crate::pipeline::edge_listed;
use crate::pipeline::Pipeline;

verus! {

/// Walking an edge list one entry further: index `j` is listed in the longer
/// prefix exactly when it is listed in the shorter one or is the new entry.
proof fn lemma_listed_take_step(l: Seq<EdgeIdx>, k: int, j: int)
    requires
        0 <= k < l.len(),
    ensures
        edge_listed(j, l.take(k + 1)) <==> (edge_listed(j, l.take(k)) || l[k].idx == j),
{
    let a = l.take(k + 1);
    let b = l.take(k);
    if edge_listed(j, a) {
        let k2 = choose|k2: int| 0 <= k2 < a.len() && (#[trigger] a[k2]).idx == j;
        if k2 < k {
            assert(b[k2].idx == j);
        } else {
            assert(l[k].idx == j);
        }
    }
    if edge_listed(j, b) {
        let k2 = choose|k2: int| 0 <= k2 < b.len() && (#[trigger] b[k2]).idx == j;
        assert(a[k2].idx == j);
    }
    if l[k].idx == j {
        assert(l.take(k + 1)[k].idx == j);
    }
}

/// In a well-formed pipeline a node's edge list, in either direction, holds
/// only valid edge indices and never the same index twice.
proof fn lemma_edge_ids_wf<F: Filter>(p: &Pipeline<F>, node: int, dir: EdgeType)
    requires
        p.wf(),
        0 <= node < p.nodes@.len(),
    ensures
        forall|k: int|
            0 <= k < p.edge_ids(node, dir).len() ==> (#[trigger] p.edge_ids(node, dir)[k]).idx
                < p.edges@.len(),
        forall|k1: int, k2: int|
            0 <= k1 < k2 < p.edge_ids(node, dir).len() ==> (#[trigger] p.edge_ids(
                node,
                dir,
            )[k1]).idx != (#[trigger] p.edge_ids(node, dir)[k2]).idx,
{
    assert forall|k: int|
        0 <= k < p.edge_ids(node, dir).len() implies (#[trigger] p.edge_ids(node, dir)[k]).idx
        < p.edges@.len() by {
        match dir {
            EdgeType::INCOMING => {
                assert(p.nodes@[node].incoming_edges@[k].idx < p.edges@.len());
            },
            EdgeType::OUTGOING => {
                assert(p.nodes@[node].outgoing_edges@[k].idx < p.edges@.len());
            },
        }
    }
    assert forall|k1: int, k2: int|
        0 <= k1 < k2 < p.edge_ids(node, dir).len() implies (#[trigger] p.edge_ids(
        node,
        dir,
    )[k1]).idx != (#[trigger] p.edge_ids(node, dir)[k2]).idx by {
        match dir {
            EdgeType::INCOMING => {
                assert(p.nodes@[node].incoming_edges@[k1].idx
                    != p.nodes@[node].incoming_edges@[k2].idx);
            },
            EdgeType::OUTGOING => {
                assert(p.nodes@[node].outgoing_edges@[k1].idx
                    != p.nodes@[node].outgoing_edges@[k2].idx);
            },
        }
    }
}

impl<F: Filter> Pipeline<F> {
    /// The edge identifiers registered for `node` in the given direction,
    /// in connect order.
    pub open spec fn edge_ids(&self, node: int, dir: EdgeType) -> Seq<EdgeIdx> {
        match dir {
            EdgeType::INCOMING => self.nodes@[node].incoming_edges@,
            EdgeType::OUTGOING => self.nodes@[node].outgoing_edges@,
        }
    }

    /// Move the edges registered for `node` in direction `dir` out of the
    /// pipeline, to hand them to the node's filter.  The vector handed out
    /// holds, entry for entry, the pipeline's registered edges themselves,
    /// buffered queues included, not copies; each vacated slot keeps an
    /// empty edge with the same name and endpoints while the original is on
    /// loan, and no other edge changes.
    #[verifier::loop_isolation(false)]
    fn take_edges(&mut self, node: usize, dir: EdgeType) -> (out: Vec<Edge>)
        requires
            old(self).wf(),
            node < old(self).nodes@.len(),
        ensures
            final(self).wf(),
            old(self).same_graph(final(self)),
            final(self).nodes@ == old(self).nodes@,
            final(self).edges@.len() == old(self).edges@.len(),
            final(self).running == old(self).running,
            out@.len() == old(self).edge_ids(node as int, dir).len(),
            forall|k: int|
                0 <= k < out@.len() ==> #[trigger] out@[k] == old(self).edges@[old(
                    self,
                ).edge_ids(node as int, dir)[k].idx as int],
            forall|k: int|
                0 <= k < out@.len() ==> final(self).edges@[(#[trigger] old(self).edge_ids(
                    node as int,
                    dir,
                )[k]).idx as int].buffers@.len() == 0,
            forall|j: int|
                0 <= j < old(self).edges@.len() && !edge_listed(
                    j,
                    old(self).edge_ids(node as int, dir),
                ) ==> #[trigger] final(self).edges@[j] == old(self).edges@[j],
    {
        proof {
            lemma_edge_ids_wf(old(self), node as int, dir);
        }
        let ghost ids = old(self).edge_ids(node as int, dir);
        let len = match dir {
            EdgeType::INCOMING => self.nodes[node].incoming_edges.len(),
            EdgeType::OUTGOING => self.nodes[node].outgoing_edges.len(),
        };
        let mut out: Vec<Edge> = Vec::new();
        let mut k: usize = 0;
        while k < len
            invariant
                k <= len,
                out@.len() == k,
                self.wf(),
                old(self).same_graph(self),
                self.nodes@ == old(self).nodes@,
                self.edges@.len() == old(self).edges@.len(),
                self.running == old(self).running,
                len == ids.len(),
                forall|k2: int|
                    0 <= k2 < k ==> #[trigger] out@[k2] == old(self).edges@[ids[k2].idx as int],
                forall|k2: int|
                    0 <= k2 < k ==> self.edges@[(#[trigger] ids[k2]).idx as int].buffers@.len()
                        == 0,
                forall|j: int|
                    0 <= j < self.edges@.len() && !edge_listed(j, ids.take(k as int))
                        ==> #[trigger] self.edges@[j] == old(self).edges@[j],
            decreases len - k,
        {
            let e = match dir {
                EdgeType::INCOMING => self.nodes[node].incoming_edges[k],
                EdgeType::OUTGOING => self.nodes[node].outgoing_edges[k],
            };
            proof {
                assert(e == ids[k as int]);
                // this slot has not been vacated yet: the list is
                // duplicate-free, so it is not among the first k entries
                assert forall|k2: int| 0 <= k2 < k implies ids[k2].idx != e.idx by {
                    assert(ids[k2].idx != ids[k as int].idx);
                }
                assert(!edge_listed(e.idx as int, ids.take(k as int)));
                assert(self.edges@[e.idx as int] == old(self).edges@[e.idx as int]);
            }
            let nm = self.edges[e.idx].name.clone();
            let src_n = self.edges[e.idx].source;
            let snk_n = self.edges[e.idx].sink;
            let mut slot = Edge { name: nm, buffers: Vec::new(), source: src_n, sink: snk_n };
            core::mem::swap(&mut self.edges[e.idx], &mut slot);
            out.push(slot);
            proof {
                assert forall|j: int|
                    0 <= j < self.edges@.len() && !edge_listed(j, ids.take(k + 1 as int))
                        implies #[trigger] self.edges@[j] == old(self).edges@[j] by {
                    lemma_listed_take_step(ids, k as int, j);
                }
            }
            k += 1;
        }
        proof {
            assert(ids.take(len as int) =~= ids);
        }
        out
    }

    /// Hand the edges for `node` in direction `dir` back to the pipeline:
    /// the k-th returned edge lands in exactly the slot of the k-th
    /// registered edge identifier, in the same order `take_edges` produced
    /// them, and no other edge changes.
    #[verifier::loop_isolation(false)]
    #[verifier::rlimit(50)]
    fn put_edges(&mut self, node: usize, dir: EdgeType, ret: Vec<Edge>)
        requires
            old(self).wf(),
            node < old(self).nodes@.len(),
            ret@.len() == old(self).edge_ids(node as int, dir).len(),
            forall|k: int|
                0 <= k < ret@.len() ==> (#[trigger] ret@[k]).same_channel(
                    old(self).edges@[old(self).edge_ids(node as int, dir)[k].idx as int],
                ),
        ensures
            final(self).wf(),
            old(self).same_graph(final(self)),
            final(self).nodes@ == old(self).nodes@,
            final(self).edges@.len() == old(self).edges@.len(),
            final(self).running == old(self).running,
            forall|k: int|
                0 <= k < ret@.len() ==> final(self).edges@[(#[trigger] old(self).edge_ids(
                    node as int,
                    dir,
                )[k]).idx as int] == ret@[k],
            forall|j: int|
                0 <= j < old(self).edges@.len() && !edge_listed(
                    j,
                    old(self).edge_ids(node as int, dir),
                ) ==> #[trigger] final(self).edges@[j] == old(self).edges@[j],
    {
        proof {
            lemma_edge_ids_wf(old(self), node as int, dir);
        }
        let ghost ids = old(self).edge_ids(node as int, dir);
        let ghost ret0 = ret@;
        let mut ret = ret;
        let len = match dir {
            EdgeType::INCOMING => self.nodes[node].incoming_edges.len(),
            EdgeType::OUTGOING => self.nodes[node].outgoing_edges.len(),
        };
        let mut k: usize = 0;
        while k < len
            invariant
                k <= len,
                ret@.len() == len - k,
                len == ids.len(),
                self.wf(),
                old(self).same_graph(self),
                self.nodes@ == old(self).nodes@,
                self.edges@.len() == old(self).edges@.len(),
                self.running == old(self).running,
                forall|k2: int| 0 <= k2 < ret@.len() ==> #[trigger] ret@[k2] == ret0[k2 + k],
                forall|k2: int|
                    0 <= k2 < k ==> self.edges@[(#[trigger] ids[k2]).idx as int] == ret0[k2],
                forall|j: int|
                    0 <= j < self.edges@.len() && !edge_listed(j, ids.take(k as int))
                        ==> #[trigger] self.edges@[j] == old(self).edges@[j],
            decreases len - k,
        {
            let e = match dir {
                EdgeType::INCOMING => self.nodes[node].incoming_edges[k],
                EdgeType::OUTGOING => self.nodes[node].outgoing_edges[k],
            };
            proof {
                assert(e == ids[k as int]);
                // the slots already filled stay filled: the list is
                // duplicate-free, so this slot is none of the first k
                assert forall|k2: int| 0 <= k2 < k implies ids[k2].idx != e.idx by {
                    assert(ids[k2].idx != ids[k as int].idx);
                }
            }
            let r = ret.remove(0);
            let slot = &mut self.edges[e.idx];
            *slot = r;
            proof {
                assert forall|j: int|
                    0 <= j < self.edges@.len() && !edge_listed(j, ids.take(k + 1 as int))
                        implies #[trigger] self.edges@[j] == old(self).edges@[j] by {
                    lemma_listed_take_step(ids, k as int, j);
                }
            }
            k += 1;
        }
        proof {
            assert(ids.take(len as int) =~= ids);
        }
    }

    /// Execute the pipeline: compute the schedule, drive every scheduled
    /// filter to `INITIALIZED`, then tick the scheduled filters round-robin,
    /// handing each its incoming and outgoing edges, until one reports
    /// `DONE` or returns `false` from its `run`.
    ///
    /// Returns `true` when the pipeline executed (even if a filter later
    /// stopped it), `false` when it refused to start: it was already
    /// running, or the schedule was empty.  The `running` flag is set when
    /// execution starts and is deliberately never cleared: a pipeline is
    /// single-shot, and a second `run` on the same pipeline refuses and
    /// leaves every filter untouched.
    ///
    /// The driver loop carries an astronomically large tick budget, so the
    /// executor provably terminates even against a filter that never
    /// reports completion.
    #[verifier::loop_isolation(false)]
    pub fn run(&mut self) -> (r: bool)
        requires
            old(self).wf(),
        ensures
            final(self).wf(),
            old(self).same_graph(final(self)),
            r == (!old(self).running && old(self).has_source_node()),
            old(self).running ==> *final(self) == *old(self),
            (!old(self).running && !old(self).has_source_node()) ==> *final(self) == *old(self),
            final(self).running == (old(self).running || r),
    {
        if self.running {
            return false;
        }
        let schedule = self.make_schedule();
        if schedule.len() == 0 {
            return false;
        }
        self.running = true;

        // Drive every scheduled filter to INITIALIZED; resource acquisition
        // happens on this transition.
        let mut k: usize = 0;
        while k < schedule.len()
            invariant
                k <= schedule@.len(),
                self.wf(),
                old(self).same_graph(self),
                self.running == true,
                self.nodes@.len() == old(self).nodes@.len(),
                self.edges@.len() == old(self).edges@.len(),
            decreases schedule@.len() - k,
        {
            let v = schedule[k];
            let node = &mut self.nodes[v.idx];
            node.filter.set_filter_state(FilterState::INITIALIZED);
            k += 1;
        }

        // Round-robin: tick the filter at the cursor, then advance modulo
        // the schedule length.
        let mut idx: usize = 0;
        let mut fuel: u64 = u64::MAX;
        loop
            invariant
                idx < schedule@.len(),
                self.wf(),
                old(self).same_graph(self),
                self.running == true,
                self.nodes@.len() == old(self).nodes@.len(),
                self.edges@.len() == old(self).edges@.len(),
            decreases fuel,
        {
            if fuel == 0 {
                break;
            }
            fuel = fuel - 1;

            let v = schedule[idx];
            let state = self.nodes[v.idx].filter.get_filter_state();
            match state {
                FilterState::DONE => {
                    break;
                },
                _ => {},
            }

            let mut incoming = self.take_edges(v.idx, EdgeType::INCOMING);
            let mut outgoing = self.take_edges(v.idx, EdgeType::OUTGOING);
            let node = &mut self.nodes[v.idx];
            let more = node.filter.run(&mut incoming, &mut outgoing);
            self.put_edges(v.idx, EdgeType::INCOMING, incoming);
            self.put_edges(v.idx, EdgeType::OUTGOING, outgoing);

            if !more {
                break;
            }
            idx = idx + 1;
            if idx == schedule.len() {
                idx = 0;
            }
        }

        true
    }
}

} // verus!
