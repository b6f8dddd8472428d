use vstd::prelude::*;
use vstd::string::StringExecFns;

use crate::edge::Edge;
use crate::edge::EdgeIdx;
use crate::filter::Filter;
use crate::node::Node;
use crate::node::NodeIdx;

verus! {

/// True when edge index `j` occurs in the edge-identifier list `l`.
pub open spec fn edge_listed(j: int, l: Seq<EdgeIdx>) -> bool {
    exists|k: int| 0 <= k < l.len() && l[k].idx == j
}

/// Owns the node and edge collections by index.  All cross-references
/// between nodes and edges are integer handles resolved through this
/// container, so no cyclic ownership arises.
pub struct Pipeline<F: Filter> {
    /// Re-entrancy guard: set when `run` starts executing and deliberately
    /// never cleared, making a pipeline single-shot.  The fields are public
    /// so that contracts can speak of them; the single-shot guarantee holds
    /// across library calls, not against a caller writing the flag by hand.
    pub running: bool,
    pub nodes: Vec<Node<F>>,
    pub edges: Vec<Edge>,
}

impl<F: Filter> Pipeline<F> {
    /// Graph well-formedness: every cross-reference resolves.  Each edge's
    /// endpoints are valid node indices; each node's edge lists hold valid
    /// edge indices, without duplicates, that point back at that node; and
    /// every edge is registered in the lists of both its endpoints.
    pub open spec fn wf(&self) -> bool {
        let n = self.nodes@.len() as int;
        let m = self.edges@.len() as int;
        &&& forall|j: int|
            0 <= j < m ==> (#[trigger] self.edges@[j]).source.idx < n && self.edges@[j].sink.idx
                < n
        &&& forall|i: int, k: int|
            0 <= i < n && 0 <= k < self.nodes@[i].incoming_edges@.len() ==> {
                let e = (#[trigger] self.nodes@[i].incoming_edges@[k]).idx as int;
                &&& e < m
                &&& self.edges@[e].sink.idx == i
            }
        &&& forall|i: int, k: int|
            0 <= i < n && 0 <= k < self.nodes@[i].outgoing_edges@.len() ==> {
                let e = (#[trigger] self.nodes@[i].outgoing_edges@[k]).idx as int;
                &&& e < m
                &&& self.edges@[e].source.idx == i
            }
        &&& forall|i: int, k1: int, k2: int|
            0 <= i < n && 0 <= k1 < k2 < self.nodes@[i].incoming_edges@.len() ==> (
            #[trigger] self.nodes@[i].incoming_edges@[k1]).idx != (
            #[trigger] self.nodes@[i].incoming_edges@[k2]).idx
        &&& forall|i: int, k1: int, k2: int|
            0 <= i < n && 0 <= k1 < k2 < self.nodes@[i].outgoing_edges@.len() ==> (
            #[trigger] self.nodes@[i].outgoing_edges@[k1]).idx != (
            #[trigger] self.nodes@[i].outgoing_edges@[k2]).idx
        &&& forall|j: int|
            0 <= j < m ==> edge_listed(
                j,
                self.nodes@[(#[trigger] self.edges@[j]).sink.idx as int].incoming_edges@,
            )
        &&& forall|j: int|
            0 <= j < m ==> edge_listed(
                j,
                self.nodes@[(#[trigger] self.edges@[j]).source.idx as int].outgoing_edges@,
            )
    }

    /// True when `other` has the same graph shape as `self`: the same nodes
    /// (names and edge lists) and the same channels (edge names and
    /// endpoints).  Edge buffer queues and filter values are free to differ.
    pub open spec fn same_graph(&self, other: &Pipeline<F>) -> bool {
        &&& self.nodes@.len() == other.nodes@.len()
        &&& forall|i: int|
            0 <= i < self.nodes@.len() ==> {
                &&& (#[trigger] self.nodes@[i]).name@ == other.nodes@[i].name@
                &&& self.nodes@[i].incoming_edges@ == other.nodes@[i].incoming_edges@
                &&& self.nodes@[i].outgoing_edges@ == other.nodes@[i].outgoing_edges@
            }
        &&& self.edges@.len() == other.edges@.len()
        &&& forall|j: int|
            0 <= j < self.edges@.len() ==> (#[trigger] self.edges@[j]).same_channel(
                other.edges@[j],
            )
    }

    /// True when some node has no incoming edges: a source the scheduler can
    /// seed from.
    pub open spec fn has_source_node(&self) -> bool {
        exists|i: int|
            0 <= i < self.nodes@.len() && (#[trigger] self.nodes@[i]).incoming_edges@.len() == 0
    }

    pub fn new() -> (r: Pipeline<F>)
        ensures
            r.running == false,
            r.nodes@.len() == 0,
            r.edges@.len() == 0,
            r.wf(),
    {
        Pipeline { running: false, nodes: Vec::new(), edges: Vec::new() }
    }

    /// Wrap the given filter in a node, append it, and return its stable
    /// index.  Never fails in this design; the `Result` is the construction
    /// error surface.
    pub fn add(&mut self, f: F) -> (r: Result<NodeIdx, String>)
        ensures
            r == Ok::<NodeIdx, String>(NodeIdx { idx: old(self).nodes@.len() as usize }),
            final(self).nodes@.len() == old(self).nodes@.len() + 1,
            forall|i: int|
                0 <= i < old(self).nodes@.len() ==> final(self).nodes@[i] == old(self).nodes@[i],
            final(self).nodes@.last().name@ == f.spec_name()@,
            final(self).nodes@.last().filter == f,
            final(self).nodes@.last().incoming_edges@.len() == 0,
            final(self).nodes@.last().outgoing_edges@.len() == 0,
            final(self).edges == old(self).edges,
            final(self).running == old(self).running,
            old(self).wf() ==> final(self).wf(),
    {
        let node = Node::new(f);
        let idx = self.nodes.len();
        self.nodes.push(node);
        Ok(NodeIdx { idx })
    }

    pub fn get_node(&self, idx: NodeIdx) -> (r: &Node<F>)
        requires
            idx.idx < self.nodes@.len(),
        ensures
            *r == self.nodes@[idx.idx as int],
    {
        &self.nodes[idx.idx]
    }

    pub fn get_node_mut(&mut self, idx: NodeIdx) -> (r: &mut Node<F>)
        requires
            idx.idx < old(self).nodes@.len(),
        ensures
            *r == old(self).nodes@[idx.idx as int],
            final(self).nodes@ == old(self).nodes@.update(idx.idx as int, *final(r)),
            final(self).edges == old(self).edges,
            final(self).running == old(self).running,
    {
        &mut self.nodes[idx.idx]
    }

    pub fn get_edge(&self, idx: EdgeIdx) -> (r: &Edge)
        requires
            idx.idx < self.edges@.len(),
        ensures
            *r == self.edges@[idx.idx as int],
    {
        &self.edges[idx.idx]
    }

    /// Append a new empty edge from `src` to `sink` and register it with
    /// both endpoints.  The edge is named `"<source-name>-<sink-name>"`.
    /// Parallel edges are not deduplicated: each call creates an independent
    /// edge.  An out-of-range node index is a construction error, reported
    /// rather than indexed.
    pub fn connect(&mut self, src: NodeIdx, sink: NodeIdx) -> (r: Result<EdgeIdx, String>)
        requires
            old(self).wf(),
        ensures
            final(self).wf(),
            (r is Err) <==> (src.idx >= old(self).nodes@.len() || sink.idx >= old(self).nodes@.len()),
            r is Err ==> *final(self) == *old(self),
            r is Err ==> r->Err_0@ == "node index out of range"@,
            r is Ok ==> ({
                let e = r->Ok_0;
                let m = old(self).edges@.len() as int;
                let n = old(self).nodes@.len() as int;
                &&& e.idx == m
                &&& final(self).edges@.len() == m + 1
                &&& forall|j: int|
                    0 <= j < m ==> #[trigger] final(self).edges@[j] == old(self).edges@[j]
                &&& final(self).edges@[m].source == src
                &&& final(self).edges@[m].sink == sink
                &&& final(self).edges@[m].buffers@.len() == 0
                &&& final(self).edges@[m].name@ == old(self).nodes@[src.idx as int].name@ + "-"@
                    + old(self).nodes@[sink.idx as int].name@
                &&& final(self).nodes@.len() == n
                &&& forall|i: int|
                    0 <= i < n ==> (#[trigger] final(self).nodes@[i]).name == old(self).nodes@[i].name
                        && final(self).nodes@[i].filter == old(self).nodes@[i].filter
                &&& forall|i: int|
                    0 <= i < n ==> (#[trigger] final(self).nodes@[i]).outgoing_edges@ == if i
                        == src.idx as int {
                        old(self).nodes@[i].outgoing_edges@.push(e)
                    } else {
                        old(self).nodes@[i].outgoing_edges@
                    }
                &&& forall|i: int|
                    0 <= i < n ==> (#[trigger] final(self).nodes@[i]).incoming_edges@ == if i
                        == sink.idx as int {
                        old(self).nodes@[i].incoming_edges@.push(e)
                    } else {
                        old(self).nodes@[i].incoming_edges@
                    }
                &&& final(self).running == old(self).running
            }),
    {
        if src.idx >= self.nodes.len() || sink.idx >= self.nodes.len() {
            return Err("node index out of range".to_owned());
        }
        // Form a name from the two endpoint names, for diagnostics.
        let mut edge_name = self.nodes[src.idx].name.clone();
        edge_name.append("-");
        edge_name.append(self.nodes[sink.idx].name.as_str());

        let idx = self.edges.len();
        let edge_idx = EdgeIdx { idx };

        let edge = Edge::new(edge_name.as_str(), src, sink);
        self.edges.push(edge);

        let node_a = &mut self.nodes[src.idx];
        node_a.outgoing_edges.push(edge_idx);

        let node_b = &mut self.nodes[sink.idx];
        node_b.incoming_edges.push(edge_idx);

        proof {
            let m0 = old(self).edges@.len() as int;
            let n0 = old(self).nodes@.len() as int;
            assert forall|i: int, k1: int, k2: int|
                0 <= i < n0 && 0 <= k1 < k2 < self.nodes@[i].incoming_edges@.len() implies (
            self.nodes@[i].incoming_edges@[k1]).idx != (self.nodes@[i].incoming_edges@[k2]).idx by {
                let l0 = old(self).nodes@[i].incoming_edges@;
                if i == sink.idx as int && k2 == l0.len() as int {
                    // every pre-existing entry indexes below the fresh edge
                    assert(old(self).nodes@[i].incoming_edges@[k1].idx < m0);
                } else {
                    assert(self.nodes@[i].incoming_edges@[k1] == l0[k1]);
                    assert(self.nodes@[i].incoming_edges@[k2] == l0[k2]);
                }
            }
            assert forall|i: int, k1: int, k2: int|
                0 <= i < n0 && 0 <= k1 < k2 < self.nodes@[i].outgoing_edges@.len() implies (
            self.nodes@[i].outgoing_edges@[k1]).idx != (self.nodes@[i].outgoing_edges@[k2]).idx by {
                let l0 = old(self).nodes@[i].outgoing_edges@;
                if i == src.idx as int && k2 == l0.len() as int {
                    assert(old(self).nodes@[i].outgoing_edges@[k1].idx < m0);
                } else {
                    assert(self.nodes@[i].outgoing_edges@[k1] == l0[k1]);
                    assert(self.nodes@[i].outgoing_edges@[k2] == l0[k2]);
                }
            }
            assert forall|j: int| 0 <= j < self.edges@.len() implies edge_listed(
                j,
                self.nodes@[(#[trigger] self.edges@[j]).sink.idx as int].incoming_edges@,
            ) by {
                if j < m0 {
                    assert(self.edges@[j] == old(self).edges@[j]);
                    let s = old(self).edges@[j].sink.idx as int;
                    let l0 = old(self).nodes@[s].incoming_edges@;
                    assert(edge_listed(j, l0));
                    let k = choose|k: int| 0 <= k < l0.len() && l0[k].idx == j;
                    assert(self.nodes@[s].incoming_edges@[k].idx == j);
                } else {
                    let l = self.nodes@[sink.idx as int].incoming_edges@;
                    assert(l[l.len() - 1].idx == j);
                }
            }
            assert forall|j: int| 0 <= j < self.edges@.len() implies edge_listed(
                j,
                self.nodes@[(#[trigger] self.edges@[j]).source.idx as int].outgoing_edges@,
            ) by {
                if j < m0 {
                    assert(self.edges@[j] == old(self).edges@[j]);
                    let s = old(self).edges@[j].source.idx as int;
                    let l0 = old(self).nodes@[s].outgoing_edges@;
                    assert(edge_listed(j, l0));
                    let k = choose|k: int| 0 <= k < l0.len() && l0[k].idx == j;
                    assert(self.nodes@[s].outgoing_edges@[k].idx == j);
                } else {
                    let l = self.nodes@[src.idx as int].outgoing_edges@;
                    assert(l[l.len() - 1].idx == j);
                }
            }
        }

        Ok(edge_idx)
    }
}

} // verus!
