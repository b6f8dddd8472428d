use vstd::prelude::*;

use crate::buffer::Buffer;
use crate::node::NodeIdx;

verus! {

/// Stable handle to an edge in the owning pipeline's edge collection.
#[derive(Copy, Clone, PartialEq, Eq, Structural, Debug)]
pub struct EdgeIdx {
    pub idx: usize,
}

/// The direction of an edge relative to a node.
#[derive(Copy, Clone)]
pub enum EdgeType {
    INCOMING,
    OUTGOING,
}

/// A named, directed FIFO queue of buffers between exactly one source node
/// and one sink node.  The first buffer pushed is the first buffer pulled;
/// the queue never reorders a stream's data.
pub struct Edge {
    pub name: String,
    pub buffers: Vec<Buffer>,
    pub source: NodeIdx,
    pub sink: NodeIdx,
}

impl Edge {
    /// True when `other` is the same channel: same name and endpoints.
    /// The queue contents are free to differ.
    pub open spec fn same_channel(self, other: Edge) -> bool {
        &&& self.name@ == other.name@
        &&& self.source == other.source
        &&& self.sink == other.sink
    }

    pub fn new(name: &str, src: NodeIdx, sink: NodeIdx) -> (r: Edge)
        ensures
            r.name@ == name@,
            r.buffers@ =~= Seq::<Buffer>::empty(),
            r.source == src,
            r.sink == sink,
    {
        Edge { name: name.to_owned(), buffers: Vec::new(), source: src, sink }
    }

    pub fn get_name(&self) -> (r: &str)
        ensures
            r@ == self.name@,
    {
        self.name.as_str()
    }

    /// Append a buffer at the tail of the queue.
    pub fn push_buffer(&mut self, buffer: Buffer)
        ensures
            final(self).buffers@ == old(self).buffers@.push(buffer),
            final(self).same_channel(*old(self)),
    {
        self.buffers.push(buffer);
    }

    /// Take the oldest buffer off the head of the queue.
    ///
    /// An empty queue is a distinct, recoverable condition: it does not mean
    /// the stream has ended, only that nothing is buffered right now.
    pub fn pull_buffer(&mut self) -> (r: Result<Buffer, String>)
        ensures
            final(self).same_channel(*old(self)),
            old(self).buffers@.len() == 0 ==> {
                &&& r is Err
                &&& final(self).buffers@ == old(self).buffers@
            },
            old(self).buffers@.len() > 0 ==> {
                &&& r == Ok::<Buffer, String>(old(self).buffers@[0])
                &&& final(self).buffers@ == old(self).buffers@.remove(0)
            },
            r is Err ==> r->Err_0@ == "List of buffers is empty"@,
    {
        if self.buffers.len() == 0 {
            Err("List of buffers is empty".to_owned())
        } else {
            Ok(self.buffers.remove(0))
        }
    }
}

/// Buffer FIFO law: pushing three buffers onto an empty queue in a given
/// order and then pulling three times yields them in that same order, and
/// leaves the queue empty.  The pull model is the one `pull_buffer` ensures:
/// the head `q[0]` comes off and `q.remove(0)` remains.
pub proof fn lemma_edge_fifo(b1: Buffer, b2: Buffer, b3: Buffer)
    ensures
        ({
            let q = Seq::<Buffer>::empty().push(b1).push(b2).push(b3);
            &&& q[0] == b1
            &&& q.remove(0)[0] == b2
            &&& q.remove(0).remove(0)[0] == b3
            &&& q.remove(0).remove(0).remove(0) =~= Seq::<Buffer>::empty()
        }),
{
    let q = Seq::<Buffer>::empty().push(b1).push(b2).push(b3);
    assert(q.remove(0) =~= Seq::<Buffer>::empty().push(b2).push(b3));
    assert(q.remove(0).remove(0) =~= Seq::<Buffer>::empty().push(b3));
}

} // verus!
