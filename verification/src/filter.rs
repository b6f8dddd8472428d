use vstd::prelude::*;

use crate::edge::Edge;
use crate::element::Element;
use crate::element::FilterState;

verus! {

/// The capability contract implemented by every concrete pipeline stage
/// (source, sink or transform).  The pipeline depends only on this surface
/// and never on concrete stage internals.
///
/// `run` performs one unit of work: it may pull buffers from the incoming
/// edges and push buffers onto the outgoing edges, and returns `false` when
/// the stage can make no further progress.  The executor hands a stage the
/// edges registered for its node, in connect order, and an implementation
/// must hand back those same channels: it may change an edge's buffer queue,
/// but not its name or endpoints, and it must not add or drop edges.  That
/// obligation is the `ensures` below; the executor's preservation of the
/// graph rests on every stage honouring it.
pub trait Filter: Sized {
    /// The name of this stage's element, as the contracts see it.  This is
    /// a ghost item: verified code only reasons with it, and the compiled
    /// library never calls it, so an implementation outside verified code
    /// may give it any body.
    spec fn spec_name(&self) -> String;

    fn get_element(&self) -> (r: &Element)
        ensures
            r.name@ == self.spec_name()@,
    ;

    fn get_mut_element(&mut self) -> &mut Element;

    /// Perform any side effects of entering `state`, then record it.
    fn set_filter_state(&mut self, state: FilterState);

    fn get_filter_state(&self) -> FilterState;

    /// One unit of work.  Returns `false` when the stage cannot proceed
    /// (end of input, unrecoverable error); `true` to be scheduled again.
    fn run(&mut self, incoming_edges: &mut Vec<Edge>, outgoing_edges: &mut Vec<Edge>) -> (more: bool)
        ensures
            final(incoming_edges)@.len() == old(incoming_edges)@.len(),
            final(outgoing_edges)@.len() == old(outgoing_edges)@.len(),
            forall|k: int|
                0 <= k < old(incoming_edges)@.len() ==> (#[trigger] final(incoming_edges)@[k]).same_channel(old(incoming_edges)@[k]),
            forall|k: int|
                0 <= k < old(outgoing_edges)@.len() ==> (#[trigger] final(outgoing_edges)@[k]).same_channel(old(outgoing_edges)@[k]),
    ;
}

} // verus!
