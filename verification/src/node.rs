use vstd::prelude::*;

use crate::edge::EdgeIdx;
use crate::filter::Filter;

verus! {

/// Stable handle to a node in the owning pipeline's node collection.
#[derive(Copy, Clone, PartialEq, Eq, Structural, Hash, Debug)]
pub struct NodeIdx {
    pub idx: usize,
}

/// A graph vertex wrapping one filter instance, plus the identifiers of the
/// edges incoming to and outgoing from it.  A node's identity is its index
/// in the pipeline's node collection; that index is stable for the
/// pipeline's lifetime.
pub struct Node<F: Filter> {
    pub name: String,
    pub filter: F,
    pub incoming_edges: Vec<EdgeIdx>,
    pub outgoing_edges: Vec<EdgeIdx>,
}

impl<F: Filter> Node<F> {
    /// Wrap a filter in a fresh node with no edges yet.  The node's name is
    /// copied from the filter's element at construction time.
    pub fn new(filter: F) -> (r: Node<F>)
        ensures
            r.name@ == filter.spec_name()@,
            r.filter == filter,
            r.incoming_edges@ =~= Seq::<EdgeIdx>::empty(),
            r.outgoing_edges@ =~= Seq::<EdgeIdx>::empty(),
    {
        let name = filter.get_element().name.clone();
        Node { name, filter, incoming_edges: Vec::new(), outgoing_edges: Vec::new() }
    }

    pub fn get_filter(&self) -> (r: &F)
        ensures
            *r == self.filter,
    {
        &self.filter
    }

    pub fn get_name(&self) -> (r: &str)
        ensures
            r@ == self.name@,
    {
        self.name.as_str()
    }
}

} // verus!
