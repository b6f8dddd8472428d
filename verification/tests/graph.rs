use ripelines::Edge;
use ripelines::Element;
use ripelines::Filter;
use ripelines::FilterState;
use ripelines::NodeIdx;
use ripelines::Node;
use ripelines::Pipeline;

struct Stub {
    el: Element,
}

impl Stub {
    fn new(name: &str) -> Stub {
        Stub { el: Element::new(name) }
    }
}

impl Filter for Stub {
    // ghost item of the verified library's Filter trait; never called at
    // run time, so any body satisfies it
    fn spec_name(&self) -> String {
        panic!()
    }
    fn get_element(&self) -> &Element {
        &self.el
    }
    fn get_mut_element(&mut self) -> &mut Element {
        &mut self.el
    }
    fn set_filter_state(&mut self, state: FilterState) {
        self.el.state = state;
    }
    fn get_filter_state(&self) -> FilterState {
        self.el.state
    }
    fn run(&mut self, _incoming: &mut Vec<Edge>, _outgoing: &mut Vec<Edge>) -> bool {
        false
    }
}

#[test]
fn node_takes_name_from_filter() {
    let n = Node::new(Stub::new("filesrc"));
    assert_eq!(n.get_name(), "filesrc");
    assert_eq!(n.incoming_edges.len(), 0);
    assert_eq!(n.outgoing_edges.len(), 0);
    assert_eq!(n.get_filter().get_element().name, "filesrc");
}

#[test]
fn add_returns_stable_indices() {
    let mut p: Pipeline<Stub> = Pipeline::new();
    assert_eq!(p.add(Stub::new("a")), Ok(NodeIdx { idx: 0 }));
    assert_eq!(p.add(Stub::new("b")), Ok(NodeIdx { idx: 1 }));
    assert_eq!(p.add(Stub::new("c")), Ok(NodeIdx { idx: 2 }));
    assert_eq!(p.get_node(NodeIdx { idx: 1 }).get_name(), "b");
}

#[test]
fn connect_registers_edge_with_both_endpoints() {
    // connect(a, b) adds exactly one outgoing edge to a and one incoming
    // edge to b, and leaves every other node's edge sets alone.
    let mut p: Pipeline<Stub> = Pipeline::new();
    let a = p.add(Stub::new("a")).unwrap();
    let b = p.add(Stub::new("b")).unwrap();
    let c = p.add(Stub::new("c")).unwrap();
    let e = p.connect(a, b).unwrap();

    assert_eq!(p.get_node(a).outgoing_edges.len(), 1);
    assert_eq!(p.get_node(a).incoming_edges.len(), 0);
    assert_eq!(p.get_node(b).incoming_edges.len(), 1);
    assert_eq!(p.get_node(b).outgoing_edges.len(), 0);
    assert_eq!(p.get_node(c).incoming_edges.len(), 0);
    assert_eq!(p.get_node(c).outgoing_edges.len(), 0);

    assert_eq!(p.get_edge(e).source, a);
    assert_eq!(p.get_edge(e).sink, b);
    assert_eq!(p.get_edge(e).buffers.len(), 0);
}

#[test]
fn connect_names_edge_from_endpoint_names() {
    let mut p: Pipeline<Stub> = Pipeline::new();
    let src = p.add(Stub::new("filesrc")).unwrap();
    let snk = p.add(Stub::new("print")).unwrap();
    let e = p.connect(src, snk).unwrap();
    assert_eq!(p.get_edge(e).get_name(), "filesrc-print");
}

#[test]
fn connect_does_not_deduplicate_parallel_edges() {
    let mut p: Pipeline<Stub> = Pipeline::new();
    let a = p.add(Stub::new("a")).unwrap();
    let b = p.add(Stub::new("b")).unwrap();
    let e1 = p.connect(a, b).unwrap();
    let e2 = p.connect(a, b).unwrap();
    assert_ne!(e1, e2);
    assert_eq!(p.get_node(a).outgoing_edges.len(), 2);
    assert_eq!(p.get_node(b).incoming_edges.len(), 2);
}

#[test]
fn get_node_mut_gives_mutable_access() {
    let mut p: Pipeline<Stub> = Pipeline::new();
    let a = p.add(Stub::new("a")).unwrap();
    p.get_node_mut(a).filter.set_filter_state(FilterState::PLAYING);
    assert_eq!(p.get_node(a).get_filter().get_filter_state(), FilterState::PLAYING);
}

#[test]
fn connect_rejects_out_of_range_indices() {
    let mut p: Pipeline<Stub> = Pipeline::new();
    let a = p.add(Stub::new("a")).unwrap();
    let bogus = NodeIdx { idx: 7 };
    let r = p.connect(a, bogus);
    assert_eq!(r.unwrap_err(), "node index out of range");
    let r2 = p.connect(bogus, a);
    assert!(r2.is_err());
    // a failed connect leaves the graph untouched
    assert_eq!(p.get_node(a).outgoing_edges.len(), 0);
    assert_eq!(p.get_node(a).incoming_edges.len(), 0);
}
