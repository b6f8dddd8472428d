use ripelines::Edge;
use ripelines::Element;
use ripelines::Filter;
use ripelines::FilterState;
use ripelines::NodeIdx;
use ripelines::Pipeline;

struct Stub {
    el: Element,
}

impl Stub {
    fn new(name: &str) -> Stub {
        Stub { el: Element::new(name) }
    }
}

impl Filter for Stub {
    // ghost item of the verified library's Filter trait; never called at
    // run time, so any body satisfies it
    fn spec_name(&self) -> String {
        panic!()
    }
    fn get_element(&self) -> &Element {
        &self.el
    }
    fn get_mut_element(&mut self) -> &mut Element {
        &mut self.el
    }
    fn set_filter_state(&mut self, state: FilterState) {
        self.el.state = state;
    }
    fn get_filter_state(&self) -> FilterState {
        self.el.state
    }
    fn run(&mut self, _incoming: &mut Vec<Edge>, _outgoing: &mut Vec<Edge>) -> bool {
        false
    }
}

fn idx(i: usize) -> NodeIdx {
    NodeIdx { idx: i }
}

#[test]
fn schedule_of_empty_pipeline_is_empty() {
    let mut p: Pipeline<Stub> = Pipeline::new();
    assert_eq!(p.make_schedule(), Vec::<NodeIdx>::new());
}

#[test]
fn schedule_two_node_chain() {
    // source -> sink schedules as [source, sink]
    let mut p: Pipeline<Stub> = Pipeline::new();
    let s = p.add(Stub::new("s")).unwrap();
    let t = p.add(Stub::new("t")).unwrap();
    p.connect(s, t).unwrap();
    assert_eq!(p.make_schedule(), vec![s, t]);
}

#[test]
fn schedule_diamond_orders_every_edge() {
    // a -> b, a -> c, b -> d, c -> d: a first, d last, after both of its
    // predecessors.
    let mut p: Pipeline<Stub> = Pipeline::new();
    let a = p.add(Stub::new("a")).unwrap();
    let b = p.add(Stub::new("b")).unwrap();
    let c = p.add(Stub::new("c")).unwrap();
    let d = p.add(Stub::new("d")).unwrap();
    p.connect(a, b).unwrap();
    p.connect(a, c).unwrap();
    p.connect(b, d).unwrap();
    p.connect(c, d).unwrap();

    let sched = p.make_schedule();
    assert_eq!(sched.len(), 4);
    let pos = |n: NodeIdx| sched.iter().position(|x| *x == n).unwrap();
    assert!(pos(a) < pos(b));
    assert!(pos(a) < pos(c));
    assert!(pos(b) < pos(d));
    assert!(pos(c) < pos(d));
    // each node appears exactly once, d not before either predecessor
    assert_eq!(sched, vec![idx(0), idx(1), idx(2), idx(3)]);
}

#[test]
fn schedule_fan_out_and_fan_in() {
    // one source feeding three sinks: source first, every sink scheduled
    let mut p: Pipeline<Stub> = Pipeline::new();
    let s = p.add(Stub::new("s")).unwrap();
    let a = p.add(Stub::new("a")).unwrap();
    let b = p.add(Stub::new("b")).unwrap();
    let c = p.add(Stub::new("c")).unwrap();
    p.connect(s, a).unwrap();
    p.connect(s, b).unwrap();
    p.connect(s, c).unwrap();
    assert_eq!(p.make_schedule(), vec![s, a, b, c]);
}

#[test]
fn schedule_with_no_source_nodes_is_empty() {
    // a two-node cycle has no node without incoming edges
    let mut p: Pipeline<Stub> = Pipeline::new();
    let a = p.add(Stub::new("a")).unwrap();
    let b = p.add(Stub::new("b")).unwrap();
    p.connect(a, b).unwrap();
    p.connect(b, a).unwrap();
    assert_eq!(p.make_schedule(), Vec::<NodeIdx>::new());
}

#[test]
fn schedule_of_cyclic_region_is_partial() {
    // a feeds a cycle b <-> c: only a can ever be colored
    let mut p: Pipeline<Stub> = Pipeline::new();
    let a = p.add(Stub::new("a")).unwrap();
    let b = p.add(Stub::new("b")).unwrap();
    let c = p.add(Stub::new("c")).unwrap();
    p.connect(a, b).unwrap();
    p.connect(b, c).unwrap();
    p.connect(c, b).unwrap();
    assert_eq!(p.make_schedule(), vec![a]);
}

#[test]
fn schedule_single_isolated_node() {
    let mut p: Pipeline<Stub> = Pipeline::new();
    let a = p.add(Stub::new("a")).unwrap();
    assert_eq!(p.make_schedule(), vec![a]);
}

#[test]
fn schedule_self_loop_has_no_source() {
    // a node feeding itself has an incoming edge, so nothing seeds the walk
    let mut p: Pipeline<Stub> = Pipeline::new();
    let a = p.add(Stub::new("a")).unwrap();
    p.connect(a, a).unwrap();
    assert_eq!(p.make_schedule(), Vec::<NodeIdx>::new());
}

#[test]
fn schedule_parallel_edges_single_pair() {
    // two parallel edges between the same pair still give [src, sink]
    let mut p: Pipeline<Stub> = Pipeline::new();
    let a = p.add(Stub::new("a")).unwrap();
    let b = p.add(Stub::new("b")).unwrap();
    p.connect(a, b).unwrap();
    p.connect(a, b).unwrap();
    assert_eq!(p.make_schedule(), vec![a, b]);
}
