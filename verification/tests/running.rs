use ripelines::Buffer;
use ripelines::Edge;
use ripelines::Element;
use ripelines::Filter;
use ripelines::FilterState;
use ripelines::Pipeline;

/// A scripted source that emits one buffer of each listed size, in order,
/// then reports completion; and a sink that records every buffer it pulls.
enum Stage {
    Source { el: Element, pending: Vec<usize>, init_calls: usize },
    Sink { el: Element, seen: Vec<Buffer>, init_calls: usize },
}

impl Stage {
    fn source(sizes: &[usize]) -> Stage {
        Stage::Source { el: Element::new("source"), pending: sizes.to_vec(), init_calls: 0 }
    }
    fn sink() -> Stage {
        Stage::Sink { el: Element::new("sink"), seen: Vec::new(), init_calls: 0 }
    }
    fn init_calls(&self) -> usize {
        match self {
            Stage::Source { init_calls, .. } => *init_calls,
            Stage::Sink { init_calls, .. } => *init_calls,
        }
    }
}

impl Filter for Stage {
    // ghost item of the verified library's Filter trait; never called at
    // run time, so any body satisfies it
    fn spec_name(&self) -> String {
        panic!()
    }
    fn get_element(&self) -> &Element {
        match self {
            Stage::Source { el, .. } => el,
            Stage::Sink { el, .. } => el,
        }
    }
    fn get_mut_element(&mut self) -> &mut Element {
        match self {
            Stage::Source { el, .. } => el,
            Stage::Sink { el, .. } => el,
        }
    }
    fn set_filter_state(&mut self, state: FilterState) {
        if let FilterState::INITIALIZED = state {
            match self {
                Stage::Source { init_calls, .. } => *init_calls += 1,
                Stage::Sink { init_calls, .. } => *init_calls += 1,
            }
        }
        self.get_mut_element().state = state;
    }
    fn get_filter_state(&self) -> FilterState {
        self.get_element().state
    }
    fn run(&mut self, incoming: &mut Vec<Edge>, outgoing: &mut Vec<Edge>) -> bool {
        match self {
            Stage::Source { el, pending, .. } => {
                assert_eq!(incoming.len(), 0);
                assert_eq!(outgoing.len(), 1);
                if pending.is_empty() {
                    el.state = FilterState::DONE;
                    return false;
                }
                let size = pending.remove(0);
                outgoing[0].push_buffer(Buffer::new(vec![0u8; size], size));
                true
            }
            Stage::Sink { el, seen, .. } => {
                assert_eq!(incoming.len(), 1);
                assert_eq!(outgoing.len(), 0);
                match incoming[0].pull_buffer() {
                    Ok(b) => {
                        seen.push(b);
                        true
                    }
                    Err(_) => {
                        el.state = FilterState::DONE;
                        false
                    }
                }
            }
        }
    }
}

#[test]
fn run_refuses_empty_pipeline() {
    let mut p: Pipeline<Stage> = Pipeline::new();
    assert!(!p.run());
}

#[test]
fn run_refuses_graph_without_sources() {
    // every node has an incoming edge, so the schedule is empty and nothing
    // runs; no filter is ever initialized
    let mut p: Pipeline<Stage> = Pipeline::new();
    let a = p.add(Stage::sink()).unwrap();
    let b = p.add(Stage::sink()).unwrap();
    p.connect(a, b).unwrap();
    p.connect(b, a).unwrap();
    assert!(!p.run());
    assert_eq!(p.get_node(a).get_filter().init_calls(), 0);
    assert_eq!(p.get_node(b).get_filter().init_calls(), 0);
}

#[test]
fn run_two_node_pipeline_to_exhaustion() {
    // source -> sink; the source produces exactly three buffers of sizes
    // 10, 10 and 4 and then reports completion; the sink must have observed
    // exactly those three buffers, in that order, when the pipeline halts.
    let mut p: Pipeline<Stage> = Pipeline::new();
    let s = p.add(Stage::source(&[10, 10, 4])).unwrap();
    let t = p.add(Stage::sink()).unwrap();
    p.connect(s, t).unwrap();

    assert_eq!(p.make_schedule(), vec![s, t]);
    assert!(p.run());

    match p.get_node(t).get_filter() {
        Stage::Sink { seen, .. } => {
            let sizes: Vec<usize> = seen.iter().map(|b| b.size).collect();
            assert_eq!(sizes, vec![10, 10, 4]);
        }
        _ => panic!("sink node does not hold the sink stage"),
    }
    match p.get_node(s).get_filter() {
        Stage::Source { el, .. } => assert_eq!(el.state, FilterState::DONE),
        _ => panic!("source node does not hold the source stage"),
    }
}

#[test]
fn run_second_call_refuses_and_does_not_reinitialize() {
    // the running guard is never cleared: a pipeline is single-shot, and a
    // second run must refuse and leave initialized filters alone
    let mut p: Pipeline<Stage> = Pipeline::new();
    let s = p.add(Stage::source(&[2])).unwrap();
    let t = p.add(Stage::sink()).unwrap();
    p.connect(s, t).unwrap();

    assert!(p.run());
    assert_eq!(p.get_node(s).get_filter().init_calls(), 1);
    assert_eq!(p.get_node(t).get_filter().init_calls(), 1);

    assert!(!p.run());
    assert_eq!(p.get_node(s).get_filter().init_calls(), 1);
    assert_eq!(p.get_node(t).get_filter().init_calls(), 1);
}

#[test]
fn run_preserves_fifo_order_across_rounds() {
    // a transform-free chain: payload bytes arrive at the sink in exactly
    // the order the source pushed them
    let mut p: Pipeline<Stage> = Pipeline::new();
    let s = p.add(Stage::source(&[1, 2, 3])).unwrap();
    let t = p.add(Stage::sink()).unwrap();
    p.connect(s, t).unwrap();
    assert!(p.run());
    match p.get_node(t).get_filter() {
        Stage::Sink { seen, .. } => {
            let sizes: Vec<usize> = seen.iter().map(|b| b.size).collect();
            assert_eq!(sizes, vec![1, 2, 3]);
        }
        _ => panic!("sink node does not hold the sink stage"),
    }
}
