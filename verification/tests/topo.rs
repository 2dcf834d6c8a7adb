use graphrs::graph::definitions::{Vicinity, WithOutgoing};
use graphrs::graph::Graph;
use graphrs::Error;

fn dag() -> Graph<&'static str, (), WithOutgoing> {
    let mut g: Graph<&'static str, (), WithOutgoing> = Graph::new();
    for (id, name) in [(1u64, "a"), (2, "b"), (3, "c")] {
        assert!(g
            .add_vertex(id, name, Vicinity::Outgoing { edges: None })
            .is_ok());
    }
    assert!(g.add_edge((), 1, 2).is_ok());
    assert!(g.add_edge((), 2, 3).is_ok());
    assert!(g.add_edge((), 1, 3).is_ok());
    g
}

fn position(deps: &std::collections::VecDeque<u64>, id: u64) -> usize {
    deps.iter().position(|&x| x == id).unwrap()
}

#[test]
fn topological_sort_orders_a_dag() {
    let g = dag();
    let deps = g.topological_sort(1).unwrap();
    assert_eq!(deps.len(), 3);
    assert!(position(&deps, 1) < position(&deps, 2));
    assert!(position(&deps, 1) < position(&deps, 3));
    assert!(position(&deps, 2) < position(&deps, 3));
    assert_eq!(deps.iter().copied().collect::<Vec<u64>>(), vec![1, 2, 3]);
}

#[test]
fn topological_sort_reports_a_cycle() {
    let mut g = dag();
    assert!(g.add_edge((), 3, 1).is_ok());
    let r = g.topological_sort(1);
    match r {
        Err(Error::WithMessage(msg)) => assert_eq!(msg, "Graph contains cycle"),
        other => panic!("a cyclic graph must fail with the cycle message, got {:?}", other),
    }
}

#[test]
fn topological_sort_missing_seed() {
    let g = dag();
    assert_eq!(g.topological_sort(9), Err(Error::KeyWasNotFound));
}

#[test]
fn topological_sort_single_vertex() {
    let mut g: Graph<u8, (), WithOutgoing> = Graph::new();
    assert!(g.add_vertex(5, 0, Vicinity::Outgoing { edges: None }).is_ok());
    let deps = g.topological_sort(5).unwrap();
    assert_eq!(deps.iter().copied().collect::<Vec<u64>>(), vec![5]);
}

#[test]
fn topological_sort_self_loop_fails() {
    let mut g: Graph<u8, (), WithOutgoing> = Graph::new();
    assert!(g.add_vertex(5, 0, Vicinity::Outgoing { edges: None }).is_ok());
    assert!(g.add_edge((), 5, 5).is_ok());
    match g.topological_sort(5) {
        Err(Error::WithMessage(msg)) => assert_eq!(msg, "Graph contains cycle"),
        other => panic!("a self loop must fail with the cycle message, got {:?}", other),
    }
}
