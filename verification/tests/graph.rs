use graphrs::graph::definitions::{Vicinity, WithBoth, WithIngoing, WithOutgoing};
use graphrs::graph::Graph;
use graphrs::Error;

fn outgoing_graph() -> Graph<&'static str, u32, WithOutgoing> {
    let mut g: Graph<&'static str, u32, WithOutgoing> = Graph::new();
    for (id, name) in [(1u64, "a"), (2, "b"), (3, "c")] {
        assert!(g
            .add_vertex(id, name, Vicinity::Outgoing { edges: None })
            .is_ok());
    }
    g
}

#[test]
fn add_vertex_shape_mismatch() {
    let mut g: Graph<u32, u32, WithOutgoing> = Graph::new();
    let r = g.add_vertex(1, 0, Vicinity::Ingoing { edges: None });
    assert_eq!(r, Err(Error::MismatchedVicinity));
    let r = g.add_vertex(
        1,
        0,
        Vicinity::Both {
            ingoing_edges: None,
            outgoing_edges: None,
        },
    );
    assert_eq!(r, Err(Error::MismatchedVicinity));
}

#[test]
fn add_vertex_duplicate_id() {
    let mut g: Graph<u32, u32, WithOutgoing> = Graph::new();
    assert!(g.add_vertex(7, 1, Vicinity::Outgoing { edges: None }).is_ok());
    let r = g.add_vertex(7, 2, Vicinity::Outgoing { edges: None });
    assert_eq!(r, Err(Error::VertexAlreadyExists));
}

#[test]
fn add_edge_missing_endpoint() {
    let mut g = outgoing_graph();
    assert_eq!(g.add_edge(0, 1, 4), Err(Error::KeyWasNotFound));
    assert_eq!(g.add_edge(0, 4, 1), Err(Error::KeyWasNotFound));
    assert_eq!(g.add_edge(0, 4, 5), Err(Error::KeyWasNotFound));
    assert!(g.add_edge(0, 1, 2).is_ok());
}

#[test]
fn ingoing_graph_accepts_only_ingoing_shape() {
    let mut g: Graph<u32, u32, WithIngoing> = Graph::new();
    assert_eq!(
        g.add_vertex(1, 0, Vicinity::Outgoing { edges: None }),
        Err(Error::MismatchedVicinity)
    );
    assert!(g.add_vertex(1, 0, Vicinity::Ingoing { edges: None }).is_ok());
    assert!(g.add_vertex(2, 0, Vicinity::Ingoing { edges: None }).is_ok());
    assert!(g.add_edge(9, 1, 2).is_ok());
    let v2 = g.get_vertex(2).unwrap();
    match &v2.vicinity {
        Vicinity::Ingoing { edges: Some(es) } => {
            assert_eq!(es.len(), 1);
            assert_eq!(es[0].start, 1);
            assert_eq!(es[0].end, 2);
            assert_eq!(es[0].info, 9);
        }
        _ => panic!("the edge must land in the ingoing list of the end vertex"),
    }
}

#[test]
fn both_graph_records_edge_twice() {
    let mut g: Graph<u32, u32, WithBoth> = Graph::new();
    for id in [1u64, 2] {
        assert!(g
            .add_vertex(
                id,
                0,
                Vicinity::Both {
                    ingoing_edges: None,
                    outgoing_edges: None,
                },
            )
            .is_ok());
    }
    assert!(g.add_edge(5, 1, 2).is_ok());
    let v1 = g.get_vertex(1).unwrap();
    match &v1.vicinity {
        Vicinity::Both {
            outgoing_edges: Some(out),
            ..
        } => {
            assert_eq!(out.len(), 1);
            assert_eq!((out[0].start, out[0].end, out[0].info), (1, 2, 5));
        }
        _ => panic!("the outgoing record of the start vertex is missing"),
    }
    let v2 = g.get_vertex(2).unwrap();
    match &v2.vicinity {
        Vicinity::Both {
            ingoing_edges: Some(ingoing),
            ..
        } => {
            assert_eq!(ingoing.len(), 1);
            assert_eq!((ingoing[0].start, ingoing[0].end, ingoing[0].info), (1, 2, 5));
        }
        _ => panic!("the ingoing record of the end vertex is missing"),
    }
}

#[test]
fn breadth_first_visits_reachable_exactly_once() {
    let mut g = outgoing_graph();
    assert!(g.add_edge(0, 1, 2).is_ok());
    assert!(g.add_edge(0, 2, 3).is_ok());
    assert!(g.add_edge(0, 1, 3).is_ok());
    let order = g.breadth_first_order(1).unwrap();
    assert_eq!(order, vec![1, 2, 3]);
}

#[test]
fn depth_first_visits_in_stack_order() {
    let mut g = outgoing_graph();
    assert!(g.add_edge(0, 1, 2).is_ok());
    assert!(g.add_edge(0, 1, 3).is_ok());
    let order = g.depth_first_order(1).unwrap();
    assert_eq!(order, vec![1, 3, 2]);
}

#[test]
fn traversal_skips_unreachable_and_rejects_absent_start() {
    let mut g = outgoing_graph();
    assert!(g.add_edge(0, 1, 2).is_ok());
    let order = g.breadth_first_order(1).unwrap();
    assert_eq!(order, vec![1, 2]);
    assert_eq!(g.breadth_first_order(9), Err(Error::KeyWasNotFound));
}

#[test]
fn traversal_folds_with_caller_closures() {
    let mut g = outgoing_graph();
    assert!(g.add_edge(0, 1, 2).is_ok());
    assert!(g.add_edge(0, 2, 3).is_ok());
    let sum = g
        .breadth_first_traversal(1, 0u64, |v| v.id, |a: u64, b: u64| a.wrapping_add(b))
        .unwrap();
    assert_eq!(sum, 6);
}

#[test]
fn mutable_traversal_annotates_payloads() {
    let mut g: Graph<u32, u32, WithOutgoing> = Graph::new();
    for id in [1u64, 2] {
        assert!(g.add_vertex(id, 10, Vicinity::Outgoing { edges: None }).is_ok());
    }
    assert!(g.add_edge(0, 1, 2).is_ok());
    let count = g
        .depth_first_traversal_mut(1, 0u32, |v| (*v + 1, 1u32), |a, b| a + b)
        .unwrap();
    assert_eq!(count, 2);
    assert_eq!(g.get_vertex(1).unwrap().info, 11);
    assert_eq!(g.get_vertex(2).unwrap().info, 11);
}

#[test]
fn mutable_traversal_leaves_unreachable_payloads_alone() {
    let mut g: Graph<u32, u32, WithOutgoing> = Graph::new();
    for id in [1u64, 2, 3] {
        assert!(g.add_vertex(id, 10, Vicinity::Outgoing { edges: None }).is_ok());
    }
    assert!(g.add_edge(0, 1, 2).is_ok());
    let r = g.breadth_first_traversal_mut(1, 0u32, |v| (*v + 5, 1u32), |a, b| a + b);
    assert_eq!(r, Ok(2));
    assert_eq!(g.get_vertex(1).unwrap().info, 15);
    assert_eq!(g.get_vertex(2).unwrap().info, 15);
    assert_eq!(g.get_vertex(3).unwrap().info, 10);
}

#[test]
fn cycle_checks_direct_and_transitive() {
    let mut g = outgoing_graph();
    assert!(g.add_edge(0, 1, 2).is_ok());
    assert!(g.add_edge(0, 2, 3).is_ok());
    assert!(g.is_acyclic());
    let v1 = g.get_vertex(1).unwrap();
    assert!(!v1.is_in_cycle(&g));

    assert!(g.add_edge(0, 3, 1).is_ok());
    let v1 = g.get_vertex(1).unwrap();
    assert!(v1.is_in_cycle(&g));
    assert!(!g.is_acyclic());
}

#[test]
fn self_loop_is_a_cycle() {
    let mut g = outgoing_graph();
    assert!(g.add_edge(0, 2, 2).is_ok());
    let v2 = g.get_vertex(2).unwrap();
    assert!(v2.is_in_cycle(&g));
    assert!(!g.is_acyclic());
    let v1 = g.get_vertex(1).unwrap();
    assert!(!v1.is_in_cycle(&g));
}

#[test]
fn edge_getters_resolve_endpoints() {
    let mut g = outgoing_graph();
    assert!(g.add_edge(41, 1, 2).is_ok());
    let v1 = g.get_vertex(1).unwrap();
    let edge = match &v1.vicinity {
        Vicinity::Outgoing { edges: Some(es) } => es[0].clone(),
        _ => panic!("the start vertex must hold the new edge"),
    };
    assert_eq!(edge.get_start_id(), 1);
    assert_eq!(edge.get_end_id(), 2);
    assert_eq!(edge.get_start_info(&g), Ok(&"a"));
    assert_eq!(edge.get_end_info(&g), Ok(&"b"));
    assert_eq!(edge.get_start_all(&g).unwrap(), (1, &"a"));
    assert_eq!(edge.get_end_all(&g).unwrap(), (2, &"b"));
}
