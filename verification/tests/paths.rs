use graphrs::graph::definitions::{Edge, Vicinity, WithOutgoing};
use graphrs::graph::path::{Path, Paths, Unit};
use graphrs::graph::Graph;
use graphrs::Error;

fn edge(info: u32, start: u64, end: u64) -> Edge<u32> {
    Edge::new(info, start, end)
}

fn ends(p: &Path<u32>) -> Vec<(u64, u64)> {
    p.0.iter().map(|e| (e.start, e.end)).collect()
}

#[test]
fn unit_addition_is_trivial() {
    assert_eq!(Unit(()).add(Unit(())), Unit(()));
}

#[test]
fn path_concat_joins_adjacent_walks() {
    let ab = Path(vec![edge(1, 10, 20)]);
    let bc = Path(vec![edge(2, 20, 30)]);
    let joined = ab.add(bc);
    assert_eq!(ends(&joined), vec![(10, 20), (20, 30)]);
    assert_eq!(joined.start_with(), 10);
    assert_eq!(joined.ends_with(), 30);
}

#[test]
fn path_concat_silently_drops_non_adjacent_right_operand() {
    let ab = Path(vec![edge(1, 10, 20)]);
    let cd = Path(vec![edge(2, 30, 40)]);
    let joined = ab.add(cd);
    assert_eq!(ends(&joined), vec![(10, 20)]);
}

#[test]
fn path_concat_empty_left_is_identity() {
    let empty: Path<u32> = Path(vec![]);
    let bc = Path(vec![edge(2, 20, 30)]);
    let joined = empty.add(bc);
    assert_eq!(ends(&joined), vec![(20, 30)]);
    let ab = Path(vec![edge(1, 10, 20)]);
    let joined = ab.add(Path(vec![]));
    assert_eq!(ends(&joined), vec![(10, 20)]);
}

#[test]
fn path_contains_checks_both_endpoints() {
    let p = Path(vec![edge(1, 10, 20), edge(2, 20, 30)]);
    assert!(p.contains(10));
    assert!(p.contains(20));
    assert!(p.contains(30));
    assert!(!p.contains(40));
    let empty: Path<u32> = Path(vec![]);
    assert!(!empty.contains(10));
}

#[test]
fn subpath_between_extracts_inner_walk() {
    let p = Path(vec![
        edge(1, 10, 20),
        edge(2, 20, 30),
        edge(3, 30, 40),
        edge(4, 40, 50),
    ]);
    let sub = p.subpath_between(20, 40).unwrap();
    assert_eq!(ends(&sub), vec![(20, 30), (30, 40)]);
    let whole = p.subpath_between(10, 50).unwrap();
    assert_eq!(ends(&whole), ends(&p));
}

#[test]
fn subpath_between_keeps_the_first_matches() {
    let p = Path(vec![
        edge(0, 5, 20),
        edge(1, 20, 30),
        edge(2, 30, 40),
        edge(3, 20, 40),
    ]);
    let sub = p.subpath_between(20, 40).unwrap();
    assert_eq!(ends(&sub), vec![(20, 30), (30, 40)]);
}

#[test]
fn subpath_between_prefers_the_whole_walk() {
    let p = Path(vec![
        edge(0, 10, 20),
        edge(1, 20, 10),
        edge(2, 10, 30),
        edge(3, 30, 10),
        edge(4, 10, 30),
    ]);
    let sub = p.subpath_between(10, 30).unwrap();
    assert_eq!(ends(&sub), ends(&p));
}

#[test]
fn subpath_between_failures() {
    let p = Path(vec![edge(1, 10, 20), edge(2, 20, 30)]);
    assert_eq!(
        p.subpath_between(99, 30).map(|q| ends(&q)),
        Err(Error::KeyWasNotFound)
    );
    let empty: Path<u32> = Path(vec![]);
    assert_eq!(
        empty.subpath_between(10, 20).map(|q| ends(&q)),
        Err(Error::KeyWasNotFound)
    );
    let crossed = Path(vec![edge(1, 10, 20), edge(2, 30, 10)]);
    assert_eq!(
        crossed.subpath_between(30, 20).map(|q| ends(&q)),
        Err(Error::OutOfBounds)
    );
}

#[test]
fn paths_product_combines_every_pair() {
    let left = Paths(vec![Path(vec![edge(1, 10, 20)]), Path(vec![edge(2, 11, 20)])]);
    let right = Paths(vec![Path(vec![edge(3, 20, 30)])]);
    let combined = left.add(right);
    assert_eq!(combined.0.len(), 2);
    assert_eq!(ends(&combined.0[0]), vec![(10, 20), (20, 30)]);
    assert_eq!(ends(&combined.0[1]), vec![(11, 20), (20, 30)]);
}

#[test]
fn paths_product_empty_operands_are_identities() {
    let left = Paths(vec![Path(vec![edge(1, 10, 20)])]);
    let combined = left.add(Paths(vec![]));
    assert_eq!(combined.0.len(), 1);
    let right = Paths(vec![Path(vec![edge(1, 10, 20)])]);
    let combined = Paths(vec![]).add(right);
    assert_eq!(combined.0.len(), 1);
}

#[test]
fn all_paths_from_collects_single_edge_expansions() {
    let mut g: Graph<u8, u32, WithOutgoing> = Graph::new();
    for id in [1u64, 2, 3] {
        assert!(g.add_vertex(id, 0, Vicinity::Outgoing { edges: None }).is_ok());
    }
    assert!(g.add_edge(7, 1, 2).is_ok());
    assert!(g.add_edge(8, 2, 3).is_ok());
    let ps = g.all_paths_from(1).unwrap();
    assert_eq!(ps.0.len(), 1);
    assert_eq!(ends(&ps.0[0]), vec![(1, 2), (2, 3)]);
    assert_eq!(g.all_paths_from(9).map(|p| p.0.len()), Err(Error::KeyWasNotFound));
}

#[test]
fn all_paths_between_filters_by_endpoints() {
    let mut g: Graph<u8, u32, WithOutgoing> = Graph::new();
    for id in [1u64, 2, 3] {
        assert!(g.add_vertex(id, 0, Vicinity::Outgoing { edges: None }).is_ok());
    }
    assert!(g.add_edge(7, 1, 2).is_ok());
    assert!(g.add_edge(8, 2, 3).is_ok());
    let between = g.all_paths_between(1, 3).unwrap();
    assert_eq!(between.len(), 1);
    assert_eq!(ends(&between[0]), vec![(1, 2), (2, 3)]);
    assert!(g.all_paths_between(3, 1).is_none());
    assert!(g.all_paths_between(9, 1).is_none());
}
