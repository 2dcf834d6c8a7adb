use graphrs::btree::node::{KeyValue, Node, NodeType, Split};
use graphrs::graph::definitions::{Edge, Vicinity, WithOutgoing};
use graphrs::graph::Graph;
use graphrs::Error;

fn leaf(keys: &[u64]) -> Node<u64> {
    let pairs = keys
        .iter()
        .map(|&k| KeyValue { key: k, value: k * 10 })
        .collect();
    Node::new(NodeType::Leaf(pairs))
}

#[test]
fn leaf_split_promotes_the_median() {
    let mut node = leaf(&[1, 2, 3]);
    let Split { pair, new_node } = node.split(2).unwrap();
    assert_eq!((pair.key, pair.value), (2, 20));
    match (&node.node_type, &new_node.node_type) {
        (NodeType::Leaf(lower), NodeType::Leaf(upper)) => {
            assert_eq!(lower.iter().map(|kv| kv.key).collect::<Vec<_>>(), vec![1]);
            assert_eq!(upper.iter().map(|kv| kv.key).collect::<Vec<_>>(), vec![3]);
        }
        _ => panic!("splitting a leaf must yield two leaves"),
    }
}

#[test]
fn undefined_node_operations_fail() {
    let mut node: Node<u64> = Node::new(NodeType::Undefined);
    assert!(matches!(node.is_full(2), Err(Error::UnexpectedError)));
    assert!(matches!(node.split(2), Err(Error::UnexpectedError)));
    assert!(matches!(node.into_vec(), Err(Error::UnexpectedError)));
}

#[test]
fn is_full_at_the_bound() {
    let node = leaf(&[1, 2, 3]);
    assert_eq!(node.is_full(2), Ok(true));
    let node = leaf(&[1, 2]);
    assert_eq!(node.is_full(2), Ok(false));
}

#[test]
fn internal_insert_places_pair_and_child() {
    let left = leaf(&[1]);
    let right = leaf(&[5]);
    let mut node = Node::new(NodeType::Internal(
        vec![KeyValue { key: 3, value: 30 }],
        vec![left, right],
    ));
    let r = node.insert(KeyValue { key: 7, value: 70 }, leaf(&[9]));
    assert!(r.is_ok());
    match &node.node_type {
        NodeType::Internal(pairs, children) => {
            assert_eq!(pairs.iter().map(|kv| kv.key).collect::<Vec<_>>(), vec![3, 7]);
            assert_eq!(children.len(), 3);
        }
        _ => panic!("the node must stay internal"),
    }
    assert!(matches!(
        node.insert(KeyValue { key: 7, value: 0 }, leaf(&[0])),
        Err(Error::KeyAlreadyExists)
    ));
    let mut l: Node<u64> = leaf(&[1]);
    assert!(matches!(
        l.insert(KeyValue { key: 2, value: 0 }, leaf(&[0])),
        Err(Error::UnexpectedError)
    ));
}

#[test]
fn node_into_vec_interleaves_children_and_pairs() {
    let node = Node::new(NodeType::Internal(
        vec![KeyValue { key: 3, value: 30 }],
        vec![leaf(&[1, 2]), leaf(&[4])],
    ));
    assert_eq!(
        node.into_vec().unwrap(),
        vec![(1, 10), (2, 20), (3, 30), (4, 40)]
    );
}

#[test]
fn dangling_back_reference_is_a_null_pointer() {
    let g: Graph<u8, u32, WithOutgoing> = Graph::new();
    let stray = Edge::new(0u32, 8, 9);
    assert_eq!(stray.get_start_info(&g), Err(Error::NullPointer));
    assert_eq!(stray.get_end_all(&g).map(|p| p.0), Err(Error::NullPointer));
}

#[test]
fn add_vertex_rejects_embedded_edges_with_absent_endpoints() {
    let mut g: Graph<u8, u32, WithOutgoing> = Graph::new();
    let vicinity = Vicinity::Outgoing {
        edges: Some(vec![Edge::new(0u32, 1, 9)]),
    };
    assert_eq!(g.add_vertex(1, 0, vicinity), Err(Error::KeyWasNotFound));
    let self_loop = Vicinity::Outgoing {
        edges: Some(vec![Edge::new(0u32, 1, 1)]),
    };
    assert!(g.add_vertex(1, 0, self_loop).is_ok());
}
