use vstd::prelude::*;

verus! {

/// Capability marker: the graph records outgoing adjacency only.
#[derive(Debug, Clone, Copy, Default)]
pub struct WithOutgoing;

/// Capability marker: the graph records ingoing adjacency only.
#[derive(Debug, Clone, Copy, Default)]
pub struct WithIngoing;

/// Capability marker: the graph records both adjacency directions.
#[derive(Debug, Clone, Copy, Default)]
pub struct WithBoth;

/// A directed edge: a payload and the ids of its two endpoint vertices.
/// The ids are non-owning back-references, resolved through the graph's
/// ordered index whenever the vertex itself is needed.
#[derive(Debug, Clone)]
pub struct Edge<E> {
    pub info: E,
    pub start: u64,
    pub end: u64,
}

/// A vertex's adjacency record. Exactly one shape is legal per graph
/// instance, selected by the graph's capability marker.
#[derive(Debug, Clone)]
pub enum Vicinity<E> {
    Outgoing { edges: Option<Vec<Edge<E>>> },
    Ingoing { edges: Option<Vec<Edge<E>>> },
    Both { ingoing_edges: Option<Vec<Edge<E>>>, outgoing_edges: Option<Vec<Edge<E>>> },
}

/// The shape of an adjacency record, without its contents.
#[derive(Debug, Clone, Copy, PartialEq, Eq, Structural)]
pub enum ShapeTag {
    Outgoing,
    Ingoing,
    Both,
}

pub open spec fn opt_edges<E>(o: Option<Vec<Edge<E>>>) -> Seq<Edge<E>> {
    match o {
        Some(v) => v@,
        None => Seq::<Edge<E>>::empty(),
    }
}

impl<E> Vicinity<E> {
    pub open spec fn spec_tag(self) -> ShapeTag {
        match self {
            Vicinity::Outgoing { .. } => ShapeTag::Outgoing,
            Vicinity::Ingoing { .. } => ShapeTag::Ingoing,
            Vicinity::Both { .. } => ShapeTag::Both,
        }
    }

    /// The outgoing edge list this record carries, empty when it tracks no
    /// outgoing direction.
    pub open spec fn out_seq(self) -> Seq<Edge<E>> {
        match self {
            Vicinity::Outgoing { edges } => opt_edges(edges),
            Vicinity::Both { outgoing_edges, .. } => opt_edges(outgoing_edges),
            Vicinity::Ingoing { .. } => Seq::<Edge<E>>::empty(),
        }
    }

    /// The ingoing edge list this record carries, empty when it tracks no
    /// ingoing direction.
    pub open spec fn in_seq(self) -> Seq<Edge<E>> {
        match self {
            Vicinity::Ingoing { edges } => opt_edges(edges),
            Vicinity::Both { ingoing_edges, .. } => opt_edges(ingoing_edges),
            Vicinity::Outgoing { .. } => Seq::<Edge<E>>::empty(),
        }
    }

    pub fn tag(&self) -> (r: ShapeTag)
        ensures
            r == self.spec_tag(),
    {
        match self {
            Vicinity::Outgoing { .. } => ShapeTag::Outgoing,
            Vicinity::Ingoing { .. } => ShapeTag::Ingoing,
            Vicinity::Both { .. } => ShapeTag::Both,
        }
    }
}

/// A vertex: a unique identity, a payload, and its adjacency record. The
/// graph's ordered index is the single owner of every vertex.
#[derive(Debug, Clone)]
pub struct Vertex<V, E> {
    pub id: u64,
    pub info: V,
    pub vicinity: Vicinity<E>,
}

impl<V, E> Vertex<V, E> {
    pub fn new(id: u64, info: V, vicinity: Vicinity<E>) -> (r: Vertex<V, E>)
        ensures
            r.id == id,
            r.info == info,
            r.vicinity == vicinity,
    {
        Vertex { id, info, vicinity }
    }
}

impl<E> Edge<E> {
    pub fn new(info: E, start: u64, end: u64) -> (r: Edge<E>)
        ensures
            r.info == info,
            r.start == start,
            r.end == end,
    {
        Edge { info, start, end }
    }

    /// The id of the vertex this edge leaves.
    pub fn get_start_id(&self) -> (r: u64)
        ensures
            r == self.start,
    {
        self.start
    }

    /// The id of the vertex this edge enters.
    pub fn get_end_id(&self) -> (r: u64)
        ensures
            r == self.end,
    {
        self.end
    }
}

} // verus!
