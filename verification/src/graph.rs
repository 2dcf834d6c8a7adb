pub mod definitions;
pub mod path;
pub mod with_both;
pub mod with_ingoing;
pub mod with_outgoing;

use vstd::prelude::*;

use crate::btree::node::entry_keys;
use crate::btree::BTree;
use crate::error::Error;
use core::marker::PhantomData;
use definitions::{Edge, ShapeTag, Vertex, Vicinity};

verus! {

/// A directed graph whose vertices are owned by an ordered index keyed by
/// vertex id; edges reference their endpoints by id only. The capability
/// marker `S` selects which adjacency shape the graph records.
pub struct Graph<V, E, S> {
    index: BTree<usize>,
    vertices: Vec<Vertex<V, E>>,
    capability: PhantomData<S>,
}

impl<V, E, S> Graph<V, E, S> {
    /// The vertices of the graph, in insertion order.
    pub closed spec fn vertices_seq(self) -> Seq<Vertex<V, E>> {
        self.vertices@
    }

    pub closed spec fn index_entries(self) -> Seq<(u64, usize)> {
        self.index.entries()
    }

    pub open spec fn vertex_count(self) -> nat {
        self.vertices_seq().len()
    }

    /// A vertex with this id is present.
    pub open spec fn contains_id(self, id: u64) -> bool {
        exists|i: int|
            0 <= i < self.vertices_seq().len() && (#[trigger] self.vertices_seq()[i]).id == id
    }

    /// The slot of the vertex with this id (well defined when ids are
    /// unique and the id is present).
    pub open spec fn slot_of(self, id: u64) -> int {
        choose|i: int|
            0 <= i < self.vertices_seq().len() && (#[trigger] self.vertices_seq()[i]).id == id
    }

    pub open spec fn vertex_at(self, id: u64) -> Vertex<V, E> {
        self.vertices_seq()[self.slot_of(id)]
    }

    pub open spec fn out_edges(self, id: u64) -> Seq<Edge<E>> {
        self.vertex_at(id).vicinity.out_seq()
    }

    pub open spec fn in_edges(self, id: u64) -> Seq<Edge<E>> {
        self.vertex_at(id).vicinity.in_seq()
    }

    /// Some edge record leaves `a` and enters `b`.
    pub open spec fn edge_to(self, a: u64, b: u64) -> bool {
        self.contains_id(a) && exists|k: int|
            0 <= k < self.out_edges(a).len() && (#[trigger] self.out_edges(a)[k]).end == b
    }

    /// A walk along outgoing edges: present start, every hop an edge.
    pub open spec fn valid_id_path(self, p: Seq<u64>) -> bool {
        &&& p.len() >= 1
        &&& self.contains_id(p[0])
        &&& forall|k: int| 0 <= k < p.len() - 1 ==> self.edge_to(#[trigger] p[k], p[k + 1])
    }

    /// `b` can be reached from `a` along outgoing edges (in zero or more
    /// hops; a present vertex reaches itself).
    pub open spec fn reachable(self, a: u64, b: u64) -> bool {
        exists|p: Seq<u64>| #[trigger] self.valid_id_path(p) && p[0] == a && p.last() == b
    }

    /// Some walk leaves `v` and returns to it through at least one edge.
    pub open spec fn cycle_at(self, v: u64) -> bool {
        exists|u: u64| #[trigger] self.edge_to(u, v) && self.reachable(v, u)
    }

    /// `a` reaches `b` through at least one edge: some outgoing edge of `a`
    /// leads to a vertex from which `b` is reachable.
    pub open spec fn reaches_through(self, a: u64, b: u64) -> bool {
        exists|x: u64| #[trigger] self.edge_to(a, x) && self.reachable(x, b)
    }

    /// Every edge record of vertex `w` is anchored at `w` and points at a
    /// vertex that is present in the graph.
    pub open spec fn vertex_edges_ok(self, w: Vertex<V, E>) -> bool {
        &&& forall|k: int|
            0 <= k < w.vicinity.out_seq().len() ==> ((#[trigger] w.vicinity.out_seq()[k]).start
                == w.id && self.contains_id(w.vicinity.out_seq()[k].end))
        &&& forall|k: int|
            0 <= k < w.vicinity.in_seq().len() ==> ((#[trigger] w.vicinity.in_seq()[k]).end == w.id
                && self.contains_id(w.vicinity.in_seq()[k].start))
    }

    /// The graph's invariant: a well-formed index that is a bijection
    /// between present ids and arena slots, unique vertex ids, and edge
    /// records whose endpoints are all present.
    pub closed spec fn wf(self) -> bool {
        &&& self.index.wf()
        &&& self.index_entries().len() == self.vertices@.len()
        &&& forall|j: int|
            0 <= j < self.index_entries().len() ==> ((#[trigger] self.index_entries()[j]).1
                < self.vertices@.len() && self.vertices@[self.index_entries()[j].1 as int].id
                == self.index_entries()[j].0)
        &&& forall|i: int|
            0 <= i < self.vertices@.len() ==> #[trigger] self.index_entries().contains(
                (self.vertices@[i].id, i as usize),
            )
        &&& forall|i: int, k: int|
            0 <= i < self.vertices@.len() && 0 <= k < self.vertices@.len() && i != k ==> (
            #[trigger] self.vertices@[i]).id != (#[trigger] self.vertices@[k]).id
        &&& forall|i: int|
            0 <= i < self.vertices@.len() ==> self.vertex_edges_ok(#[trigger] self.vertices@[i])
    }

    /// All vertices have the given adjacency shape.
    pub open spec fn all_shapes(self, tag: ShapeTag) -> bool {
        forall|i: int|
            0 <= i < self.vertices_seq().len() ==> (#[trigger] self.vertices_seq()[i]).vicinity.spec_tag()
                == tag
    }

    /// An empty graph.
    pub fn new() -> (r: Self)
        ensures
            r.wf(),
            r.vertices_seq() == Seq::<Vertex<V, E>>::empty(),
    {
        let r = Graph {
            index: BTree::new(2),
            vertices: Vec::new(),
            capability: PhantomData,
        };
        proof {
            assert(entry_keys(r.index_entries()) =~= Seq::<u64>::empty());
        }
        r
    }
}

/// A present id is exactly one that the ordered index knows, and its chosen
/// slot is consistent.
pub proof fn lemma_index_bridge<V, E, S>(g: Graph<V, E, S>, id: u64)
    requires
        g.wf(),
    ensures
        g.contains_id(id) <==> entry_keys(g.index_entries()).contains(id),
        g.contains_id(id) ==> 0 <= g.slot_of(id) < g.vertices_seq().len()
            && g.vertices_seq()[g.slot_of(id)].id == id,
{
    if g.contains_id(id) {
        let i = g.slot_of(id);
        assert(g.index_entries().contains((g.vertices_seq()[i].id, i as usize)));
        let j = choose|j: int|
            0 <= j < g.index_entries().len() && g.index_entries()[j] == (id, i as usize);
        assert(entry_keys(g.index_entries())[j] == id);
    }
    if entry_keys(g.index_entries()).contains(id) {
        crate::btree::node::lemma_keys_member(g.index_entries(), id);
        let j = choose|j: int|
            0 <= j < g.index_entries().len() && (#[trigger] g.index_entries()[j]).0 == id;
        let slot = g.index_entries()[j].1;
        assert(g.vertices_seq()[slot as int].id == id);
    }
}

/// An index entry resolves to the arena slot that `slot_of` denotes.
pub proof fn lemma_slot_lookup<V, E, S>(g: Graph<V, E, S>, id: u64, slot: usize)
    requires
        g.wf(),
        g.index_entries().contains((id, slot)),
    ensures
        slot < g.vertices_seq().len(),
        g.vertices_seq()[slot as int].id == id,
        g.contains_id(id),
        g.slot_of(id) == slot as int,
{
    let j = choose|j: int|
        0 <= j < g.index_entries().len() && g.index_entries()[j] == (id, slot);
    assert(g.index_entries()[j].1 < g.vertices_seq().len());
    assert(g.vertices_seq()[slot as int].id == id);
    let i = g.slot_of(id);
    assert(g.vertices_seq()[i].id == id);
    if i != slot as int {
        assert(g.vertices_seq()[i].id != g.vertices_seq()[slot as int].id);
    }
}

impl<V, E, S> Graph<V, E, S> {
    /// The embedded edges of a vicinity handed to `add_vertex` are anchored
    /// at the new vertex and point only at it or at present vertices.
    pub open spec fn spec_vicinity_ok(self, id: u64, vc: Vicinity<E>) -> bool {
        &&& forall|k: int|
            0 <= k < vc.out_seq().len() ==> ((#[trigger] vc.out_seq()[k]).start == id && (
            vc.out_seq()[k].end == id || self.contains_id(vc.out_seq()[k].end)))
        &&& forall|k: int|
            0 <= k < vc.in_seq().len() ==> ((#[trigger] vc.in_seq()[k]).end == id && (
            vc.in_seq()[k].start == id || self.contains_id(vc.in_seq()[k].start)))
    }

    /// Looks up the arena slot of a vertex id.
    fn find_slot(&self, id: u64) -> (r: Option<usize>)
        requires
            self.wf(),
        ensures
            match r {
                Some(s) => self.contains_id(id) && s as int == self.slot_of(id) && (s as int)
                    < self.vertices_seq().len(),
                None => !self.contains_id(id),
            },
    {
        proof {
            lemma_index_bridge(*self, id);
        }
        match self.index.search(id) {
            Ok(s) => {
                let slot = *s;
                proof {
                    lemma_slot_lookup(*self, id, slot);
                }
                Some(slot)
            },
            Err(_) => None,
        }
    }

    /// Whether an endpoint id is the new vertex itself or already present.
    fn endpoint_ok(&self, id: u64, endpoint: u64) -> (r: bool)
        requires
            self.wf(),
        ensures
            r == (endpoint == id || self.contains_id(endpoint)),
    {
        proof {
            lemma_index_bridge(*self, endpoint);
        }
        endpoint == id || self.index.contains(endpoint)
    }

    /// Checks one optional edge list in the outgoing direction.
    fn out_list_ok(&self, id: u64, edges: &Option<Vec<Edge<E>>>) -> (r: bool)
        requires
            self.wf(),
        ensures
            r == forall|k: int|
                0 <= k < opt_edges_spec(*edges).len() ==> ((#[trigger] opt_edges_spec(
                    *edges,
                )[k]).start == id && (opt_edges_spec(*edges)[k].end == id || self.contains_id(
                    opt_edges_spec(*edges)[k].end,
                ))),
    {
        match edges {
            None => true,
            Some(es) => {
                let mut k: usize = 0;
                let mut ok = true;
                while k < es.len()
                    invariant
                        self.wf(),
                        0 <= k <= es@.len(),
                        opt_edges_spec(*edges) == es@,
                        ok == forall|m: int|
                            0 <= m < k ==> ((#[trigger] es@[m]).start == id && (es@[m].end == id
                                || self.contains_id(es@[m].end))),
                    decreases es@.len() - k,
                {
                    let good = es[k].start == id && self.endpoint_ok(id, es[k].end);
                    ok = ok && good;
                    k += 1;
                }
                ok
            },
        }
    }

    /// Checks one optional edge list in the ingoing direction.
    fn in_list_ok(&self, id: u64, edges: &Option<Vec<Edge<E>>>) -> (r: bool)
        requires
            self.wf(),
        ensures
            r == forall|k: int|
                0 <= k < opt_edges_spec(*edges).len() ==> ((#[trigger] opt_edges_spec(
                    *edges,
                )[k]).end == id && (opt_edges_spec(*edges)[k].start == id || self.contains_id(
                    opt_edges_spec(*edges)[k].start,
                ))),
    {
        match edges {
            None => true,
            Some(es) => {
                let mut k: usize = 0;
                let mut ok = true;
                while k < es.len()
                    invariant
                        self.wf(),
                        0 <= k <= es@.len(),
                        opt_edges_spec(*edges) == es@,
                        ok == forall|m: int|
                            0 <= m < k ==> ((#[trigger] es@[m]).end == id && (es@[m].start == id
                                || self.contains_id(es@[m].start))),
                    decreases es@.len() - k,
                {
                    let good = es[k].end == id && self.endpoint_ok(id, es[k].start);
                    ok = ok && good;
                    k += 1;
                }
                ok
            },
        }
    }

    /// Checks every embedded edge of a vicinity handed to `add_vertex`.
    fn vicinity_ok(&self, id: u64, vicinity: &Vicinity<E>) -> (r: bool)
        requires
            self.wf(),
        ensures
            r == self.spec_vicinity_ok(id, *vicinity),
    {
        match vicinity {
            Vicinity::Outgoing { edges } => {
                proof {
                    assert(vicinity.out_seq() == opt_edges_spec(*edges));
                    assert(vicinity.in_seq().len() == 0);
                }
                self.out_list_ok(id, edges)
            },
            Vicinity::Ingoing { edges } => {
                proof {
                    assert(vicinity.in_seq() == opt_edges_spec(*edges));
                    assert(vicinity.out_seq().len() == 0);
                }
                self.in_list_ok(id, edges)
            },
            Vicinity::Both { ingoing_edges, outgoing_edges } => {
                proof {
                    assert(vicinity.out_seq() == opt_edges_spec(*outgoing_edges));
                    assert(vicinity.in_seq() == opt_edges_spec(*ingoing_edges));
                }
                let a = self.out_list_ok(id, outgoing_edges);
                let b = self.in_list_ok(id, ingoing_edges);
                a && b
            },
        }
    }
}

impl<V, E, S> Graph<V, E, S> {
    /// Inserts a fresh vertex: indexes its id and appends it to the arena.
    /// Shared by every capability's `add_vertex`, after the shape check.
    #[verifier::rlimit(60)]
    fn insert_vertex(&mut self, id: u64, info: V, vicinity: Vicinity<E>) -> (r: Result<
        (),
        Error,
    >)
        requires
            old(self).wf(),
        ensures
            final(self).wf(),
            match r {
                Err(e) => {
                    &&& *final(self) == *old(self)
                    &&& (e == Error::VertexAlreadyExists && old(self).contains_id(id) || (e
                        == Error::KeyWasNotFound && !old(self).contains_id(id) && !old(self).spec_vicinity_ok(id, vicinity)))
                },
                Ok(u) => {
                    &&& !old(self).contains_id(id)
                    &&& old(self).spec_vicinity_ok(id, vicinity)
                    &&& final(self).vertices_seq() == old(self).vertices_seq().push(
                        Vertex { id, info, vicinity },
                    )
                },
            },
    {
        broadcast use vstd::seq_lib::group_to_multiset_ensures;

        match self.find_slot(id) {
            Some(_) => {
                return Err(Error::VertexAlreadyExists);
            },
            None => {},
        }
        if !self.vicinity_ok(id, &vicinity) {
            return Err(Error::KeyWasNotFound);
        }
        let slot = self.vertices.len();
        proof {
            lemma_index_bridge(*self, id);
        }
        let ghost oldg = *self;
        let ir = self.index.insert(id, slot);
        match ir {
            Ok(_) => {},
            Err(_) => {
                proof {
                    assert(false);
                }
                return Err(Error::UnexpectedError);
            },
        }
        self.vertices.push(Vertex { id, info, vicinity });
        proof {
            let g2 = *self;
            let oe = oldg.index_entries();
            let ne = g2.index_entries();
            let ov = oldg.vertices_seq();
            let nv = g2.vertices_seq();
            let newpair = (id, slot);
            assert(nv == ov.push(Vertex { id, info, vicinity }));
            assert(ne.to_multiset() == oe.to_multiset().insert(newpair));
            assert(ne.len() == ne.to_multiset().len());
            assert(oe.len() == oe.to_multiset().len());
            assert(ne.len() == ov.len() + 1);
            // each new index entry is an old one or the fresh pair
            assert forall|j: int| 0 <= j < ne.len() implies ((#[trigger] ne[j]).1 < nv.len()
                && nv[ne[j].1 as int].id == ne[j].0) by {
                let e = ne[j];
                assert(ne.contains(e));
                assert(ne.to_multiset().count(e) > 0);
                if e == newpair {
                    assert(nv[slot as int] == Vertex { id, info, vicinity });
                } else {
                    assert(oe.to_multiset().count(e) > 0);
                    assert(oe.contains(e));
                    let w = choose|w: int| 0 <= w < oe.len() && oe[w] == e;
                    assert(oe[w].1 < ov.len() && ov[oe[w].1 as int].id == oe[w].0);
                    assert(nv[e.1 as int] == ov[e.1 as int]);
                }
            }
            // each arena slot is still indexed
            assert forall|i: int| 0 <= i < nv.len() implies #[trigger] ne.contains(
                (nv[i].id, i as usize),
            ) by {
                if i < ov.len() {
                    assert(oe.contains((ov[i].id, i as usize)));
                    assert(oe.to_multiset().count((ov[i].id, i as usize)) > 0);
                    assert(ne.to_multiset().count((nv[i].id, i as usize)) > 0);
                } else {
                    assert(nv[i].id == id && i == slot as int);
                    assert(ne.to_multiset().count(newpair) > 0);
                }
            }
            // ids stay unique
            assert forall|i: int, k: int|
                0 <= i < nv.len() && 0 <= k < nv.len() && i != k implies (
            #[trigger] nv[i]).id != (#[trigger] nv[k]).id by {
                if i < ov.len() && k < ov.len() {
                    assert(ov[i].id != ov[k].id);
                } else if i == ov.len() {
                    assert(nv[i].id == id);
                    assert(!oldg.contains_id(id));
                } else if k == ov.len() {
                    assert(nv[k].id == id);
                    assert(!oldg.contains_id(id));
                }
            }
            // presence is monotone under pushing a vertex
            assert forall|x: u64| oldg.contains_id(x) || x == id implies g2.contains_id(x) by {
                if oldg.contains_id(x) {
                    let w = oldg.slot_of(x);
                    assert(nv[w].id == x);
                } else {
                    assert(nv[ov.len() as int].id == id);
                }
            }
            // every vertex's edges still point at present vertices
            assert forall|i: int| 0 <= i < nv.len() implies g2.vertex_edges_ok(
                #[trigger] nv[i],
            ) by {
                if i < ov.len() {
                    assert(oldg.vertex_edges_ok(ov[i]));
                    assert(nv[i] == ov[i]);
                } else {
                    assert(nv[i] == Vertex { id, info, vicinity });
                    assert(oldg.spec_vicinity_ok(id, vicinity));
                }
            }
        }
        Ok(())
    }
}

impl<V, E, S> Graph<V, E, S> {
    /// Appends an edge record to the outgoing list of the vertex in `slot`,
    /// creating the list if the record still holds `None`.
    fn push_out(&mut self, slot: usize, e: Edge<E>) -> (r: ())
        requires
            old(self).wf(),
            (slot as int) < old(self).vertices_seq().len(),
            old(self).vertices_seq()[slot as int].vicinity.spec_tag() != ShapeTag::Ingoing,
            e.start == old(self).vertices_seq()[slot as int].id,
            old(self).contains_id(e.end),
        ensures
            final(self).wf(),
            final(self).index_entries() == old(self).index_entries(),
            final(self).vertices_seq().len() == old(self).vertices_seq().len(),
            forall|i: int|
                0 <= i < old(self).vertices_seq().len() && i != slot as int
                    ==> final(self).vertices_seq()[i] == old(self).vertices_seq()[i],
            final(self).vertices_seq()[slot as int].id == old(self).vertices_seq()[slot as int].id,
            final(self).vertices_seq()[slot as int].info == old(self).vertices_seq()[slot as int].info,
            final(self).vertices_seq()[slot as int].vicinity.spec_tag() == old(self).vertices_seq()[slot as int].vicinity.spec_tag(),
            final(self).vertices_seq()[slot as int].vicinity.out_seq() == old(self).vertices_seq()[slot as int].vicinity.out_seq().push(e),
            final(self).vertices_seq()[slot as int].vicinity.in_seq() == old(self).vertices_seq()[slot as int].vicinity.in_seq(),
    {
        let ghost oldg = *self;
        let ghost ge = e;
        let v = &mut self.vertices[slot];
        match &mut v.vicinity {
            Vicinity::Outgoing { edges } => {
                match edges {
                    Some(es) => {
                        es.push(e);
                    },
                    None => {
                        let mut es: Vec<Edge<E>> = Vec::new();
                        es.push(e);
                        *edges = Some(es);
                    },
                }
            },
            Vicinity::Both { ingoing_edges: _, outgoing_edges } => {
                match outgoing_edges {
                    Some(es) => {
                        es.push(e);
                    },
                    None => {
                        let mut es: Vec<Edge<E>> = Vec::new();
                        es.push(e);
                        *outgoing_edges = Some(es);
                    },
                }
            },
            Vicinity::Ingoing { .. } => {
                proof {
                    assert(false);
                }
            },
        }
        proof {
            let ov = oldg.vertices_seq();
            let nv = self.vertices_seq();
            assert(nv[slot as int].vicinity.out_seq() =~= ov[slot as int].vicinity.out_seq().push(
                ge,
            ));
            assert forall|i: int| 0 <= i < nv.len() implies {
                let w = #[trigger] nv[i];
                &&& forall|k: int|
                    0 <= k < w.vicinity.out_seq().len() ==> ((#[trigger] w.vicinity.out_seq()[k]).start
                        == w.id && oldg.contains_id(w.vicinity.out_seq()[k].end))
                &&& forall|k: int|
                    0 <= k < w.vicinity.in_seq().len() ==> ((#[trigger] w.vicinity.in_seq()[k]).end
                        == w.id && oldg.contains_id(w.vicinity.in_seq()[k].start))
            } by {
                assert(oldg.vertex_edges_ok(ov[i]));
                if i == slot as int {
                    let w = nv[i];
                    assert forall|k: int|
                        0 <= k < w.vicinity.out_seq().len() implies ((#[trigger] w.vicinity.out_seq()[k]).start
                        == w.id && oldg.contains_id(w.vicinity.out_seq()[k].end)) by {
                        if k < ov[i].vicinity.out_seq().len() {
                            assert(w.vicinity.out_seq()[k] == ov[i].vicinity.out_seq()[k]);
                        } else {
                            assert(w.vicinity.out_seq()[k] == ge);
                        }
                    }
                } else {
                    assert(nv[i] == ov[i]);
                }
            }
            lemma_same_ids_wf(oldg, *self);
        }
    }

    /// Appends an edge record to the ingoing list of the vertex in `slot`,
    /// creating the list if the record still holds `None`.
    fn push_in(&mut self, slot: usize, e: Edge<E>) -> (r: ())
        requires
            old(self).wf(),
            (slot as int) < old(self).vertices_seq().len(),
            old(self).vertices_seq()[slot as int].vicinity.spec_tag() != ShapeTag::Outgoing,
            e.end == old(self).vertices_seq()[slot as int].id,
            old(self).contains_id(e.start),
        ensures
            final(self).wf(),
            final(self).index_entries() == old(self).index_entries(),
            final(self).vertices_seq().len() == old(self).vertices_seq().len(),
            forall|i: int|
                0 <= i < old(self).vertices_seq().len() && i != slot as int
                    ==> final(self).vertices_seq()[i] == old(self).vertices_seq()[i],
            final(self).vertices_seq()[slot as int].id == old(self).vertices_seq()[slot as int].id,
            final(self).vertices_seq()[slot as int].info == old(self).vertices_seq()[slot as int].info,
            final(self).vertices_seq()[slot as int].vicinity.spec_tag() == old(self).vertices_seq()[slot as int].vicinity.spec_tag(),
            final(self).vertices_seq()[slot as int].vicinity.in_seq() == old(self).vertices_seq()[slot as int].vicinity.in_seq().push(e),
            final(self).vertices_seq()[slot as int].vicinity.out_seq() == old(self).vertices_seq()[slot as int].vicinity.out_seq(),
    {
        let ghost oldg = *self;
        let ghost ge = e;
        let v = &mut self.vertices[slot];
        match &mut v.vicinity {
            Vicinity::Ingoing { edges } => {
                match edges {
                    Some(es) => {
                        es.push(e);
                    },
                    None => {
                        let mut es: Vec<Edge<E>> = Vec::new();
                        es.push(e);
                        *edges = Some(es);
                    },
                }
            },
            Vicinity::Both { ingoing_edges, outgoing_edges: _ } => {
                match ingoing_edges {
                    Some(es) => {
                        es.push(e);
                    },
                    None => {
                        let mut es: Vec<Edge<E>> = Vec::new();
                        es.push(e);
                        *ingoing_edges = Some(es);
                    },
                }
            },
            Vicinity::Outgoing { .. } => {
                proof {
                    assert(false);
                }
            },
        }
        proof {
            let ov = oldg.vertices_seq();
            let nv = self.vertices_seq();
            assert(nv[slot as int].vicinity.in_seq() =~= ov[slot as int].vicinity.in_seq().push(
                ge,
            ));
            assert forall|i: int| 0 <= i < nv.len() implies {
                let w = #[trigger] nv[i];
                &&& forall|k: int|
                    0 <= k < w.vicinity.out_seq().len() ==> ((#[trigger] w.vicinity.out_seq()[k]).start
                        == w.id && oldg.contains_id(w.vicinity.out_seq()[k].end))
                &&& forall|k: int|
                    0 <= k < w.vicinity.in_seq().len() ==> ((#[trigger] w.vicinity.in_seq()[k]).end
                        == w.id && oldg.contains_id(w.vicinity.in_seq()[k].start))
            } by {
                assert(oldg.vertex_edges_ok(ov[i]));
                if i == slot as int {
                    let w = nv[i];
                    assert forall|k: int|
                        0 <= k < w.vicinity.in_seq().len() implies ((#[trigger] w.vicinity.in_seq()[k]).end
                        == w.id && oldg.contains_id(w.vicinity.in_seq()[k].start)) by {
                        if k < ov[i].vicinity.in_seq().len() {
                            assert(w.vicinity.in_seq()[k] == ov[i].vicinity.in_seq()[k]);
                        } else {
                            assert(w.vicinity.in_seq()[k] == ge);
                        }
                    }
                } else {
                    assert(nv[i] == ov[i]);
                }
            }
            lemma_same_ids_wf(oldg, *self);
        }
    }
}

/// If a graph changes only inside vertex adjacency lists, keeping every id,
/// every endpoint already present, and the index itself, it stays well
/// formed and contains the same ids.
proof fn lemma_same_ids_wf<V, E, S>(g1: Graph<V, E, S>, g2: Graph<V, E, S>)
    requires
        g1.wf(),
        g2.index_entries() == g1.index_entries(),
        g2.vertices_seq().len() == g1.vertices_seq().len(),
        forall|i: int|
            0 <= i < g1.vertices_seq().len() ==> (#[trigger] g2.vertices_seq()[i]).id
                == g1.vertices_seq()[i].id,
        g2.index.wf(),
        forall|i: int|
            0 <= i < g2.vertices_seq().len() ==> {
                let w = #[trigger] g2.vertices_seq()[i];
                &&& forall|k: int|
                    0 <= k < w.vicinity.out_seq().len() ==> ((#[trigger] w.vicinity.out_seq()[k]).start
                        == w.id && g1.contains_id(w.vicinity.out_seq()[k].end))
                &&& forall|k: int|
                    0 <= k < w.vicinity.in_seq().len() ==> ((#[trigger] w.vicinity.in_seq()[k]).end
                        == w.id && g1.contains_id(w.vicinity.in_seq()[k].start))
            },
    ensures
        g2.wf(),
        forall|x: u64| #[trigger] g2.contains_id(x) == g1.contains_id(x),
        forall|x: u64| g1.contains_id(x) ==> #[trigger] g2.slot_of(x) == g1.slot_of(x),
{
    assert forall|x: u64| #[trigger] g2.contains_id(x) == g1.contains_id(x) by {
        if g1.contains_id(x) {
            let i = g1.slot_of(x);
            assert(g2.vertices_seq()[i].id == x);
        }
        if g2.contains_id(x) {
            let i = g2.slot_of(x);
            assert(g1.vertices_seq()[i].id == x);
        }
    }
    assert forall|i: int| 0 <= i < g2.vertices_seq().len() implies g2.vertex_edges_ok(
        #[trigger] g2.vertices_seq()[i],
    ) by {
        let w = g2.vertices_seq()[i];
        assert forall|k: int|
            0 <= k < w.vicinity.out_seq().len() implies ((#[trigger] w.vicinity.out_seq()[k]).start
            == w.id && g2.contains_id(w.vicinity.out_seq()[k].end)) by {
            assert(g1.contains_id(w.vicinity.out_seq()[k].end));
        }
        assert forall|k: int|
            0 <= k < w.vicinity.in_seq().len() implies ((#[trigger] w.vicinity.in_seq()[k]).end
            == w.id && g2.contains_id(w.vicinity.in_seq()[k].start)) by {
            assert(g1.contains_id(w.vicinity.in_seq()[k].start));
        }
    }
    assert forall|x: u64| g1.contains_id(x) implies #[trigger] g2.slot_of(x) == g1.slot_of(x) by {
        let i1 = g1.slot_of(x);
        let i2 = g2.slot_of(x);
        assert(g2.vertices_seq()[i1].id == x);
        assert(g1.vertices_seq()[i2].id == x);
        if i1 != i2 {
            assert(g1.vertices_seq()[i1].id != g1.vertices_seq()[i2].id);
        }
    }
}

/// Two well-formed graphs over the same ids (slot by slot) contain the same
/// ids, at the same slots.
proof fn lemma_same_ids_slots<V, E, S>(g1: Graph<V, E, S>, g2: Graph<V, E, S>)
    requires
        g1.wf(),
        g2.wf(),
        g2.vertices_seq().len() == g1.vertices_seq().len(),
        forall|i: int|
            0 <= i < g1.vertices_seq().len() ==> (#[trigger] g2.vertices_seq()[i]).id
                == g1.vertices_seq()[i].id,
    ensures
        forall|x: u64| #[trigger] g2.contains_id(x) == g1.contains_id(x),
        forall|x: u64| g1.contains_id(x) ==> #[trigger] g2.slot_of(x) == g1.slot_of(x),
{
    assert forall|x: u64| #[trigger] g2.contains_id(x) == g1.contains_id(x) by {
        if g1.contains_id(x) {
            let i = g1.slot_of(x);
            assert(g2.vertices_seq()[i].id == x);
        }
        if g2.contains_id(x) {
            let i = g2.slot_of(x);
            assert(g1.vertices_seq()[i].id == x);
        }
    }
    assert forall|x: u64| g1.contains_id(x) implies #[trigger] g2.slot_of(x) == g1.slot_of(x) by {
        let i1 = g1.slot_of(x);
        let i2 = g2.slot_of(x);
        assert(g2.vertices_seq()[i1].id == x);
        assert(g1.vertices_seq()[i2].id == x);
        if i1 != i2 {
            assert(g1.vertices_seq()[i1].id != g1.vertices_seq()[i2].id);
        }
    }
}

impl<V, E: Clone, S> Graph<V, E, S> {
    /// Adds a directed edge from `start` to `end` carrying `info`. Fails
    /// with `KeyWasNotFound` if either endpoint is absent, and with
    /// `MismatchedVicinity` if the two endpoints' adjacency shapes differ.
    /// Otherwise the edge is appended to the outgoing list of `start` and/or
    /// the ingoing list of `end`, as the endpoints' shape records; with the
    /// `Both` shape the payload is cloned into a second, independent record.
    #[verifier::rlimit(60)]
    pub fn add_edge(&mut self, info: E, start: u64, end: u64) -> (r: Result<(), Error>)
        requires
            old(self).wf(),
        ensures
            final(self).wf(),
            final(self).vertices_seq().len() == old(self).vertices_seq().len(),
            forall|i: int|
                0 <= i < old(self).vertices_seq().len() ==> {
                    let wv = #[trigger] final(self).vertices_seq()[i];
                    let ov = old(self).vertices_seq()[i];
                    wv.id == ov.id && wv.vicinity.spec_tag() == ov.vicinity.spec_tag() && wv.info
                        == ov.info
                },
            forall|x: u64| #[trigger] final(self).contains_id(x) == old(self).contains_id(x),
            match r {
                Err(e) => {
                    &&& *final(self) == *old(self)
                    &&& (e == Error::KeyWasNotFound <==> (!old(self).contains_id(start) || !old(self).contains_id(end)))
                    &&& (e == Error::MismatchedVicinity ==> old(self).contains_id(start) && old(self).contains_id(end) && old(self).vertex_at(start).vicinity.spec_tag() != old(self).vertex_at(end).vicinity.spec_tag())
                    &&& (e == Error::KeyWasNotFound || e == Error::MismatchedVicinity)
                },
                Ok(u) => {
                    &&& old(self).contains_id(start)
                    &&& old(self).contains_id(end)
                    &&& old(self).vertex_at(start).vicinity.spec_tag() == old(self).vertex_at(
                        end,
                    ).vicinity.spec_tag()
                    &&& (old(self).vertex_at(start).vicinity.spec_tag() == ShapeTag::Outgoing ==> {
                        &&& final(self).out_edges(start) == old(self).out_edges(start).push(
                            Edge { info, start, end },
                        )
                        &&& final(self).vertex_at(start).vicinity.in_seq() == old(self).in_edges(
                            start,
                        )
                        &&& forall|x: u64|
                            old(self).contains_id(x) && x != start ==> #[trigger] final(self).vertex_at(x) == old(self).vertex_at(x)
                    })
                    &&& (old(self).vertex_at(start).vicinity.spec_tag() == ShapeTag::Ingoing ==> {
                        &&& final(self).in_edges(end) == old(self).in_edges(end).push(
                            Edge { info, start, end },
                        )
                        &&& final(self).vertex_at(end).vicinity.out_seq() == old(self).out_edges(
                            end,
                        )
                        &&& forall|x: u64|
                            old(self).contains_id(x) && x != end ==> #[trigger] final(self).vertex_at(x) == old(self).vertex_at(x)
                    })
                    &&& (old(self).vertex_at(start).vicinity.spec_tag() == ShapeTag::Both ==> {
                        &&& final(self).out_edges(start) == old(self).out_edges(start).push(
                            Edge { info, start, end },
                        )
                        &&& exists|e2: Edge<E>|
                            e2.start == start && e2.end == end && vstd::pervasive::cloned::<E>(
                                info,
                                e2.info,
                            ) && #[trigger] final(self).in_edges(end) == old(self).in_edges(
                                end,
                            ).push(e2)
                        &&& final(self).vertex_at(start).vicinity.in_seq() == old(self).in_edges(
                            start,
                        ) || start == end
                        &&& (start != end ==> final(self).vertex_at(end).vicinity.out_seq() == old(self).out_edges(end))
                        &&& forall|x: u64|
                            old(self).contains_id(x) && x != start && x != end ==> #[trigger] final(self).vertex_at(x) == old(self).vertex_at(x)
                    })
                },
            },
    {
        let sslot = match self.find_slot(start) {
            Some(s) => s,
            None => {
                return Err(Error::KeyWasNotFound);
            },
        };
        let eslot = match self.find_slot(end) {
            Some(s) => s,
            None => {
                return Err(Error::KeyWasNotFound);
            },
        };
        let stag = self.vertices[sslot].vicinity.tag();
        let etag = self.vertices[eslot].vicinity.tag();
        if stag != etag {
            return Err(Error::MismatchedVicinity);
        }
        let ghost g0 = *self;
        match stag {
            ShapeTag::Outgoing => {
                self.push_out(sslot, Edge { info, start, end });
                proof {
                    lemma_same_ids_slots(g0, *self);
                }
                Ok(())
            },
            ShapeTag::Ingoing => {
                self.push_in(eslot, Edge { info, start, end });
                proof {
                    lemma_same_ids_slots(g0, *self);
                }
                Ok(())
            },
            ShapeTag::Both => {
                let info2 = info.clone();
                proof {
                    assert(vstd::pervasive::cloned::<E>(info, info2));
                }
                self.push_out(sslot, Edge { info, start, end });
                let ghost g1 = *self;
                proof {
                    lemma_same_ids_slots(g0, g1);
                }
                self.push_in(eslot, Edge { info: info2, start, end });
                proof {
                    lemma_same_ids_slots(g1, *self);
                    lemma_same_ids_slots(g0, *self);
                    let e2 = Edge { info: info2, start, end };
                    assert(final(self).in_edges(end) == g0.in_edges(end).push(e2));
                }
                Ok(())
            },
        }
    }
}

/// A present vertex reaches itself.
pub proof fn lemma_reachable_refl<V, E, S>(g: Graph<V, E, S>, a: u64)
    requires
        g.contains_id(a),
    ensures
        g.reachable(a, a),
{
    let p = seq![a];
    assert(g.valid_id_path(p));
    assert(p[0] == a && p.last() == a);
}

/// Reachability extends along one more edge.
pub proof fn lemma_reachable_step<V, E, S>(g: Graph<V, E, S>, a: u64, b: u64, c: u64)
    requires
        g.reachable(a, b),
        g.edge_to(b, c),
    ensures
        g.reachable(a, c),
{
    let p = choose|p: Seq<u64>| #[trigger] g.valid_id_path(p) && p[0] == a && p.last() == b;
    let q = p.push(c);
    assert forall|k: int| 0 <= k < q.len() - 1 implies #[trigger] g.edge_to(q[k], q[k + 1]) by {
        if k < p.len() - 1 {
            assert(g.edge_to(p[k], p[k + 1]));
            assert(q[k] == p[k] && q[k + 1] == p[k + 1]);
        } else {
            assert(q[k] == b && q[k + 1] == c);
        }
    }
    assert(g.valid_id_path(q));
    assert(q[0] == a && q.last() == c);
}

/// Reachability extends backwards along one edge.
pub proof fn lemma_reachable_prepend<V, E, S>(g: Graph<V, E, S>, a: u64, b: u64, c: u64)
    requires
        g.edge_to(a, b),
        g.reachable(b, c),
    ensures
        g.reachable(a, c),
{
    let p = choose|p: Seq<u64>| #[trigger] g.valid_id_path(p) && p[0] == b && p.last() == c;
    let q = seq![a] + p;
    assert forall|k: int| 0 <= k < q.len() - 1 implies g.edge_to(#[trigger] q[k], q[k + 1]) by {
        if k == 0 {
            assert(q[0] == a && q[1] == p[0]);
        } else {
            assert(q[k] == p[k - 1] && q[k + 1] == p[k]);
            assert(g.edge_to(p[k - 1], p[k]));
        }
    }
    assert(q[0] == a && q.last() == c);
    assert(g.valid_id_path(q));
}

/// A walk that leaves `w` through an edge and comes back to `w` puts `w` on
/// a cycle.
pub proof fn lemma_closed_walk_cycle<V, E, S>(g: Graph<V, E, S>, w: u64)
    requires
        g.wf(),
        g.reaches_through(w, w),
    ensures
        g.cycle_at(w),
{
    let x = choose|x: u64| #[trigger] g.edge_to(w, x) && g.reachable(x, w);
    assert(g.edge_to(w, x) && g.reachable(x, w));
    let p = choose|p: Seq<u64>| #[trigger] g.valid_id_path(p) && p[0] == x && p.last() == w;
    if p.len() == 1 {
        assert(x == w);
        lemma_reachable_refl(g, w);
    } else {
        let u = p[p.len() - 2];
        assert(g.edge_to(u, w));
        let q = p.subrange(0, p.len() - 1);
        assert forall|k: int| 0 <= k < q.len() - 1 implies g.edge_to(#[trigger] q[k], q[k + 1]) by {
            assert(q[k] == p[k] && q[k + 1] == p[k + 1]);
            assert(g.edge_to(p[k], p[k + 1]));
        }
        assert(q[0] == x && q.last() == u);
        assert(g.valid_id_path(q));
        assert(g.reachable(x, u));
        lemma_reachable_prepend(g, w, x, u);
        assert(g.reachable(w, u));
    }
}

/// What the graph invariant guarantees about adjacency records, exported
/// for callers: every outgoing edge of a present vertex starts at that
/// vertex and leads to a present vertex, and every ingoing edge ends at it
/// and comes from a present one. So every path the engine hands out is made
/// of edges anchored at the vertices it was collected from.
pub proof fn lemma_adjacency_anchored<V, E, S>(g: Graph<V, E, S>, v: u64)
    requires
        g.wf(),
        g.contains_id(v),
    ensures
        forall|k: int|
            0 <= k < g.out_edges(v).len() ==> ((#[trigger] g.out_edges(v)[k]).start == v
                && g.contains_id(g.out_edges(v)[k].end)),
        forall|k: int|
            0 <= k < g.in_edges(v).len() ==> ((#[trigger] g.in_edges(v)[k]).end == v
                && g.contains_id(g.in_edges(v)[k].start)),
{
    let i = g.slot_of(v);
    assert(g.vertex_edges_ok(g.vertices_seq()[i]));
}

/// In a well-formed graph, edges lead only to present vertices.
pub proof fn lemma_edge_to_present<V, E, S>(g: Graph<V, E, S>, a: u64, b: u64)
    requires
        g.wf(),
        g.edge_to(a, b),
    ensures
        g.contains_id(b),
{
    let i = g.slot_of(a);
    assert(g.vertex_edges_ok(g.vertices_seq()[i]));
    let k = choose|k: int| 0 <= k < g.out_edges(a).len() && (#[trigger] g.out_edges(a)[k]).end == b;
    assert(g.vertices_seq()[i].vicinity.out_seq()[k].end == b);
}

/// Walking a valid path cannot leave a set that contains the start and is
/// closed under outgoing edges.
pub proof fn lemma_path_in_closed_set<V, E, S>(g: Graph<V, E, S>, p: Seq<u64>, d: Seq<u64>)
    requires
        g.wf(),
        g.valid_id_path(p),
        d.contains(p[0]),
        forall|u: u64, w: u64| d.contains(u) && #[trigger] g.edge_to(u, w) ==> d.contains(w),
    ensures
        d.contains(p.last()),
    decreases p.len(),
{
    if p.len() > 1 {
        assert(g.edge_to(p[0], p[1]));
        lemma_edge_to_present(g, p[0], p[1]);
        let q = p.drop_first();
        assert forall|k: int| 0 <= k < q.len() - 1 implies #[trigger] g.edge_to(q[k], q[k + 1]) by {
            assert(g.edge_to(p[k + 1], p[k + 2]));
        }
        assert(g.valid_id_path(q));
        assert(d.contains(q[0]));
        lemma_path_in_closed_set(g, q, d);
        assert(q.last() == p.last());
    }
}

/// A duplicate-free run of present ids cannot be longer than the vertex
/// count.
pub proof fn lemma_unique_ids_bound<V, E, S>(g: Graph<V, E, S>, d: Seq<u64>)
    requires
        g.wf(),
        d.no_duplicates(),
        forall|x: u64| #[trigger] d.contains(x) ==> g.contains_id(x),
    ensures
        d.len() <= g.vertices_seq().len(),
{
    broadcast use vstd::seq_lib::group_seq_properties;

    let ids = g.vertices_seq().map_values(|w: Vertex<V, E>| w.id);
    d.unique_seq_to_set();
    ids.lemma_cardinality_of_set();
    assert forall|x: u64| d.to_set().contains(x) implies ids.to_set().contains(x) by {
        assert(d.contains(x));
        let i = g.slot_of(x);
        assert(ids[i] == x);
        assert(ids.contains(x));
    }
    assert(d.to_set().subset_of(ids.to_set()));
    vstd::set_lib::lemma_len_subset(d.to_set(), ids.to_set());
}

/// True when the haystack holds the needle.
fn vec_contains_id(v: &Vec<u64>, x: u64) -> (r: bool)
    ensures
        r == v@.contains(x),
{
    let mut k: usize = 0;
    while k < v.len()
        invariant
            0 <= k <= v@.len(),
            forall|m: int| 0 <= m < k ==> v@[m] != x,
        decreases v@.len() - k,
    {
        if v[k] == x {
            return true;
        }
        k += 1;
    }
    false
}

impl<V, E, S> Graph<V, E, S> {
    /// Core of both traversals: the order in which a walk from `initial_id`
    /// along outgoing adjacency visits vertices, with a LIFO frontier for
    /// depth-first order and a FIFO frontier for breadth-first order. Every
    /// vertex reachable from `initial_id` is visited exactly once.
    #[verifier::loop_isolation(false)]
    #[verifier::rlimit(100)]
    pub(crate) fn traverse_ids(&self, initial_id: u64, depth_first: bool) -> (r: Result<
        Vec<u64>,
        Error,
    >)
        requires
            self.wf(),
        ensures
            match r {
                Ok(order) => {
                    &&& self.contains_id(initial_id)
                    &&& order@ == traversal_order(*self, initial_id, depth_first)
                    &&& order@.no_duplicates()
                    &&& order@.len() >= 1 && order@[0] == initial_id
                    &&& forall|b: u64|
                        #[trigger] order@.contains(b) <==> self.reachable(initial_id, b)
                    &&& forall|b: u64| #[trigger] order@.contains(b) ==> self.contains_id(b)
                },
                Err(e) => e == Error::KeyWasNotFound && !self.contains_id(initial_id),
            },
    {
        match self.find_slot(initial_id) {
            None => {
                return Err(Error::KeyWasNotFound);
            },
            Some(_) => {},
        }
        let mut discovered: Vec<u64> = Vec::new();
        let mut frontier: std::collections::VecDeque<u64> = std::collections::VecDeque::new();
        frontier.push_back(initial_id);
        let ghost n = self.vertices_seq().len();
        proof {
            lemma_reachable_refl(*self, initial_id);
            assert(frontier@ =~= seq![initial_id]);
            assert(frontier@[0] == initial_id);
        }
        while frontier.len() > 0
            invariant
                discovered@.no_duplicates(),
                forall|x: u64|
                    #[trigger] discovered@.contains(x) ==> self.contains_id(x) && self.reachable(
                        initial_id,
                        x,
                    ),
                forall|x: u64|
                    #[trigger] frontier@.contains(x) ==> self.contains_id(x) && self.reachable(
                        initial_id,
                        x,
                    ),
                discovered@.len() == 0 ==> frontier@ == seq![initial_id],
                discovered@.len() > 0 ==> discovered@[0] == initial_id,
                discovered@.contains(initial_id) || frontier@.contains(initial_id),
                discovered@.len() <= n,
                forall|x: u64, k: int|
                    #![trigger discovered@.contains(x), self.out_edges(x)[k]]
                    discovered@.contains(x) && 0 <= k < self.out_edges(x).len() ==> (
                    discovered@.contains(self.out_edges(x)[k].end) || frontier@.contains(
                        self.out_edges(x)[k].end,
                    )),
                spec_walk(*self, discovered@, frontier@, depth_first) == traversal_order(
                    *self,
                    initial_id,
                    depth_first,
                ),
            decreases n - discovered@.len(), frontier@.len(),
        {
            let ghost fbefore = frontier@;
            let popped = if depth_first {
                frontier.pop_back()
            } else {
                frontier.pop_front()
            };
            let id = match popped {
                Some(x) => x,
                None => {
                    proof {
                        assert(false);
                    }
                    return Err(Error::UnexpectedError);
                },
            };
            proof {
                if depth_first {
                    assert(id == fbefore[fbefore.len() - 1]);
                } else {
                    assert(id == fbefore[0]);
                }
                assert(fbefore.contains(id));
                assert forall|y: u64| fbefore.contains(y) && y != id implies frontier@.contains(
                    y,
                ) by {
                    let w = choose|w: int| 0 <= w < fbefore.len() && fbefore[w] == y;
                    if depth_first {
                        assert(frontier@[w] == y);
                    } else {
                        assert(frontier@[w - 1] == y);
                    }
                }
                assert forall|y: u64| #[trigger] frontier@.contains(y) implies fbefore.contains(
                    y,
                ) by {
                    let w = choose|w: int| 0 <= w < frontier@.len() && frontier@[w] == y;
                    if depth_first {
                        assert(fbefore[w] == y);
                    } else {
                        assert(fbefore[w + 1] == y);
                    }
                }
                assert(self.contains_id(id));
                assert(self.reachable(initial_id, id));
                if depth_first {
                    assert(frontier@ =~= fbefore.drop_last());
                } else {
                    assert(frontier@ =~= fbefore.drop_first());
                }
            }
            if !vec_contains_id(&discovered, id) {
                let ghost df0 = discovered@;
                discovered.push(id);
                proof {
                    assert forall|a: int, b: int|
                        0 <= a < discovered@.len() && 0 <= b < discovered@.len() && a != b implies
                        discovered@[a] != discovered@[b] by {
                        if a < df0.len() && b < df0.len() {
                        } else if a == df0.len() {
                            assert(discovered@[b] == df0[b]);
                        } else {
                            assert(discovered@[a] == df0[a]);
                        }
                    }
                    assert forall|x: u64| #[trigger] discovered@.contains(x) implies (
                    df0.contains(x) || x == id) by {
                        let w = choose|w: int| 0 <= w < discovered@.len() && discovered@[w] == x;
                        if w < df0.len() {
                            assert(df0[w] == x);
                        }
                    }
                    assert forall|x: u64| df0.contains(x) implies discovered@.contains(x) by {
                        let w = choose|w: int| 0 <= w < df0.len() && df0[w] == x;
                        assert(discovered@[w] == x);
                    }
                    assert(discovered@[df0.len() as int] == id);
                    if df0.len() == 0 {
                        assert(id == initial_id);
                    }
                    assert(discovered@.no_duplicates());
                    assert forall|x: u64| #[trigger] discovered@.contains(x) implies
                        self.contains_id(x) by {
                        if df0.contains(x) {
                        } else {
                            assert(x == id);
                        }
                    }
                    lemma_unique_ids_bound(*self, discovered@);
                }
                let slot = match self.find_slot(id) {
                    Some(s) => s,
                    None => {
                        proof {
                            assert(false);
                        }
                        return Err(Error::KeyWasNotFound);
                    },
                };
                let ghost oe = self.out_edges(id);
                let ghost frest = frontier@;
                match &self.vertices[slot].vicinity {
                    Vicinity::Outgoing { edges: Some(es) } => {
                        proof {
                            assert(es@ == oe);
                            assert(frontier@ =~= frest + oe.subrange(0, 0).map_values(
                                |e: Edge<E>| e.end,
                            ));
                        }
                        let mut k: usize = 0;
                        while k < es.len()
                            invariant
                                0 <= k <= es@.len(),
                                es@ == oe,
                                frontier@ == frest + oe.subrange(0, k as int).map_values(
                                    |e: Edge<E>| e.end,
                                ),
                                discovered@ == df0.push(id),
                                forall|x: u64|
                                    #[trigger] frontier@.contains(x) ==> self.contains_id(x)
                                        && self.reachable(initial_id, x),
                                discovered@.contains(initial_id) || frontier@.contains(initial_id),
                                forall|x: u64, m: int|
                                    #![trigger df0.contains(x), self.out_edges(x)[m]]
                                    df0.contains(x) && 0 <= m < self.out_edges(x).len() ==> (
                                    discovered@.contains(self.out_edges(x)[m].end)
                                        || frontier@.contains(self.out_edges(x)[m].end)),
                                forall|m: int|
                                    0 <= m < k ==> (discovered@.contains(
                                        (#[trigger] oe[m]).end,
                                    ) || frontier@.contains(oe[m].end)),
                            decreases es@.len() - k,
                        {
                            let ghost fr1 = frontier@;
                            frontier.push_back(es[k].end);
                            proof {
                                assert(frontier@ == fr1.push(oe[k as int].end));
                                assert(frontier@ =~= frest + oe.subrange(0, k as int + 1).map_values(
                                    |e: Edge<E>| e.end,
                                ));
                                assert forall|x: u64| fr1.contains(x) implies frontier@.contains(
                                    x,
                                ) by {
                                    let w = choose|w: int| 0 <= w < fr1.len() && fr1[w] == x;
                                    assert(frontier@[w] == x);
                                }
                                assert forall|x: u64| #[trigger] frontier@.contains(x) implies (
                                fr1.contains(x) || x == oe[k as int].end) by {
                                    let w = choose|w: int|
                                        0 <= w < frontier@.len() && frontier@[w] == x;
                                    if w < fr1.len() {
                                        assert(fr1[w] == x);
                                    }
                                }
                                assert(frontier@[fr1.len() as int] == oe[k as int].end);
                                assert(self.vertex_edges_ok(self.vertices_seq()[slot as int]));
                                assert(self.contains_id(oe[k as int].end));
                                assert(self.edge_to(id, oe[k as int].end));
                                lemma_reachable_step(*self, initial_id, id, oe[k as int].end);
                            }
                            k += 1;
                        }
                    },
                    Vicinity::Both { ingoing_edges: _, outgoing_edges: Some(es) } => {
                        proof {
                            assert(es@ == oe);
                            assert(frontier@ =~= frest + oe.subrange(0, 0).map_values(
                                |e: Edge<E>| e.end,
                            ));
                        }
                        let mut k: usize = 0;
                        while k < es.len()
                            invariant
                                0 <= k <= es@.len(),
                                es@ == oe,
                                frontier@ == frest + oe.subrange(0, k as int).map_values(
                                    |e: Edge<E>| e.end,
                                ),
                                discovered@ == df0.push(id),
                                forall|x: u64|
                                    #[trigger] frontier@.contains(x) ==> self.contains_id(x)
                                        && self.reachable(initial_id, x),
                                discovered@.contains(initial_id) || frontier@.contains(initial_id),
                                forall|x: u64, m: int|
                                    #![trigger df0.contains(x), self.out_edges(x)[m]]
                                    df0.contains(x) && 0 <= m < self.out_edges(x).len() ==> (
                                    discovered@.contains(self.out_edges(x)[m].end)
                                        || frontier@.contains(self.out_edges(x)[m].end)),
                                forall|m: int|
                                    0 <= m < k ==> (discovered@.contains(
                                        (#[trigger] oe[m]).end,
                                    ) || frontier@.contains(oe[m].end)),
                            decreases es@.len() - k,
                        {
                            let ghost fr1 = frontier@;
                            frontier.push_back(es[k].end);
                            proof {
                                assert(frontier@ == fr1.push(oe[k as int].end));
                                assert(frontier@ =~= frest + oe.subrange(0, k as int + 1).map_values(
                                    |e: Edge<E>| e.end,
                                ));
                                assert forall|x: u64| fr1.contains(x) implies frontier@.contains(
                                    x,
                                ) by {
                                    let w = choose|w: int| 0 <= w < fr1.len() && fr1[w] == x;
                                    assert(frontier@[w] == x);
                                }
                                assert forall|x: u64| #[trigger] frontier@.contains(x) implies (
                                fr1.contains(x) || x == oe[k as int].end) by {
                                    let w = choose|w: int|
                                        0 <= w < frontier@.len() && frontier@[w] == x;
                                    if w < fr1.len() {
                                        assert(fr1[w] == x);
                                    }
                                }
                                assert(frontier@[fr1.len() as int] == oe[k as int].end);
                                assert(self.vertex_edges_ok(self.vertices_seq()[slot as int]));
                                assert(self.contains_id(oe[k as int].end));
                                assert(self.edge_to(id, oe[k as int].end));
                                lemma_reachable_step(*self, initial_id, id, oe[k as int].end);
                            }
                            k += 1;
                        }
                    },
                    _ => {
                        proof {
                            assert(oe.len() == 0);
                        }
                    },
                }
                proof {
                    assert forall|x: u64, k: int|
                        #![trigger discovered@.contains(x), self.out_edges(x)[k]]
                        discovered@.contains(x) && 0 <= k < self.out_edges(x).len() implies (
                    discovered@.contains(self.out_edges(x)[k].end) || frontier@.contains(
                        self.out_edges(x)[k].end,
                    )) by {
                        if df0.contains(x) {
                        } else {
                            assert(x == id);
                        }
                    }
                    // the exec step matches one unfolding of the frontier walk
                    assert(frontier@ =~= frest + out_targets(*self, id)) by {
                        assert(oe.subrange(0, oe.len() as int) =~= oe);
                        assert(oe.subrange(0, oe.len() as int).map_values(|e: Edge<E>| e.end)
                            =~= out_targets(*self, id));
                    }
                    assert(df0.len() < n);
                    assert(spec_walk(*self, df0, fbefore, depth_first) == spec_walk(
                        *self,
                        discovered@,
                        frontier@,
                        depth_first,
                    ));
                }
            }
        }
        proof {
            assert forall|b: u64| self.reachable(initial_id, b) implies discovered@.contains(
                b,
            ) by {
                assert forall|u: u64, w: u64|
                    discovered@.contains(u) && #[trigger] self.edge_to(u, w) implies
                    discovered@.contains(w) by {
                    let k = choose|k: int|
                        0 <= k < self.out_edges(u).len() && (#[trigger] self.out_edges(u)[k]).end
                            == w;
                }
                let p = choose|p: Seq<u64>|
                    #[trigger] self.valid_id_path(p) && p[0] == initial_id && p.last() == b;
                lemma_path_in_closed_set(*self, p, discovered@);
            }
        }
        Ok(discovered)
    }
}

impl<V, E, S> Graph<V, E, S> {
    /// Whether some edge record leaves `a` and enters `b`.
    #[verifier::loop_isolation(false)]
    pub fn has_edge_to(&self, a: u64, b: u64) -> (r: bool)
        requires
            self.wf(),
        ensures
            r == self.edge_to(a, b),
    {
        let slot = match self.find_slot(a) {
            Some(s) => s,
            None => {
                return false;
            },
        };
        let ghost oe = self.out_edges(a);
        match &self.vertices[slot].vicinity {
            Vicinity::Outgoing { edges: Some(es) } => {
                proof {
                    assert(es@ == oe);
                }
                let mut k: usize = 0;
                while k < es.len()
                    invariant
                        0 <= k <= es@.len(),
                        es@ == oe,
                        forall|m: int| 0 <= m < k ==> (#[trigger] oe[m]).end != b,
                    decreases es@.len() - k,
                {
                    if es[k].end == b {
                        proof {
                            assert(oe[k as int].end == b);
                        }
                        return true;
                    }
                    k += 1;
                }
                false
            },
            Vicinity::Both { ingoing_edges: _, outgoing_edges: Some(es) } => {
                proof {
                    assert(es@ == oe);
                }
                let mut k: usize = 0;
                while k < es.len()
                    invariant
                        0 <= k <= es@.len(),
                        es@ == oe,
                        forall|m: int| 0 <= m < k ==> (#[trigger] oe[m]).end != b,
                    decreases es@.len() - k,
                {
                    if es[k].end == b {
                        proof {
                            assert(oe[k as int].end == b);
                        }
                        return true;
                    }
                    k += 1;
                }
                false
            },
            _ => {
                proof {
                    assert(oe.len() == 0);
                }
                false
            },
        }
    }
}

impl<V, E, S> Graph<V, E, S> {
    /// How many vertices the graph holds.
    pub fn vertex_count_exec(&self) -> (r: usize)
        ensures
            r == self.vertices_seq().len(),
    {
        self.vertices.len()
    }

    /// A borrow of the vertex in arena slot `i`, in insertion order.
    pub fn vertex_ref(&self, i: usize) -> (r: &Vertex<V, E>)
        requires
            (i as int) < self.vertices_seq().len(),
        ensures
            *r == self.vertices_seq()[i as int],
    {
        &self.vertices[i]
    }

    /// A borrow of the vertex with the given id, if present.
    pub fn get_vertex(&self, id: u64) -> (r: Option<&Vertex<V, E>>)
        requires
            self.wf(),
        ensures
            match r {
                Some(v) => self.contains_id(id) && *v == self.vertex_at(id),
                None => !self.contains_id(id),
            },
    {
        match self.find_slot(id) {
            Some(slot) => Some(&self.vertices[slot]),
            None => None,
        }
    }
}

impl<E> Edge<E> {
    /// Resolves the start back-reference to the live vertex's payload;
    /// a dangling reference is the `NullPointer` failure.
    pub fn get_start_info<'a, V, S>(&self, graph: &'a Graph<V, E, S>) -> (r: Result<&'a V, Error>)
        requires
            graph.wf(),
        ensures
            match r {
                Ok(v) => graph.contains_id(self.start) && *v == graph.vertex_at(self.start).info,
                Err(e) => e == Error::NullPointer && !graph.contains_id(self.start),
            },
    {
        match graph.get_vertex(self.start) {
            Some(v) => Ok(&v.info),
            None => Err(Error::NullPointer),
        }
    }

    /// Resolves the end back-reference to the live vertex's payload;
    /// a dangling reference is the `NullPointer` failure.
    pub fn get_end_info<'a, V, S>(&self, graph: &'a Graph<V, E, S>) -> (r: Result<&'a V, Error>)
        requires
            graph.wf(),
        ensures
            match r {
                Ok(v) => graph.contains_id(self.end) && *v == graph.vertex_at(self.end).info,
                Err(e) => e == Error::NullPointer && !graph.contains_id(self.end),
            },
    {
        match graph.get_vertex(self.end) {
            Some(v) => Ok(&v.info),
            None => Err(Error::NullPointer),
        }
    }

    /// The start vertex's id and payload together.
    pub fn get_start_all<'a, V, S>(&self, graph: &'a Graph<V, E, S>) -> (r: Result<
        (u64, &'a V),
        Error,
    >)
        requires
            graph.wf(),
        ensures
            match r {
                Ok(p) => graph.contains_id(self.start) && p.0 == self.start && *p.1
                    == graph.vertex_at(self.start).info,
                Err(e) => e == Error::NullPointer && !graph.contains_id(self.start),
            },
    {
        match graph.get_vertex(self.start) {
            Some(v) => Ok((self.start, &v.info)),
            None => Err(Error::NullPointer),
        }
    }

    /// The end vertex's id and payload together.
    pub fn get_end_all<'a, V, S>(&self, graph: &'a Graph<V, E, S>) -> (r: Result<
        (u64, &'a V),
        Error,
    >)
        requires
            graph.wf(),
        ensures
            match r {
                Ok(p) => graph.contains_id(self.end) && p.0 == self.end && *p.1 == graph.vertex_at(
                    self.end,
                ).info,
                Err(e) => e == Error::NullPointer && !graph.contains_id(self.end),
            },
    {
        match graph.get_vertex(self.end) {
            Some(v) => Ok((self.end, &v.info)),
            None => Err(Error::NullPointer),
        }
    }
}

impl<V, E> Vertex<V, E> {
    /// Breadth-first self-cycle check: true exactly when some vertex
    /// reachable from this one has an edge leading back to it.
    #[verifier::loop_isolation(false)]
    pub fn is_in_cycle<S>(&self, graph: &Graph<V, E, S>) -> (r: bool)
        requires
            graph.wf(),
            graph.contains_id(self.id),
        ensures
            r == graph.cycle_at(self.id),
    {
        let order = match graph.traverse_ids(self.id, false) {
            Ok(o) => o,
            Err(_) => {
                proof {
                    assert(false);
                }
                return false;
            },
        };
        let mut i: usize = 0;
        while i < order.len()
            invariant
                0 <= i <= order@.len(),
                forall|m: int| 0 <= m < i ==> !graph.edge_to(#[trigger] order@[m], self.id),
            decreases order@.len() - i,
        {
            if graph.has_edge_to(order[i], self.id) {
                proof {
                    assert(order@.contains(order@[i as int]));
                    assert(graph.reachable(self.id, order@[i as int]));
                }
                return true;
            }
            i += 1;
        }
        proof {
            if graph.cycle_at(self.id) {
                let u = choose|u: u64|
                    #[trigger] graph.edge_to(u, self.id) && graph.reachable(self.id, u);
                assert(order@.contains(u));
                let w = choose|w: int| 0 <= w < order@.len() && order@[w] == u;
                assert(!graph.edge_to(order@[w], self.id));
            }
        }
        false
    }
}

/// The ids that a vertex's outgoing edges lead to, in edge-list order.
pub open spec fn out_targets<V, E, S>(g: Graph<V, E, S>, id: u64) -> Seq<u64> {
    g.out_edges(id).map_values(|e: Edge<E>| e.end)
}

/// The frontier walk both traversals follow, step by step: pop from the
/// back of the frontier (depth first, LIFO) or the front (breadth first,
/// FIFO); an already discovered id is skipped, an undiscovered one is
/// appended to the visit order and its outgoing targets are pushed onto the
/// back of the frontier in edge-list order. The discovered run can never
/// outgrow the vertex count; the final guard only makes the recursion well
/// founded.
pub open spec fn spec_walk<V, E, S>(
    g: Graph<V, E, S>,
    disc: Seq<u64>,
    front: Seq<u64>,
    depth_first: bool,
) -> Seq<u64>
    decreases g.vertex_count() - disc.len(), front.len(),
{
    if front.len() == 0 {
        disc
    } else {
        let id = if depth_first {
            front.last()
        } else {
            front.first()
        };
        let rest = if depth_first {
            front.drop_last()
        } else {
            front.drop_first()
        };
        if disc.contains(id) {
            spec_walk(g, disc, rest, depth_first)
        } else if disc.len() < g.vertex_count() {
            spec_walk(g, disc.push(id), rest + out_targets(g, id), depth_first)
        } else {
            disc
        }
    }
}

/// The visit order of a walk from `initial_id`: depth first when the flag
/// is set, breadth first otherwise.
pub open spec fn traversal_order<V, E, S>(
    g: Graph<V, E, S>,
    initial_id: u64,
    depth_first: bool,
) -> Seq<u64> {
    spec_walk(g, Seq::<u64>::empty(), seq![initial_id], depth_first)
}

/// The depth-first visit order from `initial_id`.
pub open spec fn dfs_order<V, E, S>(g: Graph<V, E, S>, initial_id: u64) -> Seq<u64> {
    traversal_order(g, initial_id, true)
}

/// The breadth-first visit order from `initial_id`.
pub open spec fn bfs_order<V, E, S>(g: Graph<V, E, S>, initial_id: u64) -> Seq<u64> {
    traversal_order(g, initial_id, false)
}

/// The outgoing edges of a vertex, each wrapped as a one-edge walk.
pub open spec fn vertex_single_paths<V, E, S>(g: Graph<V, E, S>, id: u64) -> Seq<Seq<Edge<E>>> {
    g.out_edges(id).map_values(|e: Edge<E>| seq![e])
}

/// The cartesian fold that `all_paths_from` computes: the single-edge paths
/// of each visited vertex, combined in visit order.
pub open spec fn spec_paths_fold<V, E, S>(g: Graph<V, E, S>, order: Seq<u64>, i: int) -> Seq<
    Seq<Edge<E>>,
>
    decreases i,
{
    if i <= 0 {
        Seq::<Seq<Edge<E>>>::empty()
    } else {
        crate::graph::path::spec_paths_add(
            spec_paths_fold(g, order, i - 1),
            vertex_single_paths(g, order[i - 1]),
        )
    }
}

/// The possible results of folding `map` and `combine` over the first `i`
/// visited vertices: for each visited vertex some value that `map` may
/// return for it, combined left to right from `acc`.
pub open spec fn folds_over<V, E, S, R, F: Fn(&Vertex<V, E>) -> R, C: Fn(R, R) -> R>(
    g: Graph<V, E, S>,
    map: F,
    combine: C,
    order: Seq<u64>,
    i: int,
    acc: R,
    out: R,
) -> bool
    decreases i,
{
    if i <= 0 {
        out == acc
    } else {
        exists|mid: R, mv: R|
            {
                &&& #[trigger] call_ensures(map, (&g.vertex_at(order[i - 1]),), mv)
                &&& folds_over(g, map, combine, order, i - 1, acc, mid)
                &&& #[trigger] call_ensures(combine, (mid, mv), out)
            }
    }
}

/// A visit order of a full walk from `initial_id`: every reachable vertex
/// exactly once, the start first.
pub open spec fn visit_order<V, E, S>(g: Graph<V, E, S>, initial_id: u64, order: Seq<u64>) -> bool {
    &&& order.no_duplicates()
    &&& order.len() >= 1 && order[0] == initial_id
    &&& forall|b: u64| #[trigger] order.contains(b) <==> g.reachable(initial_id, b)
}

impl<V, E, S> Graph<V, E, S> {
    /// Folds a caller-supplied per-vertex map over the traversal order,
    /// combining results with a caller-supplied associative combination.
    #[verifier::loop_isolation(false)]
    fn fold_traversal<R, F: Fn(&Vertex<V, E>) -> R, C: Fn(R, R) -> R>(
        &self,
        initial_id: u64,
        acc: R,
        map: F,
        combine: C,
        depth_first: bool,
    ) -> (r: Result<R, Error>)
        requires
            self.wf(),
            forall|v: Vertex<V, E>| #[trigger] call_requires(map, (&v,)),
            forall|a: R, b: R| #[trigger] call_requires(combine, (a, b)),
        ensures
            r is Ok <==> self.contains_id(initial_id),
            r matches Err(e) ==> e == Error::KeyWasNotFound,
            r matches Ok(out) ==> visit_order(
                *self,
                initial_id,
                traversal_order(*self, initial_id, depth_first),
            ) && folds_over(
                *self,
                map,
                combine,
                traversal_order(*self, initial_id, depth_first),
                traversal_order(*self, initial_id, depth_first).len() as int,
                acc,
                out,
            ),
    {
        let ghost acc0 = acc;
        let order = match self.traverse_ids(initial_id, depth_first) {
            Ok(o) => o,
            Err(e) => {
                return Err(e);
            },
        };
        let mut acc = acc;
        let mut i: usize = 0;
        while i < order.len()
            invariant
                0 <= i <= order@.len(),
                folds_over(*self, map, combine, order@, i as int, acc0, acc),
            decreases order@.len() - i,
        {
            proof {
                assert(order@.contains(order@[i as int]));
            }
            let v = match self.get_vertex(order[i]) {
                Some(v) => v,
                None => {
                    proof {
                        assert(false);
                    }
                    return Err(Error::KeyWasNotFound);
                },
            };
            let ghost prev = acc;
            let mapped = map(v);
            let ghost gm = mapped;
            acc = combine(acc, mapped);
            proof {
                assert(call_ensures(map, (&self.vertex_at(order@[i as int]),), gm));
                assert(folds_over(*self, map, combine, order@, i as int + 1, acc0, acc));
            }
            i += 1;
        }
        proof {
            assert(visit_order(*self, initial_id, order@));
        }
        Ok(acc)
    }

}

/// The possible outcomes of the mutable fold over the first `i` visited
/// vertices: each visited vertex's payload in `g_new`, together with the
/// per-vertex result, is a value `map` may return for that vertex's payload
/// in `g_old`, and the per-vertex results are combined left to right.
pub open spec fn mut_folds_over<V, E, S, R, F: Fn(&V) -> (V, R), C: Fn(R, R) -> R>(
    g_old: Graph<V, E, S>,
    g_new: Graph<V, E, S>,
    map: F,
    combine: C,
    order: Seq<u64>,
    i: int,
    acc: R,
    out: R,
) -> bool
    decreases i,
{
    if i <= 0 {
        out == acc
    } else {
        exists|mid: R, mr: R|
            {
                &&& #[trigger] call_ensures(
                    map,
                    (&g_old.vertex_at(order[i - 1]).info,),
                    (g_new.vertex_at(order[i - 1]).info, mr),
                )
                &&& mut_folds_over(g_old, g_new, map, combine, order, i - 1, acc, mid)
                &&& #[trigger] call_ensures(combine, (mid, mr), out)
            }
    }
}

/// The mutable fold relation only reads the visited vertices' payloads, so
/// it carries over to any graph that agrees on those.
proof fn lemma_mut_fold_stable<V, E, S, R, F: Fn(&V) -> (V, R), C: Fn(R, R) -> R>(
    g_old: Graph<V, E, S>,
    g1: Graph<V, E, S>,
    g2: Graph<V, E, S>,
    map: F,
    combine: C,
    order: Seq<u64>,
    i: int,
    acc: R,
    out: R,
)
    requires
        mut_folds_over(g_old, g1, map, combine, order, i, acc, out),
        forall|m: int|
            0 <= m < i ==> #[trigger] g2.vertex_at(order[m]).info == g1.vertex_at(order[m]).info,
    ensures
        mut_folds_over(g_old, g2, map, combine, order, i, acc, out),
    decreases i,
{
    if i > 0 {
        let (mid, mr) = choose|mid: R, mr: R|
            {
                &&& #[trigger] call_ensures(
                    map,
                    (&g_old.vertex_at(order[i - 1]).info,),
                    (g1.vertex_at(order[i - 1]).info, mr),
                )
                &&& mut_folds_over(g_old, g1, map, combine, order, i - 1, acc, mid)
                &&& #[trigger] call_ensures(combine, (mid, mr), out)
            };
        lemma_mut_fold_stable(g_old, g1, g2, map, combine, order, i - 1, acc, mid);
        assert(g2.vertex_at(order[i - 1]).info == g1.vertex_at(order[i - 1]).info);
    }
}

impl<V, E, S> Graph<V, E, S> {
    /// The mutable fold: the per-vertex function reads the payload and
    /// returns its replacement together with the per-vertex result. Ids and
    /// adjacency records never change; only payloads of visited vertices do,
    /// each rewritten by exactly one application of the per-vertex function.
    #[verifier::loop_isolation(false)]
    #[verifier::rlimit(60)]
    fn fold_traversal_mut<R, F: Fn(&V) -> (V, R), C: Fn(R, R) -> R>(
        &mut self,
        initial_id: u64,
        acc: R,
        map: F,
        combine: C,
        depth_first: bool,
    ) -> (r: Result<R, Error>)
        requires
            old(self).wf(),
            forall|v: V| #[trigger] call_requires(map, (&v,)),
            forall|a: R, b: R| #[trigger] call_requires(combine, (a, b)),
        ensures
            final(self).wf(),
            final(self).vertices_seq().len() == old(self).vertices_seq().len(),
            final(self).index_entries() == old(self).index_entries(),
            forall|i: int|
                0 <= i < old(self).vertices_seq().len() ==> {
                    let wv = #[trigger] final(self).vertices_seq()[i];
                    let ov = old(self).vertices_seq()[i];
                    wv.id == ov.id && wv.vicinity == ov.vicinity
                },
            forall|x: u64| #[trigger] final(self).contains_id(x) == old(self).contains_id(x),
            r is Ok <==> old(self).contains_id(initial_id),
            r matches Err(e) ==> e == Error::KeyWasNotFound && *final(self) == *old(self),
            r matches Ok(out) ==> {
                let order = traversal_order(*old(self), initial_id, depth_first);
                &&& visit_order(*old(self), initial_id, order)
                &&& mut_folds_over(
                    *old(self),
                    *final(self),
                    map,
                    combine,
                    order,
                    order.len() as int,
                    acc,
                    out,
                )
                &&& forall|x: u64|
                    old(self).contains_id(x) && !order.contains(x) ==> #[trigger] final(self).vertex_at(x).info == old(self).vertex_at(x).info
            },
    {
        let ghost acc0 = acc;
        let ghost g0 = *self;
        let order = match self.traverse_ids(initial_id, depth_first) {
            Ok(o) => o,
            Err(e) => {
                return Err(e);
            },
        };
        let mut acc = acc;
        let mut i: usize = 0;
        while i < order.len()
            invariant
                0 <= i <= order@.len(),
                self.wf(),
                self.vertices_seq().len() == g0.vertices_seq().len(),
                self.index_entries() == g0.index_entries(),
                forall|m: int|
                    0 <= m < g0.vertices_seq().len() ==> {
                        let wv = #[trigger] self.vertices_seq()[m];
                        let ov = g0.vertices_seq()[m];
                        wv.id == ov.id && wv.vicinity == ov.vicinity
                    },
                forall|x: u64| #[trigger] self.contains_id(x) == g0.contains_id(x),
                forall|m: int|
                    0 <= m < g0.vertices_seq().len() && !order@.subrange(0, i as int).contains(
                        (#[trigger] g0.vertices_seq()[m]).id,
                    ) ==> self.vertices_seq()[m].info == g0.vertices_seq()[m].info,
                mut_folds_over(g0, *self, map, combine, order@, i as int, acc0, acc),
            decreases order@.len() - i,
        {
            proof {
                assert(order@.contains(order@[i as int]));
            }
            let slot = match self.find_slot(order[i]) {
                Some(s) => s,
                None => {
                    proof {
                        assert(false);
                    }
                    return Err(Error::KeyWasNotFound);
                },
            };
            let ghost gprev = *self;
            let ghost acc_prev = acc;
            proof {
                lemma_same_ids_slots(g0, gprev);
                assert(gprev.slot_of(order@[i as int]) == slot as int);
                assert(g0.slot_of(order@[i as int]) == slot as int);
                assert(g0.vertices_seq()[slot as int].id == order@[i as int]);
                // not yet visited, so its payload is still the original one
                assert(!order@.subrange(0, i as int).contains(order@[i as int])) by {
                    if order@.subrange(0, i as int).contains(order@[i as int]) {
                        let w = choose|w: int|
                            0 <= w < i && order@.subrange(0, i as int)[w] == order@[i as int];
                        assert(order@[w] == order@[i as int]);
                    }
                }
                assert(gprev.vertices_seq()[slot as int].info == g0.vertices_seq()[slot as int].info);
                assert(g0.vertex_at(order@[i as int]).info == g0.vertices_seq()[slot as int].info);
            }
            let v = &mut self.vertices[slot];
            let pair = map(&v.info);
            let (new_info, out) = pair;
            v.info = new_info;
            proof {
                let nv = self.vertices_seq();
                let pv = gprev.vertices_seq();
                assert forall|m: int| 0 <= m < nv.len() implies {
                    let w = #[trigger] nv[m];
                    &&& forall|k: int|
                        0 <= k < w.vicinity.out_seq().len() ==> ((#[trigger] w.vicinity.out_seq()[k]).start
                            == w.id && gprev.contains_id(w.vicinity.out_seq()[k].end))
                    &&& forall|k: int|
                        0 <= k < w.vicinity.in_seq().len() ==> ((#[trigger] w.vicinity.in_seq()[k]).end
                            == w.id && gprev.contains_id(w.vicinity.in_seq()[k].start))
                } by {
                    assert(gprev.vertex_edges_ok(pv[m]));
                    assert(nv[m].vicinity == pv[m].vicinity && nv[m].id == pv[m].id);
                }
                lemma_same_ids_wf(gprev, *self);
            }
            acc = combine(acc, out);
            i += 1;
            proof {
                lemma_same_ids_slots(g0, *self);
                let nv = self.vertices_seq();
                let pv = gprev.vertices_seq();
                assert(nv == pv.update(slot as int, nv[slot as int]));
                assert(nv[slot as int].info == new_info);
                // payloads of earlier visits are untouched by this update
                assert forall|m: int|
                    0 <= m < i - 1 implies #[trigger] self.vertex_at(order@[m]).info
                    == gprev.vertex_at(order@[m]).info by {
                    assert(order@[m] != order@[i as int - 1]);
                    assert(order@.contains(order@[m]));
                    assert(g0.contains_id(order@[m]));
                    let sm = g0.slot_of(order@[m]);
                    assert(g0.vertices_seq()[sm].id == order@[m]);
                    assert(sm != slot as int);
                    assert(self.slot_of(order@[m]) == sm && gprev.slot_of(order@[m]) == sm);
                    assert(nv[sm] == pv[sm]);
                }
                lemma_mut_fold_stable(
                    g0,
                    gprev,
                    *self,
                    map,
                    combine,
                    order@,
                    i as int - 1,
                    acc0,
                    acc_prev,
                );
                assert(self.vertex_at(order@[i as int - 1]).info == new_info);
                assert(call_ensures(
                    map,
                    (&g0.vertex_at(order@[i as int - 1]).info,),
                    (self.vertex_at(order@[i as int - 1]).info, out),
                ));
                assert(mut_folds_over(g0, *self, map, combine, order@, i as int, acc0, acc));
                // ids outside the visited prefix keep their payloads
                assert forall|m: int|
                    0 <= m < g0.vertices_seq().len() && !order@.subrange(0, i as int).contains(
                        (#[trigger] g0.vertices_seq()[m]).id,
                    ) implies self.vertices_seq()[m].info == g0.vertices_seq()[m].info by {
                    assert(order@.subrange(0, i as int)[i - 1] == order@[i as int - 1]);
                    assert(g0.vertices_seq()[m].id != order@[i as int - 1]);
                    assert(m != slot as int);
                    assert(!order@.subrange(0, i as int - 1).contains(g0.vertices_seq()[m].id))
                        by {
                        if order@.subrange(0, i as int - 1).contains(g0.vertices_seq()[m].id) {
                            let w = choose|w: int|
                                0 <= w < i - 1 && #[trigger] order@.subrange(0, i as int - 1)[w]
                                    == g0.vertices_seq()[m].id;
                            assert(order@.subrange(0, i as int)[w] == g0.vertices_seq()[m].id);
                        }
                    }
                    assert(nv[m] == pv[m]);
                }
            }
        }
        proof {
            assert(order@.subrange(0, order@.len() as int) =~= order@);
            assert forall|x: u64|
                g0.contains_id(x) && !order@.contains(x) implies #[trigger] self.vertex_at(
                x,
            ).info == g0.vertex_at(x).info by {
                let m = g0.slot_of(x);
                assert(g0.vertices_seq()[m].id == x);
                lemma_same_ids_slots(g0, *self);
                assert(self.slot_of(x) == m);
            }
        }
        Ok(acc)
    }
}

impl<V, E: Copy, S> Graph<V, E, S> {
    /// The outgoing edges of a present vertex, each as a one-edge walk.
    fn single_paths_of(&self, vid: u64) -> (r: crate::graph::path::Paths<E>)
        requires
            self.wf(),
            self.contains_id(vid),
        ensures
            crate::graph::path::paths_view(r) == vertex_single_paths(*self, vid),
    {
        let slot = match self.find_slot(vid) {
            Some(s) => s,
            None => {
                proof {
                    assert(false);
                }
                return crate::graph::path::Paths(Vec::new());
            },
        };
        let ghost oe = self.out_edges(vid);
        let mut out: Vec<crate::graph::path::Path<E>> = Vec::new();
        match &self.vertices[slot].vicinity {
            Vicinity::Outgoing { edges: Some(es) } => {
                proof {
                    assert(es@ == oe);
                }
                let mut k: usize = 0;
                while k < es.len()
                    invariant
                        0 <= k <= es@.len(),
                        es@ == oe,
                        out@.len() == k,
                        forall|m: int| 0 <= m < k ==> (#[trigger] out@[m]).0@ =~= seq![oe[m]],
                    decreases es@.len() - k,
                {
                    let e = &es[k];
                    let mut one: Vec<Edge<E>> = Vec::new();
                    one.push(Edge { info: e.info, start: e.start, end: e.end });
                    out.push(crate::graph::path::Path(one));
                    k += 1;
                }
            },
            Vicinity::Both { ingoing_edges: _, outgoing_edges: Some(es) } => {
                proof {
                    assert(es@ == oe);
                }
                let mut k: usize = 0;
                while k < es.len()
                    invariant
                        0 <= k <= es@.len(),
                        es@ == oe,
                        out@.len() == k,
                        forall|m: int| 0 <= m < k ==> (#[trigger] out@[m]).0@ =~= seq![oe[m]],
                    decreases es@.len() - k,
                {
                    let e = &es[k];
                    let mut one: Vec<Edge<E>> = Vec::new();
                    one.push(Edge { info: e.info, start: e.start, end: e.end });
                    out.push(crate::graph::path::Path(one));
                    k += 1;
                }
            },
            _ => {
                proof {
                    assert(oe.len() == 0);
                }
            },
        }
        let r = crate::graph::path::Paths(out);
        proof {
            assert(crate::graph::path::paths_view(r) =~= vertex_single_paths(*self, vid));
        }
        r
    }

    /// Every path collected by a breadth-first expansion from `id`: each
    /// visited vertex's outgoing edges as one-edge walks, folded together
    /// with the cartesian path combination.
    #[verifier::loop_isolation(false)]
    pub(crate) fn all_paths_from_core(&self, id: u64) -> (r: Result<
        crate::graph::path::Paths<E>,
        Error,
    >)
        requires
            self.wf(),
        ensures
            r is Ok <==> self.contains_id(id),
            r matches Err(e) ==> e == Error::KeyWasNotFound,
            r matches Ok(ps) ==> visit_order(*self, id, bfs_order(*self, id))
                && crate::graph::path::paths_view(ps) == spec_paths_fold(
                *self,
                bfs_order(*self, id),
                bfs_order(*self, id).len() as int,
            ),
    {
        let order = match self.traverse_ids(id, false) {
            Ok(o) => o,
            Err(e) => {
                return Err(e);
            },
        };
        let mut acc = crate::graph::path::Paths(Vec::new());
        proof {
            assert(crate::graph::path::paths_view(acc) =~= spec_paths_fold(*self, order@, 0));
        }
        let mut i: usize = 0;
        while i < order.len()
            invariant
                0 <= i <= order@.len(),
                crate::graph::path::paths_view(acc) == spec_paths_fold(*self, order@, i as int),
            decreases order@.len() - i,
        {
            proof {
                assert(order@.contains(order@[i as int]));
            }
            let single = self.single_paths_of(order[i]);
            acc = acc.add(single);
            i += 1;
        }
        Ok(acc)
    }
}

/// Alias so that loop contracts can speak about an optional edge list.
pub open spec fn opt_edges_spec<E>(o: Option<Vec<Edge<E>>>) -> Seq<Edge<E>> {
    definitions::opt_edges(o)
}

impl<V, E, S> Default for Graph<V, E, S> {
    /// An empty graph.
    fn default() -> (r: Graph<V, E, S>)
        ensures
            r.wf(),
            r.vertices_seq() == Seq::<Vertex<V, E>>::empty(),
    {
        Graph::new()
    }
}

} // verus!
