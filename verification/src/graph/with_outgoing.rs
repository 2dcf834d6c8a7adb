use vstd::prelude::*;

use super::definitions::{ShapeTag, Vertex, Vicinity, WithOutgoing};
use super::Graph;
use crate::error::Error;

verus! {

impl<V, E> Graph<V, E, WithOutgoing> {
    /// Adds a vertex to an outgoing-capability graph. Fails with
    /// `MismatchedVicinity` on any other adjacency shape, with
    /// `VertexAlreadyExists` on a duplicate id, and with `KeyWasNotFound`
    /// when the vicinity already carries an edge whose endpoints are not
    /// present.
    pub fn add_vertex(&mut self, id: u64, info: V, vicinity: Vicinity<E>) -> (r: Result<
        (),
        Error,
    >)
        requires
            old(self).wf(),
        ensures
            final(self).wf(),
            old(self).all_shapes(ShapeTag::Outgoing) && r is Ok ==> final(self).all_shapes(
                ShapeTag::Outgoing,
            ),
            match r {
                Err(e) => {
                    &&& *final(self) == *old(self)
                    &&& (e == Error::MismatchedVicinity || e == Error::VertexAlreadyExists || e
                        == Error::KeyWasNotFound)
                    &&& (e == Error::MismatchedVicinity <==> vicinity.spec_tag()
                        != ShapeTag::Outgoing)
                    &&& (e == Error::VertexAlreadyExists <==> vicinity.spec_tag()
                        == ShapeTag::Outgoing && old(self).contains_id(id))
                    &&& (e == Error::KeyWasNotFound <==> vicinity.spec_tag() == ShapeTag::Outgoing
                        && !old(self).contains_id(id) && !old(self).spec_vicinity_ok(id, vicinity))
                },
                Ok(u) => {
                    &&& vicinity.spec_tag() == ShapeTag::Outgoing
                    &&& !old(self).contains_id(id)
                    &&& final(self).vertices_seq() == old(self).vertices_seq().push(
                        Vertex { id, info, vicinity },
                    )
                    &&& final(self).contains_id(id)
                },
            },
    {
        if !(vicinity.tag() == ShapeTag::Outgoing) {
            return Err(Error::MismatchedVicinity);
        }
        let r = self.insert_vertex(id, info, vicinity);
        proof {
            if r is Ok {
                let nv = self.vertices_seq();
                assert(nv[nv.len() - 1].id == id);
                assert(self.contains_id(id));
                if old(self).all_shapes(ShapeTag::Outgoing) {
                    assert forall|i: int|
                        0 <= i < nv.len() implies (#[trigger] nv[i]).vicinity.spec_tag()
                        == ShapeTag::Outgoing by {
                        if i < nv.len() - 1 {
                            assert(nv[i] == old(self).vertices_seq()[i]);
                        }
                    }
                }
            }
        }
        r
    }
}

impl<V, E> Graph<V, E, WithOutgoing> {
    /// The whole graph is acyclic: no vertex lies on a cycle.
    #[verifier::loop_isolation(false)]
    pub fn is_acyclic(&self) -> (r: bool)
        requires
            self.wf(),
        ensures
            r <==> forall|v: u64| #[trigger] self.contains_id(v) ==> !self.cycle_at(v),
    {
        let n = self.vertex_count_exec();
        let mut i: usize = 0;
        while i < n
            invariant
                0 <= i <= self.vertices_seq().len(),
                n == self.vertices_seq().len(),
                forall|m: int|
                    0 <= m < i ==> !self.cycle_at((#[trigger] self.vertices_seq()[m]).id),
            decreases self.vertices_seq().len() - i,
        {
            let v = self.vertex_ref(i);
            proof {
                assert(self.vertices_seq()[i as int].id == v.id);
                assert(self.contains_id(v.id));
            }
            if v.is_in_cycle(self) {
                return false;
            }
            i += 1;
        }
        proof {
            assert forall|v: u64| #[trigger] self.contains_id(v) implies !self.cycle_at(v) by {
                let w = self.slot_of(v);
                assert(self.vertices_seq()[w].id == v);
            }
        }
        true
    }
}

/// Per-vertex processing state of the topological sort: `Unmarked` before
/// processing, `Temporary` while the vertex is on the current recursion
/// path, `Permanent` once it and all of its descendants are done.
#[derive(Debug, Clone, Copy)]
enum Mark {
    Permanent(u64),
    Temporary(u64),
    Unmarked(u64),
}

impl Mark {
    spec fn spec_id(self) -> u64 {
        match self {
            Mark::Permanent(x) => x,
            Mark::Temporary(x) => x,
            Mark::Unmarked(x) => x,
        }
    }

    fn get_id(&self) -> (r: u64)
        ensures
            r == self.spec_id(),
    {
        match self {
            Mark::Permanent(x) => *x,
            Mark::Temporary(x) => *x,
            Mark::Unmarked(x) => *x,
        }
    }
}

/// The id `x` carries a permanent mark.
spec fn perm_in(marks: Seq<Mark>, x: u64) -> bool {
    exists|i: int| 0 <= i < marks.len() && marks[i] == Mark::Permanent(x)
}

/// The id `x` carries a temporary mark.
spec fn temp_in(marks: Seq<Mark>, x: u64) -> bool {
    exists|i: int| 0 <= i < marks.len() && marks[i] == Mark::Temporary(x)
}

/// Some mark (of any state) carries the id `x`.
spec fn marked(marks: Seq<Mark>, x: u64) -> bool {
    exists|i: int| 0 <= i < marks.len() && (#[trigger] marks[i]).spec_id() == x
}

/// Mark bookkeeping is sane for graph `g` and seed `start`: ids are
/// unique, present, and reachable from the seed.
spec fn marks_ok<V, E, S>(g: Graph<V, E, S>, marks: Seq<Mark>, start: u64) -> bool {
    &&& forall|i: int, k: int|
        0 <= i < marks.len() && 0 <= k < marks.len() && i != k ==> (
        #[trigger] marks[i]).spec_id() != (#[trigger] marks[k]).spec_id()
    &&& forall|i: int|
        0 <= i < marks.len() ==> g.contains_id((#[trigger] marks[i]).spec_id()) && g.reachable(
            start,
            marks[i].spec_id(),
        )
}

/// The target of edge `k` out of the vertex at position `i` of the order
/// appears at some later position.
pub open spec fn edge_goes_later<V, E, S>(
    g: Graph<V, E, S>,
    deps: Seq<u64>,
    i: int,
    k: int,
) -> bool {
    exists|j: int| i < j < deps.len() && #[trigger] deps[j] == g.out_edges(deps[i])[k].end
}

/// The dependency order built so far: no id twice, every id present, and
/// every outgoing edge of a listed vertex leads to a vertex listed later.
pub open spec fn topo_ok<V, E, S>(g: Graph<V, E, S>, deps: Seq<u64>) -> bool {
    &&& deps.no_duplicates()
    &&& forall|i: int| 0 <= i < deps.len() ==> g.contains_id(#[trigger] deps[i])
    &&& forall|i: int, k: int|
        0 <= i < deps.len() && 0 <= k < g.out_edges(deps[i]).len() ==> #[trigger] edge_goes_later(
            g,
            deps,
            i,
            k,
        )
}

/// The permanently marked ids are exactly the listed dependencies.
spec fn perm_iff_deps(marks: Seq<Mark>, deps: Seq<u64>) -> bool {
    forall|x: u64| #[trigger] perm_in(marks, x) <==> #[trigger] deps.contains(x)
}

/// How many marks are temporary.
spec fn temp_count(marks: Seq<Mark>) -> nat
    decreases marks.len(),
{
    if marks.len() == 0 {
        0
    } else {
        temp_count(marks.drop_last()) + (if marks.last() is Temporary {
            1nat
        } else {
            0nat
        })
    }
}

proof fn lemma_temp_count_push(marks: Seq<Mark>, m: Mark)
    ensures
        temp_count(marks.push(m)) == temp_count(marks) + (if m is Temporary {
            1nat
        } else {
            0nat
        }),
{
    assert(marks.push(m).drop_last() =~= marks);
}

proof fn lemma_temp_count_update(marks: Seq<Mark>, i: int, m: Mark)
    requires
        0 <= i < marks.len(),
    ensures
        temp_count(marks.update(i, m)) + (if marks[i] is Temporary {
            1nat
        } else {
            0nat
        }) == temp_count(marks) + (if m is Temporary {
            1nat
        } else {
            0nat
        }),
    decreases marks.len(),
{
    let upd = marks.update(i, m);
    if i == marks.len() - 1 {
        assert(upd.drop_last() =~= marks.drop_last());
        assert(upd.last() == m);
    } else {
        assert(upd.drop_last() =~= marks.drop_last().update(i, m));
        assert(upd.last() == marks.last());
        lemma_temp_count_update(marks.drop_last(), i, m);
    }
}

proof fn lemma_temp_count_le(marks: Seq<Mark>)
    ensures
        temp_count(marks) <= marks.len(),
    decreases marks.len(),
{
    if marks.len() > 0 {
        lemma_temp_count_le(marks.drop_last());
    }
}

/// The ids of the marks, for the pigeonhole bound.
spec fn mark_ids(marks: Seq<Mark>) -> Seq<u64> {
    marks.map_values(|m: Mark| m.spec_id())
}

proof fn lemma_marks_len_bound<V, E, S>(g: Graph<V, E, S>, marks: Seq<Mark>, start: u64)
    requires
        g.wf(),
        marks_ok(g, marks, start),
    ensures
        marks.len() <= g.vertices_seq().len(),
{
    let ids = mark_ids(marks);
    assert(ids.no_duplicates());
    assert forall|x: u64| #[trigger] ids.contains(x) implies g.contains_id(x) by {
        let w = choose|w: int| 0 <= w < ids.len() && ids[w] == x;
        assert(marks[w].spec_id() == x);
    }
    crate::graph::lemma_unique_ids_bound(g, ids);
}

impl<V, E> Graph<V, E, WithOutgoing> {
    /// Classic three-mark depth-first topological sort seeded at `start_id`.
    /// On success the returned order lists, front to back, exactly the
    /// vertices reachable from `start_id` (closed under outgoing edges),
    /// with every edge's source before its target. Success is guaranteed
    /// whenever the seed is present and no cycle is reachable from it; a
    /// reachable cycle is reported with the distinct cycle message and no
    /// partial order, an absent seed with `KeyWasNotFound`.
    #[verifier::loop_isolation(false)]
    #[verifier::rlimit(100)]
    pub fn topological_sort(&self, start_id: u64) -> (r: Result<
        std::collections::VecDeque<u64>,
        Error,
    >)
        requires
            self.wf(),
            self.all_shapes(super::definitions::ShapeTag::Outgoing),
        ensures
            match r {
                Ok(deps) => {
                    &&& self.contains_id(start_id)
                    &&& topo_ok(*self, deps@)
                    &&& deps@.contains(start_id)
                    &&& forall|b: u64| self.reachable(start_id, b) ==> deps@.contains(b)
                    &&& forall|b: u64|
                        #[trigger] deps@.contains(b) ==> self.reachable(start_id, b)
                },
                Err(e) => (e == Error::KeyWasNotFound && !self.contains_id(start_id)) || (
                e.is_cycle_error() && exists|c: u64|
                    #[trigger] self.reachable(start_id, c) && self.cycle_at(c)),
            },
            self.contains_id(start_id) && (forall|c: u64|
                #[trigger] self.reachable(start_id, c) ==> !self.cycle_at(c)) ==> r is Ok,
    {
        match self.find_slot(start_id) {
            None => {
                return Err(Error::KeyWasNotFound);
            },
            Some(_) => {},
        }
        let mut marks: Vec<Mark> = Vec::new();
        marks.push(Mark::Unmarked(start_id));
        let mut deps: std::collections::VecDeque<u64> = std::collections::VecDeque::new();
        proof {
            assert(marks@ =~= seq![Mark::Unmarked(start_id)]);
            lemma_temp_count_push(Seq::<Mark>::empty(), Mark::Unmarked(start_id));
            assert(temp_count(marks@) == 0);
            assert(marks@[0].spec_id() == start_id);
            assert(marked(marks@, start_id));
            crate::graph::lemma_reachable_refl(*self, start_id);
            assert forall|x: u64| !(#[trigger] perm_in(marks@, x)) by {
                if perm_in(marks@, x) {
                    let w = choose|w: int|
                        0 <= w < marks@.len() && marks@[w] == Mark::Permanent(x);
                }
            }
        }
        while !all_marks_permanent(&marks)
            invariant
                marks_ok(*self, marks@, start_id),
                perm_iff_deps(marks@, deps@),
                topo_ok(*self, deps@),
                temp_count(marks@) == 0,
                marked(marks@, start_id),
            decreases self.vertices_seq().len() - deps@.len(),
        {
            let mut found: Option<u64> = None;
            let mut idx: usize = 0;
            while idx < marks.len()
                invariant
                    0 <= idx <= marks@.len(),
                    match found {
                        Some(u) => exists|w: int|
                            0 <= w < marks@.len() && marks@[w] == Mark::Unmarked(u),
                        None => forall|w: int|
                            0 <= w < idx ==> !((#[trigger] marks@[w]) is Unmarked),
                    },
                decreases marks@.len() - idx,
            {
                match &marks[idx] {
                    Mark::Unmarked(x) => {
                        if found.is_none() {
                            found = Some(*x);
                            proof {
                                assert(marks@[idx as int] == Mark::Unmarked(*x));
                            }
                        }
                    },
                    _ => {},
                }
                idx += 1;
            }
            let uid = match found {
                Some(u) => u,
                None => {
                    proof {
                        lemma_temp_count_zero(marks@);
                        let w = choose|w: int|
                            0 <= w < marks@.len() && !((#[trigger] marks@[w]) is Permanent);
                        assert(false);
                    }
                    return Err(Error::UnexpectedError);
                },
            };
            let ghost deps_before = deps@;
            proof {
                let w = choose|w: int|
                    0 <= w < marks@.len() && marks@[w] == Mark::Unmarked(uid);
                assert(self.contains_id(marks@[w].spec_id()));
                assert(!perm_in(marks@, uid)) by {
                    if perm_in(marks@, uid) {
                        let w2 = choose|w2: int|
                            0 <= w2 < marks@.len() && marks@[w2] == Mark::Permanent(uid);
                        assert(marks@[w2].spec_id() == marks@[w].spec_id());
                    }
                }
                assert(self.reachable(start_id, marks@[w].spec_id()));
                lemma_temp_count_zero(marks@);
                assert forall|t: u64| #[trigger] temp_in(marks@, t) implies self.reaches_through(
                    t,
                    uid,
                ) by {
                    let w2 = choose|w2: int|
                        0 <= w2 < marks@.len() && marks@[w2] == Mark::Temporary(t);
                    assert(!(marks@[w2] is Temporary));
                }
                lemma_order_len_bound(deps@, *self);
            }
            let ghost marks_before = marks@;
            let res = self.visit_node(uid, &mut marks, &mut deps, Ghost(start_id));
            match res {
                Err(e) => {
                    return Err(e);
                },
                Ok(_) => {},
            }
            proof {
                let w = choose|w: int|
                    0 <= w < marks_before.len() && (#[trigger] marks_before[w]).spec_id()
                        == start_id;
                assert(marks@[w].spec_id() == start_id);
                assert(marked(marks@, start_id));
                lemma_order_len_bound(deps@, *self);
                assert(deps@.len() > deps_before.len());
            }
        }
        proof {
            assert(marked(marks@, start_id));
            let w = choose|w: int|
                0 <= w < marks@.len() && (#[trigger] marks@[w]).spec_id() == start_id;
            assert(marks@[w] is Permanent);
            assert(marks@[w] == Mark::Permanent(start_id));
            assert(perm_in(marks@, start_id));
            assert(deps@.contains(start_id));
            assert forall|b: u64| self.reachable(start_id, b) implies deps@.contains(b) by {
                assert forall|u: u64, w2: u64|
                    deps@.contains(u) && #[trigger] self.edge_to(u, w2) implies deps@.contains(
                    w2,
                ) by {
                    let wi = choose|wi: int| 0 <= wi < deps@.len() && deps@[wi] == u;
                    let k = choose|k: int|
                        0 <= k < self.out_edges(u).len() && (#[trigger] self.out_edges(u)[k]).end
                            == w2;
                    assert(self.out_edges(deps@[wi])[k].end == w2);
                    assert(edge_goes_later(*self, deps@, wi, k));
                    let j = choose|j: int|
                        wi < j < deps@.len() && #[trigger] deps@[j] == self.out_edges(
                            deps@[wi],
                        )[k].end;
                }
                let p = choose|p: Seq<u64>|
                    #[trigger] self.valid_id_path(p) && p[0] == start_id && p.last() == b;
                crate::graph::lemma_path_in_closed_set(*self, p, deps@);
            }
            assert forall|b: u64| #[trigger] deps@.contains(b) implies self.reachable(
                start_id,
                b,
            ) by {
                assert(perm_in(marks@, b));
                let w2 = choose|w2: int|
                    0 <= w2 < marks@.len() && marks@[w2] == Mark::Permanent(b);
                assert(marks@[w2].spec_id() == b);
            }
        }
        Ok(deps)
    }
}

/// The listed order can be no longer than the vertex count.
proof fn lemma_order_len_bound<V, E, S>(deps: Seq<u64>, g: Graph<V, E, S>)
    requires
        g.wf(),
        topo_ok(g, deps),
    ensures
        deps.len() <= g.vertices_seq().len(),
{
    crate::graph::lemma_unique_ids_bound(g, deps);
}

/// The position of an id within a duplicate-free order.
pub open spec fn dep_pos(deps: Seq<u64>, x: u64) -> int {
    choose|i: int| 0 <= i < deps.len() && deps[i] == x
}

/// Walking any path of the graph moves strictly forward through a
/// topological order that contains the path's start.
pub proof fn lemma_topo_path_pos<V, E, S>(g: Graph<V, E, S>, deps: Seq<u64>, p: Seq<u64>)
    requires
        g.wf(),
        topo_ok(g, deps),
        g.valid_id_path(p),
        deps.contains(p[0]),
    ensures
        deps.contains(p.last()),
        p.len() > 1 ==> dep_pos(deps, p[0]) < dep_pos(deps, p.last()),
    decreases p.len(),
{
    if p.len() > 1 {
        assert(g.edge_to(p[0], p[1]));
        let i0 = dep_pos(deps, p[0]);
        assert(0 <= i0 < deps.len() && deps[i0] == p[0]);
        let k = choose|k: int|
            0 <= k < g.out_edges(p[0]).len() && (#[trigger] g.out_edges(p[0])[k]).end == p[1];
        assert(g.out_edges(deps[i0])[k].end == p[1]);
        assert(edge_goes_later(g, deps, i0, k));
        let j = choose|j: int|
            i0 < j < deps.len() && #[trigger] deps[j] == g.out_edges(deps[i0])[k].end;
        assert(deps.contains(p[1]));
        let j2 = dep_pos(deps, p[1]);
        assert(0 <= j2 < deps.len() && deps[j2] == p[1]);
        if j2 != j {
            assert(deps[j2] == deps[j]);
            assert(false);
        }
        let q = p.drop_first();
        assert forall|m: int| 0 <= m < q.len() - 1 implies g.edge_to(#[trigger] q[m], q[m + 1]) by {
            assert(g.edge_to(p[m + 1], p[m + 2]));
        }
        crate::graph::lemma_edge_to_present(g, p[0], p[1]);
        assert(g.valid_id_path(q));
        lemma_topo_path_pos(g, deps, q);
        assert(q.last() == p.last());
        assert(q[0] == p[1]);
    }
}

/// If a cycle is reachable from the seed, no order covering everything
/// reachable can list every edge's source before its target: the
/// topological sort can never succeed on such a graph.
pub proof fn lemma_cycle_defeats_topological_sort<V, E, S>(
    g: Graph<V, E, S>,
    deps: Seq<u64>,
    start: u64,
    c: u64,
)
    requires
        g.wf(),
        forall|b: u64| g.reachable(start, b) ==> deps.contains(b),
        g.reachable(start, c),
        g.cycle_at(c),
    ensures
        !topo_ok(g, deps),
{
    if topo_ok(g, deps) {
        assert(deps.contains(c));
        let u = choose|u: u64| #[trigger] g.edge_to(u, c) && g.reachable(c, u);
        let p = choose|p: Seq<u64>| #[trigger] g.valid_id_path(p) && p[0] == c && p.last() == u;
        let q = p.push(c);
        assert forall|m: int| 0 <= m < q.len() - 1 implies g.edge_to(#[trigger] q[m], q[m + 1]) by {
            if m < p.len() - 1 {
                assert(g.edge_to(p[m], p[m + 1]));
                assert(q[m] == p[m] && q[m + 1] == p[m + 1]);
            } else {
                assert(q[m] == u && q[m + 1] == c);
            }
        }
        assert(g.valid_id_path(q));
        assert(q[0] == c && q.last() == c && q.len() > 1);
        lemma_topo_path_pos(g, deps, q);
    }
}

/// An edge from a vertex to itself puts that vertex on a cycle.
pub proof fn lemma_self_edge_cycles<V, E, S>(g: Graph<V, E, S>, v: u64)
    requires
        g.contains_id(v),
        g.edge_to(v, v),
    ensures
        g.cycle_at(v),
{
    crate::graph::lemma_reachable_refl(g, v);
}

proof fn lemma_temp_count_zero(marks: Seq<Mark>)
    requires
        temp_count(marks) == 0,
    ensures
        forall|i: int| 0 <= i < marks.len() ==> !((#[trigger] marks[i]) is Temporary),
    decreases marks.len(),
{
    if marks.len() > 0 {
        lemma_temp_count_zero(marks.drop_last());
        assert forall|i: int| 0 <= i < marks.len() implies !((#[trigger] marks[i]) is Temporary) by {
            if i < marks.len() - 1 {
                assert(marks.drop_last()[i] == marks[i]);
            }
        }
    }
}

/// True when every mark is permanent: the walk is complete.
fn all_marks_permanent(marks: &Vec<Mark>) -> (r: bool)
    ensures
        r == forall|i: int| 0 <= i < marks@.len() ==> (#[trigger] marks@[i]) is Permanent,
{
    let mut idx: usize = 0;
    while idx < marks.len()
        invariant
            0 <= idx <= marks@.len(),
            forall|m: int| 0 <= m < idx ==> (#[trigger] marks@[m]) is Permanent,
        decreases marks@.len() - idx,
    {
        match &marks[idx] {
            Mark::Permanent(_) => {},
            _ => {
                return false;
            },
        }
        idx += 1;
    }
    true
}

impl<V, E> Graph<V, E, WithOutgoing> {
    /// One visit of the three-mark depth-first walk: marks `id` temporary,
    /// processes every outgoing neighbour, then marks `id` permanent and
    /// prepends it to the dependency order. A temporary mark seen again is a
    /// back-edge, reported as the cycle error.
    #[verifier::loop_isolation(false)]
    #[verifier::rlimit(100)]
    fn visit_node(
        &self,
        id: u64,
        marks: &mut Vec<Mark>,
        deps: &mut std::collections::VecDeque<u64>,
        Ghost(start): Ghost<u64>,
    ) -> (r: Result<(), Error>)
        requires
            self.wf(),
            self.all_shapes(ShapeTag::Outgoing),
            self.contains_id(id),
            self.reachable(start, id),
            forall|t: u64| #[trigger] temp_in(old(marks)@, t) ==> self.reaches_through(t, id),
            marks_ok(*self, old(marks)@, start),
            perm_iff_deps(old(marks)@, old(deps)@),
            topo_ok(*self, old(deps)@),
        ensures
            marks_ok(*self, final(marks)@, start),
            final(marks)@.len() >= old(marks)@.len(),
            forall|i: int|
                0 <= i < old(marks)@.len() ==> (#[trigger] final(marks)@[i]).spec_id() == old(
                    marks,
                )@[i].spec_id(),
            forall|i: int|
                0 <= i < old(marks)@.len() && old(marks)@[i] is Temporary ==> final(marks)@[i]
                    == old(marks)@[i],
            forall|i: int|
                0 <= i < old(marks)@.len() && old(marks)@[i] is Permanent ==> final(marks)@[i]
                    == old(marks)@[i],
            forall|x: u64| #[trigger] old(deps)@.contains(x) ==> final(deps)@.contains(x),
            final(deps)@.len() >= old(deps)@.len(),
            match r {
                Ok(u) => {
                    &&& perm_iff_deps(final(marks)@, final(deps)@)
                    &&& topo_ok(*self, final(deps)@)
                    &&& perm_in(final(marks)@, id)
                    &&& temp_count(final(marks)@) == temp_count(old(marks)@)
                    &&& forall|x: u64|
                        #[trigger] temp_in(final(marks)@, x) <==> temp_in(old(marks)@, x)
                    &&& (!perm_in(old(marks)@, id) ==> final(deps)@.len() > old(deps)@.len())
                },
                Err(e) => e.is_cycle_error() && exists|c: u64|
                    #[trigger] self.reachable(start, c) && self.cycle_at(c),
            },
        decreases self.vertices_seq().len() - temp_count(old(marks)@),
    {
        let ghost marks0 = marks@;
        let ghost deps0 = deps@;
        let mut pos: usize = marks.len();
        let mut idx: usize = 0;
        while idx < marks.len()
            invariant
                0 <= idx <= marks@.len(),
                marks@ == marks0,
                deps@ == deps0,
                pos == marks@.len() && (forall|m: int|
                    0 <= m < idx ==> (#[trigger] marks@[m]).spec_id() != id) || (pos < idx
                    && marks@[pos as int].spec_id() == id),
            decreases marks@.len() - idx,
        {
            if marks[idx].get_id() == id {
                pos = idx;
            }
            idx += 1;
        }
        if pos == marks.len() {
            marks.push(Mark::Unmarked(id));
            proof {
                lemma_temp_count_push(marks0, Mark::Unmarked(id));
                assert(marks@.drop_last() =~= marks0);
            }
        }
        let ghost marks1 = marks@;
        proof {
            assert((pos as int) < marks1.len() && marks1[pos as int].spec_id() == id);
            assert(marks_ok(*self, marks1, start)) by {
                if marks1.len() == marks0.len() + 1 {
                    assert forall|i: int, k: int|
                        0 <= i < marks1.len() && 0 <= k < marks1.len() && i != k implies (
                    #[trigger] marks1[i]).spec_id() != (#[trigger] marks1[k]).spec_id() by {
                        if i < marks0.len() && k < marks0.len() {
                            assert(marks0[i] == marks1[i] && marks0[k] == marks1[k]);
                        }
                    }
                }
                assert forall|i: int| 0 <= i < marks1.len() implies self.contains_id(
                    (#[trigger] marks1[i]).spec_id(),
                ) && self.reachable(start, marks1[i].spec_id()) by {
                    if i < marks0.len() {
                        assert(marks1[i] == marks0[i]);
                    } else {
                        assert(marks1[i].spec_id() == id);
                    }
                }
            }
            assert(temp_count(marks1) == temp_count(marks0));
        }
        let m = marks[pos];
        match m {
            Mark::Permanent(_) => {
                proof {
                    assert(marks1[pos as int] == Mark::Permanent(id));
                    assert(perm_in(marks0, id) || pos as int >= marks0.len());
                    assert(marks@ == marks0 && deps@ == deps0);
                    assert(topo_ok(*self, deps@));
                    assert(perm_in(marks@, id));
                }
                Ok(())
            },
            Mark::Temporary(_) => {
                proof {
                    assert(marks1[pos as int] == Mark::Temporary(id));
                    assert((pos as int) < marks0.len() && marks0[pos as int] == marks1[pos as int]);
                    assert(temp_in(marks0, id));
                    assert(self.reaches_through(id, id));
                    crate::graph::lemma_closed_walk_cycle(*self, id);
                    assert(self.reachable(start, id) && self.cycle_at(id));
                }
                Err(Error::WithMessage("Graph contains cycle"))
            },
            Mark::Unmarked(_) => {
                let mpos = &mut marks[pos];
                *mpos = Mark::Temporary(id);
                let ghost marks2 = marks@;
                proof {
                    assert(marks2 == marks1.update(pos as int, Mark::Temporary(id)));
                    lemma_temp_count_update(marks1, pos as int, Mark::Temporary(id));
                    assert(temp_count(marks2) == temp_count(marks0) + 1);
                    lemma_marks_len_bound(*self, marks2, start);
                    lemma_temp_count_le(marks2);
                    assert forall|x: u64| #[trigger] temp_in(marks2, x) implies (temp_in(
                        marks0,
                        x,
                    ) || x == id) by {
                        let w = choose|w: int|
                            0 <= w < marks2.len() && marks2[w] == Mark::Temporary(x);
                        if w != pos as int {
                            assert(marks1[w] == marks2[w]);
                            if w >= marks0.len() {
                                assert(marks1[w] == Mark::Unmarked(id));
                            } else {
                                assert(marks0[w] == marks1[w]);
                            }
                        }
                    }
                    assert forall|x: u64| temp_in(marks0, x) implies #[trigger] temp_in(
                        marks2,
                        x,
                    ) by {
                        let w = choose|w: int|
                            0 <= w < marks0.len() && marks0[w] == Mark::Temporary(x);
                        assert(marks1[w] == marks0[w]);
                        assert(w != pos as int);
                        assert(marks2[w] == marks1[w]);
                    }
                    assert forall|x: u64| #[trigger] perm_in(marks2, x) implies perm_in(
                        marks0,
                        x,
                    ) by {
                        let w = choose|w: int|
                            0 <= w < marks2.len() && marks2[w] == Mark::Permanent(x);
                        assert(w != pos as int);
                        assert(marks1[w] == marks2[w]);
                        assert(w < marks0.len());
                        assert(marks0[w] == marks1[w]);
                    }
                    assert forall|x: u64| perm_in(marks0, x) implies #[trigger] perm_in(
                        marks2,
                        x,
                    ) by {
                        let w = choose|w: int|
                            0 <= w < marks0.len() && marks0[w] == Mark::Permanent(x);
                        assert(marks1[w] == marks0[w]);
                        assert(w != pos as int);
                        assert(marks2[w] == marks1[w]);
                    }
                    assert(perm_iff_deps(marks2, deps0));
                }
                let slot = match self.find_slot(id) {
                    Some(s) => s,
                    None => {
                        proof {
                            assert(false);
                        }
                        return Err(Error::WithMessage("Graph contains cycle"));
                    },
                };
                let ghost oe = self.out_edges(id);
                match &self.vertices[slot].vicinity {
                    Vicinity::Outgoing { edges } => {
                        match edges {
                            Some(es) => {
                                proof {
                                    assert(es@ == oe);
                                }
                                let mut k: usize = 0;
                                while k < es.len()
                                    invariant
                                        0 <= k <= es@.len(),
                                        es@ == oe,
                                        marks_ok(*self, marks@, start),
                                        perm_iff_deps(marks@, deps@),
                                        topo_ok(*self, deps@),
                                        temp_count(marks@) == temp_count(marks0) + 1,
                                        marks@.len() >= marks1.len(),
                                        (pos as int) < marks@.len() && marks@[pos as int]
                                            == Mark::Temporary(id),
                                        forall|i: int|
                                            0 <= i < marks1.len() ==> (
                                            #[trigger] marks@[i]).spec_id()
                                                == marks1[i].spec_id(),
                                        forall|i: int|
                                            0 <= i < marks1.len() && marks1[i] is Temporary
                                                ==> marks@[i] == marks1[i],
                                        forall|i: int|
                                            0 <= i < marks1.len() && marks1[i] is Permanent
                                                ==> marks@[i] == marks1[i],
                                        forall|x: u64|
                                            #[trigger] temp_in(marks@, x) <==> (temp_in(marks0, x)
                                                || x == id),
                                        forall|x: u64|
                                            #[trigger] deps0.contains(x) ==> deps@.contains(x),
                                        deps@.len() >= deps0.len(),
                                        forall|mm: int|
                                            0 <= mm < k ==> perm_in(
                                                marks@,
                                                (#[trigger] oe[mm]).end,
                                            ),
                                    decreases es@.len() - k,
                                {
                                    let endid = es[k].end;
                                    proof {
                                        assert(self.vertex_edges_ok(
                                            self.vertices_seq()[slot as int],
                                        ));
                                        assert(self.contains_id(endid));
                                    }
                                    let ghost marks_pre = marks@;
                                    let ghost deps_pre = deps@;
                                    proof {
                                        lemma_marks_len_bound(*self, marks@, start);
                                        lemma_temp_count_le(marks@);
                                        assert(self.edge_to(id, endid)) by {
                                            assert(oe[k as int].end == endid);
                                        }
                                        crate::graph::lemma_reachable_step(
                                            *self,
                                            start,
                                            id,
                                            endid,
                                        );
                                        assert forall|t: u64|
                                            #[trigger] temp_in(marks@, t) implies
                                            self.reaches_through(t, endid) by {
                                            if t == id {
                                                crate::graph::lemma_reachable_refl(*self, endid);
                                            } else {
                                                assert(temp_in(marks0, t));
                                                assert(self.reaches_through(t, id));
                                                let x = choose|x: u64|
                                                    #[trigger] self.edge_to(t, x)
                                                        && self.reachable(x, id);
                                                crate::graph::lemma_reachable_step(
                                                    *self,
                                                    x,
                                                    id,
                                                    endid,
                                                );
                                            }
                                        }
                                    }
                                    let res = self.visit_node(endid, marks, deps, Ghost(start));
                                    match res {
                                        Err(e) => {
                                            proof {
                                                assert forall|i: int|
                                                    0 <= i < marks0.len() implies (
                                                #[trigger] marks@[i]).spec_id()
                                                    == marks0[i].spec_id() by {
                                                    assert(marks_pre[i].spec_id()
                                                        == marks1[i].spec_id());
                                                }
                                            }
                                            return Err(e);
                                        },
                                        Ok(_) => {},
                                    }
                                    proof {
                                        assert(perm_in(marks@, endid));
                                        assert forall|mm: int| 0 <= mm < k + 1 implies perm_in(
                                            marks@,
                                            (#[trigger] oe[mm]).end,
                                        ) by {
                                            if mm < k {
                                                let w = choose|w: int|
                                                    0 <= w < marks_pre.len() && marks_pre[w]
                                                        == Mark::Permanent(oe[mm].end);
                                                assert(marks@[w] == marks_pre[w]);
                                            }
                                        }
                                        assert forall|x: u64|
                                            #[trigger] temp_in(marks@, x) <==> (temp_in(marks0, x)
                                                || x == id) by {
                                            assert(temp_in(marks@, x) <==> temp_in(marks_pre, x));
                                        }
                                    }
                                    k += 1;
                                }
                            },
                            None => {
                                proof {
                                    assert(oe.len() == 0);
                                }
                            },
                        }
                    },
                    _ => {
                        proof {
                            assert(self.vertices_seq()[slot as int].vicinity.spec_tag()
                                == ShapeTag::Outgoing);
                            assert(false);
                        }
                        return Err(Error::WithMessage("Graph contains cycle"));
                    },
                }
                let ghost marks3 = marks@;
                let ghost deps3 = deps@;
                let mpos2 = &mut marks[pos];
                *mpos2 = Mark::Permanent(id);
                deps.push_front(id);
                proof {
                    assert(marks@ == marks3.update(pos as int, Mark::Permanent(id)));
                    assert(deps@ == seq![id] + deps3);
                    lemma_temp_count_update(marks3, pos as int, Mark::Permanent(id));
                    // the only mark with this id was the temporary one
                    assert(!perm_in(marks3, id)) by {
                        if perm_in(marks3, id) {
                            let w = choose|w: int|
                                0 <= w < marks3.len() && marks3[w] == Mark::Permanent(id);
                            assert(marks3[w].spec_id() == marks3[pos as int].spec_id());
                        }
                    }
                    assert(!deps3.contains(id));
                    // the new order is still a topological order
                    assert(deps@.no_duplicates()) by {
                        assert forall|a: int, b: int|
                            0 <= a < deps@.len() && 0 <= b < deps@.len() && a != b implies deps@[a]
                            != deps@[b] by {
                            if a > 0 && b > 0 {
                                assert(deps@[a] == deps3[a - 1] && deps@[b] == deps3[b - 1]);
                            }
                        }
                    }
                    // permanent marks now match the new order
                    assert forall|x: u64| #[trigger] perm_in(marks@, x) implies deps@.contains(
                        x,
                    ) by {
                        if x == id {
                            assert(deps@[0] == id);
                        } else {
                            let w = choose|w: int|
                                0 <= w < marks@.len() && marks@[w] == Mark::Permanent(x);
                            if w == pos as int {
                                assert(marks@[w] == Mark::Permanent(id));
                            }
                            assert(w != pos as int);
                            assert(marks3.update(pos as int, Mark::Permanent(id))[w]
                                == marks3[w]);
                            assert(marks3[w] == Mark::Permanent(x));
                            assert(perm_in(marks3, x));
                            assert(deps3.contains(x));
                            let w2 = choose|w2: int| 0 <= w2 < deps3.len() && deps3[w2] == x;
                            assert(deps@[w2 + 1] == x);
                        }
                    }
                    assert forall|x: u64| #[trigger] deps@.contains(x) implies perm_in(
                        marks@,
                        x,
                    ) by {
                        let w = choose|w: int| 0 <= w < deps@.len() && deps@[w] == x;
                        if w == 0 {
                            assert(marks@[pos as int] == Mark::Permanent(id));
                        } else {
                            assert(deps3[w - 1] == x);
                            assert(deps3.contains(x));
                            assert(perm_in(marks3, x));
                            let w2 = choose|w2: int|
                                0 <= w2 < marks3.len() && marks3[w2] == Mark::Permanent(x);
                            assert(w2 != pos as int) by {
                                assert(marks3[pos as int] == Mark::Temporary(id));
                            }
                            assert(marks3.update(pos as int, Mark::Permanent(id))[w2]
                                == marks3[w2]);
                            assert(marks@[w2] == Mark::Permanent(x));
                        }
                    }
                    // temporary marks are restored
                    assert forall|x: u64| #[trigger] temp_in(marks@, x) implies temp_in(
                        marks0,
                        x,
                    ) by {
                        let w = choose|w: int|
                            0 <= w < marks@.len() && marks@[w] == Mark::Temporary(x);
                        assert(marks3[w] == Mark::Temporary(x));
                        assert(temp_in(marks3, x));
                        assert(x != id || w == pos as int);
                    }
                    assert forall|x: u64| temp_in(marks0, x) implies #[trigger] temp_in(
                        marks@,
                        x,
                    ) by {
                        let w = choose|w: int|
                            0 <= w < marks0.len() && marks0[w] == Mark::Temporary(x);
                        assert(marks3[w] == marks0[w]);
                        assert(x != id);
                        assert(marks@[w] == marks3[w]);
                    }
                    // the id entry itself
                    assert(perm_in(marks@, id)) by {
                        assert(marks@[pos as int] == Mark::Permanent(id));
                    }
                    assert(deps@[0] == id && deps@.contains(id));
                    assert forall|i: int| 0 <= i < deps@.len() implies self.contains_id(
                        #[trigger] deps@[i],
                    ) by {
                        if i > 0 {
                            assert(deps@[i] == deps3[i - 1]);
                        }
                    }
                    assert(topo_ok(*self, deps@)) by {
                        assert forall|i: int, k: int|
                            0 <= i < deps@.len() && 0 <= k < self.out_edges(deps@[i]).len()
                                implies #[trigger] edge_goes_later(*self, deps@, i, k) by {
                            if i == 0 {
                                assert(deps@[0] == id);
                                assert(perm_in(marks3, oe[k].end));
                                assert(deps3.contains(oe[k].end));
                                let w = choose|w: int|
                                    0 <= w < deps3.len() && deps3[w] == oe[k].end;
                                assert(deps@[w + 1] == oe[k].end);
                                assert(i < w + 1 < deps@.len() && deps@[w + 1]
                                    == self.out_edges(deps@[i])[k].end);
                            } else {
                                assert(deps@[i] == deps3[i - 1]);
                                assert(edge_goes_later(*self, deps3, i - 1, k));
                                let j0 = choose|j0: int|
                                    i - 1 < j0 < deps3.len() && #[trigger] deps3[j0]
                                        == self.out_edges(deps3[i - 1])[k].end;
                                assert(deps@[j0 + 1] == self.out_edges(deps@[i])[k].end);
                                assert(i < j0 + 1 < deps@.len());
                            }
                        }
                    }
                    assert forall|x: u64| #[trigger] deps3.contains(x) implies deps@.contains(
                        x,
                    ) by {
                        let w = choose|w: int| 0 <= w < deps3.len() && deps3[w] == x;
                        assert(deps@[w + 1] == x);
                    }
                    assert(temp_count(marks@) == temp_count(marks0));
                    assert forall|i: int|
                        0 <= i < marks0.len() implies (#[trigger] marks@[i]).spec_id()
                        == marks0[i].spec_id() by {
                        assert(marks3[i].spec_id() == marks1[i].spec_id());
                        assert(marks1[i].spec_id() == marks0[i].spec_id());
                    }
                    assert forall|i: int|
                        0 <= i < marks0.len() && marks0[i] is Temporary implies marks@[i]
                        == marks0[i] by {
                        assert(marks1[i] == marks0[i]);
                        assert(marks3[i] == marks1[i]);
                        assert(i != pos as int);
                    }
                    assert forall|i: int|
                        0 <= i < marks0.len() && marks0[i] is Permanent implies marks@[i]
                        == marks0[i] by {
                        assert(marks1[i] == marks0[i]);
                        assert(marks3[i] == marks1[i]);
                        assert(i != pos as int);
                    }
                    assert(marks_ok(*self, marks@, start)) by {
                        assert forall|i: int, k: int|
                            0 <= i < marks@.len() && 0 <= k < marks@.len() && i != k implies (
                        #[trigger] marks@[i]).spec_id() != (#[trigger] marks@[k]).spec_id() by {
                            assert(marks@[i].spec_id() == marks3[i].spec_id());
                            assert(marks@[k].spec_id() == marks3[k].spec_id());
                        }
                        assert forall|i: int| 0 <= i < marks@.len() implies self.contains_id(
                            (#[trigger] marks@[i]).spec_id(),
                        ) && self.reachable(start, marks@[i].spec_id()) by {
                            assert(marks@[i].spec_id() == marks3[i].spec_id());
                        }
                    }
                }
                Ok(())
            },
        }
    }
}


impl<V, E> Graph<V, E, WithOutgoing> {
    /// The visit order of a depth-first walk from `initial_id`: every vertex
    /// reachable from it, exactly once, starting with `initial_id` itself.
    pub fn depth_first_order(&self, initial_id: u64) -> (r: Result<Vec<u64>, Error>)
        requires
            self.wf(),
        ensures
            match r {
                Ok(order) => {
                    &&& self.contains_id(initial_id)
                    &&& order@ == super::dfs_order(*self, initial_id)
                    &&& order@.no_duplicates()
                    &&& order@.len() >= 1 && order@[0] == initial_id
                    &&& forall|b: u64|
                        #[trigger] order@.contains(b) <==> self.reachable(initial_id, b)
                },
                Err(e) => e == Error::KeyWasNotFound && !self.contains_id(initial_id),
            },
    {
        self.traverse_ids(initial_id, true)
    }

    /// The visit order of a breadth-first walk from `initial_id`: every
    /// vertex reachable from it, exactly once, starting with `initial_id`.
    pub fn breadth_first_order(&self, initial_id: u64) -> (r: Result<Vec<u64>, Error>)
        requires
            self.wf(),
        ensures
            match r {
                Ok(order) => {
                    &&& self.contains_id(initial_id)
                    &&& order@ == super::bfs_order(*self, initial_id)
                    &&& order@.no_duplicates()
                    &&& order@.len() >= 1 && order@[0] == initial_id
                    &&& forall|b: u64|
                        #[trigger] order@.contains(b) <==> self.reachable(initial_id, b)
                },
                Err(e) => e == Error::KeyWasNotFound && !self.contains_id(initial_id),
            },
    {
        self.traverse_ids(initial_id, false)
    }

    /// Depth-first walk folding `map` over every vertex reachable from
    /// `initial_id` (each visited once, LIFO frontier), combining per-vertex
    /// results with the associative `combine`.
    pub fn depth_first_traversal<R, F: Fn(&Vertex<V, E>) -> R, C: Fn(R, R) -> R>(
        &self,
        initial_id: u64,
        acc: R,
        map: F,
        combine: C,
    ) -> (r: Result<R, Error>)
        requires
            self.wf(),
            forall|v: Vertex<V, E>| #[trigger] call_requires(map, (&v,)),
            forall|a: R, b: R| #[trigger] call_requires(combine, (a, b)),
        ensures
            r is Ok <==> self.contains_id(initial_id),
            r matches Err(e) ==> e == Error::KeyWasNotFound,
            r matches Ok(out) ==> super::visit_order(
                *self,
                initial_id,
                super::dfs_order(*self, initial_id),
            ) && super::folds_over(
                *self,
                map,
                combine,
                super::dfs_order(*self, initial_id),
                super::dfs_order(*self, initial_id).len() as int,
                acc,
                out,
            ),
    {
        self.fold_traversal(initial_id, acc, map, combine, true)
    }

    /// Breadth-first walk folding `map` over every vertex reachable from
    /// `initial_id` (each visited once, FIFO frontier), combining per-vertex
    /// results with the associative `combine`.
    pub fn breadth_first_traversal<R, F: Fn(&Vertex<V, E>) -> R, C: Fn(R, R) -> R>(
        &self,
        initial_id: u64,
        acc: R,
        map: F,
        combine: C,
    ) -> (r: Result<R, Error>)
        requires
            self.wf(),
            forall|v: Vertex<V, E>| #[trigger] call_requires(map, (&v,)),
            forall|a: R, b: R| #[trigger] call_requires(combine, (a, b)),
        ensures
            r is Ok <==> self.contains_id(initial_id),
            r matches Err(e) ==> e == Error::KeyWasNotFound,
            r matches Ok(out) ==> super::visit_order(
                *self,
                initial_id,
                super::bfs_order(*self, initial_id),
            ) && super::folds_over(
                *self,
                map,
                combine,
                super::bfs_order(*self, initial_id),
                super::bfs_order(*self, initial_id).len() as int,
                acc,
                out,
            ),
    {
        self.fold_traversal(initial_id, acc, map, combine, false)
    }

    /// Depth-first walk with in-place payload annotation: `map` reads each
    /// visited vertex's payload and returns the replacement payload and the
    /// per-vertex result. Ids and adjacency never change.
    pub fn depth_first_traversal_mut<R, F: Fn(&V) -> (V, R), C: Fn(R, R) -> R>(
        &mut self,
        initial_id: u64,
        acc: R,
        map: F,
        combine: C,
    ) -> (r: Result<R, Error>)
        requires
            old(self).wf(),
            forall|v: V| #[trigger] call_requires(map, (&v,)),
            forall|a: R, b: R| #[trigger] call_requires(combine, (a, b)),
        ensures
            final(self).wf(),
            final(self).vertices_seq().len() == old(self).vertices_seq().len(),
            forall|i: int|
                0 <= i < old(self).vertices_seq().len() ==> {
                    let wv = #[trigger] final(self).vertices_seq()[i];
                    let ov = old(self).vertices_seq()[i];
                    wv.id == ov.id && wv.vicinity == ov.vicinity
                },
            forall|x: u64| #[trigger] final(self).contains_id(x) == old(self).contains_id(x),
            old(self).all_shapes(super::definitions::ShapeTag::Outgoing) ==> final(self).all_shapes(super::definitions::ShapeTag::Outgoing),
            r is Ok <==> old(self).contains_id(initial_id),
            r matches Err(e) ==> e == Error::KeyWasNotFound && *final(self) == *old(self),
            r matches Ok(out) ==> {
                let order = super::dfs_order(*old(self), initial_id);
                &&& super::visit_order(*old(self), initial_id, order)
                &&& super::mut_folds_over(
                    *old(self),
                    *final(self),
                    map,
                    combine,
                    order,
                    order.len() as int,
                    acc,
                    out,
                )
                &&& forall|x: u64|
                    old(self).contains_id(x) && !order.contains(x) ==> #[trigger] final(self).vertex_at(x).info == old(self).vertex_at(x).info
            },
    {
        let r = self.fold_traversal_mut(initial_id, acc, map, combine, true);
        proof {
            if old(self).all_shapes(super::definitions::ShapeTag::Outgoing) {
                assert forall|i: int|
                    0 <= i < self.vertices_seq().len() implies (
                #[trigger] self.vertices_seq()[i]).vicinity.spec_tag()
                    == super::definitions::ShapeTag::Outgoing by {
                    assert(self.vertices_seq()[i].vicinity == old(self).vertices_seq()[i].vicinity);
                }
            }
        }
        r
    }

    /// Breadth-first walk with in-place payload annotation, as the
    /// depth-first variant but with a FIFO frontier.
    pub fn breadth_first_traversal_mut<R, F: Fn(&V) -> (V, R), C: Fn(R, R) -> R>(
        &mut self,
        initial_id: u64,
        acc: R,
        map: F,
        combine: C,
    ) -> (r: Result<R, Error>)
        requires
            old(self).wf(),
            forall|v: V| #[trigger] call_requires(map, (&v,)),
            forall|a: R, b: R| #[trigger] call_requires(combine, (a, b)),
        ensures
            final(self).wf(),
            final(self).vertices_seq().len() == old(self).vertices_seq().len(),
            forall|i: int|
                0 <= i < old(self).vertices_seq().len() ==> {
                    let wv = #[trigger] final(self).vertices_seq()[i];
                    let ov = old(self).vertices_seq()[i];
                    wv.id == ov.id && wv.vicinity == ov.vicinity
                },
            forall|x: u64| #[trigger] final(self).contains_id(x) == old(self).contains_id(x),
            old(self).all_shapes(super::definitions::ShapeTag::Outgoing) ==> final(self).all_shapes(super::definitions::ShapeTag::Outgoing),
            r is Ok <==> old(self).contains_id(initial_id),
            r matches Err(e) ==> e == Error::KeyWasNotFound && *final(self) == *old(self),
            r matches Ok(out) ==> {
                let order = super::bfs_order(*old(self), initial_id);
                &&& super::visit_order(*old(self), initial_id, order)
                &&& super::mut_folds_over(
                    *old(self),
                    *final(self),
                    map,
                    combine,
                    order,
                    order.len() as int,
                    acc,
                    out,
                )
                &&& forall|x: u64|
                    old(self).contains_id(x) && !order.contains(x) ==> #[trigger] final(self).vertex_at(x).info == old(self).vertex_at(x).info
            },
    {
        let r = self.fold_traversal_mut(initial_id, acc, map, combine, false);
        proof {
            if old(self).all_shapes(super::definitions::ShapeTag::Outgoing) {
                assert forall|i: int|
                    0 <= i < self.vertices_seq().len() implies (
                #[trigger] self.vertices_seq()[i]).vicinity.spec_tag()
                    == super::definitions::ShapeTag::Outgoing by {
                    assert(self.vertices_seq()[i].vicinity == old(self).vertices_seq()[i].vicinity);
                }
            }
        }
        r
    }
}

impl<V, E: Copy> Graph<V, E, WithOutgoing> {
    /// Every path found by a breadth-first expansion from `id`: each visited
    /// vertex's outgoing edges become one-edge walks, combined across the
    /// walk with the cartesian path combination.
    pub fn all_paths_from(&self, id: u64) -> (r: Result<super::path::Paths<E>, Error>)
        requires
            self.wf(),
        ensures
            r is Ok <==> self.contains_id(id),
            r matches Err(e) ==> e == Error::KeyWasNotFound,
            r matches Ok(ps) ==> super::visit_order(*self, id, super::bfs_order(*self, id))
                && super::path::paths_view(ps) == super::spec_paths_fold(
                *self,
                super::bfs_order(*self, id),
                super::bfs_order(*self, id).len() as int,
            ),
    {
        self.all_paths_from_core(id)
    }

    /// The paths from `all_paths_from(start)` narrowed, via
    /// `subpath_between`, to walks leading from `start` to `end`; `None`
    /// when none qualifies or `start` is absent.
    pub fn all_paths_between(&self, start: u64, end: u64) -> (r: Option<
        Vec<super::path::Path<E>>,
    >)
        requires
            self.wf(),
        ensures
            ({
                let aps = super::spec_paths_fold(
                    *self,
                    super::bfs_order(*self, start),
                    super::bfs_order(*self, start).len() as int,
                );
                &&& (r is Some <==> (self.contains_id(start) && super::path::collect_subpaths(
                    aps,
                    aps.len() as int,
                    start,
                    end,
                ).len() > 0))
                &&& (r matches Some(v) ==> {
                    &&& v@.len() > 0
                    &&& v@.map_values(|p: super::path::Path<E>| p.0@)
                        == super::path::collect_subpaths(aps, aps.len() as int, start, end)
                    &&& forall|m: int|
                        0 <= m < v@.len() ==> {
                            let p = #[trigger] v@[m];
                            p.0@.len() > 0 && p.0@.first().start == start && p.0@.last().end
                                == end
                        }
                })
            }),
    {
        let aps = match self.all_paths_from(start) {
            Ok(ps) => ps,
            Err(_) => {
                return None;
            },
        };
        let ghost apsv = super::path::paths_view(aps);
        let mut out: Vec<super::path::Path<E>> = Vec::new();
        let mut i: usize = 0;
        while i < aps.0.len()
            invariant
                0 <= i <= aps.0@.len(),
                apsv == super::path::paths_view(aps),
                out@.map_values(|p: super::path::Path<E>| p.0@) == super::path::collect_subpaths(
                    apsv,
                    i as int,
                    start,
                    end,
                ),
                forall|m: int|
                    0 <= m < out@.len() ==> {
                        let p = #[trigger] out@[m];
                        p.0@.len() > 0 && p.0@.first().start == start && p.0@.last().end == end
                    },
            decreases aps.0@.len() - i,
        {
            proof {
                assert(aps.0@[i as int].0@ == apsv[i as int]);
            }
            let ghost out_pre = out@;
            match aps.0[i].subpath_between(start, end) {
                Ok(sp) => {
                    proof {
                        let es = aps.0@[i as int].0@;
                        assert(super::path::subpath_ok(es, start, end));
                        if !(es.first().start == start && es.last().end == end) {
                            let wi = super::path::first_start_idx(es, start);
                            let wj = super::path::first_end_idx(es, end);
                            assert(super::path::first_start_at(es, wi, start));
                            assert(super::path::first_end_at(es, wj, end));
                            assert(sp.0@.first() == es[wi] && sp.0@.last() == es[wj]);
                        }
                    }
                    out.push(sp);
                    proof {
                        assert(out@.map_values(|p: super::path::Path<E>| p.0@)
                            =~= super::path::collect_subpaths(apsv, i as int + 1, start, end));
                    }
                },
                Err(_) => {
                    proof {
                        assert(!super::path::subpath_ok(apsv[i as int], start, end));
                        assert(out@.map_values(|p: super::path::Path<E>| p.0@)
                            =~= super::path::collect_subpaths(apsv, i as int + 1, start, end));
                    }
                },
            }
            i += 1;
        }
        proof {
            super::path::lemma_collect_nonempty(apsv, apsv.len() as int, start, end);
        }
        if out.len() == 0 {
            None
        } else {
            Some(out)
        }
    }
}

} // verus!
