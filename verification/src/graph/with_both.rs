use vstd::prelude::*;

use super::definitions::{ShapeTag, Vertex, Vicinity, WithBoth};
use super::Graph;
use crate::error::Error;

verus! {

impl<V, E> Graph<V, E, WithBoth> {
    /// Adds a vertex to a graph that records both adjacency directions.
    /// Fails with `MismatchedVicinity` on any other adjacency shape, with
    /// `VertexAlreadyExists` on a duplicate id, and with `KeyWasNotFound`
    /// when the vicinity already carries an edge whose endpoints are not
    /// present.
    pub fn add_vertex(&mut self, id: u64, info: V, vicinity: Vicinity<E>) -> (r: Result<
        (),
        Error,
    >)
        requires
            old(self).wf(),
        ensures
            final(self).wf(),
            old(self).all_shapes(ShapeTag::Both) && r is Ok ==> final(self).all_shapes(
                ShapeTag::Both,
            ),
            match r {
                Err(e) => {
                    &&& *final(self) == *old(self)
                    &&& (e == Error::MismatchedVicinity || e == Error::VertexAlreadyExists || e
                        == Error::KeyWasNotFound)
                    &&& (e == Error::MismatchedVicinity <==> vicinity.spec_tag()
                        != ShapeTag::Both)
                    &&& (e == Error::VertexAlreadyExists <==> vicinity.spec_tag()
                        == ShapeTag::Both && old(self).contains_id(id))
                    &&& (e == Error::KeyWasNotFound <==> vicinity.spec_tag() == ShapeTag::Both
                        && !old(self).contains_id(id) && !old(self).spec_vicinity_ok(id, vicinity))
                },
                Ok(u) => {
                    &&& vicinity.spec_tag() == ShapeTag::Both
                    &&& !old(self).contains_id(id)
                    &&& final(self).vertices_seq() == old(self).vertices_seq().push(
                        Vertex { id, info, vicinity },
                    )
                    &&& final(self).contains_id(id)
                },
            },
    {
        if !(vicinity.tag() == ShapeTag::Both) {
            return Err(Error::MismatchedVicinity);
        }
        let r = self.insert_vertex(id, info, vicinity);
        proof {
            if r is Ok {
                let nv = self.vertices_seq();
                assert(nv[nv.len() - 1].id == id);
                assert(self.contains_id(id));
                if old(self).all_shapes(ShapeTag::Both) {
                    assert forall|i: int|
                        0 <= i < nv.len() implies (#[trigger] nv[i]).vicinity.spec_tag()
                        == ShapeTag::Both by {
                        if i < nv.len() - 1 {
                            assert(nv[i] == old(self).vertices_seq()[i]);
                        }
                    }
                }
            }
        }
        r
    }
}


impl<V, E> Graph<V, E, WithBoth> {
    /// The visit order of a depth-first walk from `initial_id`: every vertex
    /// reachable from it, exactly once, starting with `initial_id` itself.
    pub fn depth_first_order(&self, initial_id: u64) -> (r: Result<Vec<u64>, Error>)
        requires
            self.wf(),
        ensures
            match r {
                Ok(order) => {
                    &&& self.contains_id(initial_id)
                    &&& order@ == super::dfs_order(*self, initial_id)
                    &&& order@.no_duplicates()
                    &&& order@.len() >= 1 && order@[0] == initial_id
                    &&& forall|b: u64|
                        #[trigger] order@.contains(b) <==> self.reachable(initial_id, b)
                },
                Err(e) => e == Error::KeyWasNotFound && !self.contains_id(initial_id),
            },
    {
        self.traverse_ids(initial_id, true)
    }

    /// The visit order of a breadth-first walk from `initial_id`: every
    /// vertex reachable from it, exactly once, starting with `initial_id`.
    pub fn breadth_first_order(&self, initial_id: u64) -> (r: Result<Vec<u64>, Error>)
        requires
            self.wf(),
        ensures
            match r {
                Ok(order) => {
                    &&& self.contains_id(initial_id)
                    &&& order@ == super::bfs_order(*self, initial_id)
                    &&& order@.no_duplicates()
                    &&& order@.len() >= 1 && order@[0] == initial_id
                    &&& forall|b: u64|
                        #[trigger] order@.contains(b) <==> self.reachable(initial_id, b)
                },
                Err(e) => e == Error::KeyWasNotFound && !self.contains_id(initial_id),
            },
    {
        self.traverse_ids(initial_id, false)
    }

    /// Depth-first walk folding `map` over every vertex reachable from
    /// `initial_id` (each visited once, LIFO frontier), combining per-vertex
    /// results with the associative `combine`.
    pub fn depth_first_traversal<R, F: Fn(&Vertex<V, E>) -> R, C: Fn(R, R) -> R>(
        &self,
        initial_id: u64,
        acc: R,
        map: F,
        combine: C,
    ) -> (r: Result<R, Error>)
        requires
            self.wf(),
            forall|v: Vertex<V, E>| #[trigger] call_requires(map, (&v,)),
            forall|a: R, b: R| #[trigger] call_requires(combine, (a, b)),
        ensures
            r is Ok <==> self.contains_id(initial_id),
            r matches Err(e) ==> e == Error::KeyWasNotFound,
            r matches Ok(out) ==> super::visit_order(
                *self,
                initial_id,
                super::dfs_order(*self, initial_id),
            ) && super::folds_over(
                *self,
                map,
                combine,
                super::dfs_order(*self, initial_id),
                super::dfs_order(*self, initial_id).len() as int,
                acc,
                out,
            ),
    {
        self.fold_traversal(initial_id, acc, map, combine, true)
    }

    /// Breadth-first walk folding `map` over every vertex reachable from
    /// `initial_id` (each visited once, FIFO frontier), combining per-vertex
    /// results with the associative `combine`.
    pub fn breadth_first_traversal<R, F: Fn(&Vertex<V, E>) -> R, C: Fn(R, R) -> R>(
        &self,
        initial_id: u64,
        acc: R,
        map: F,
        combine: C,
    ) -> (r: Result<R, Error>)
        requires
            self.wf(),
            forall|v: Vertex<V, E>| #[trigger] call_requires(map, (&v,)),
            forall|a: R, b: R| #[trigger] call_requires(combine, (a, b)),
        ensures
            r is Ok <==> self.contains_id(initial_id),
            r matches Err(e) ==> e == Error::KeyWasNotFound,
            r matches Ok(out) ==> super::visit_order(
                *self,
                initial_id,
                super::bfs_order(*self, initial_id),
            ) && super::folds_over(
                *self,
                map,
                combine,
                super::bfs_order(*self, initial_id),
                super::bfs_order(*self, initial_id).len() as int,
                acc,
                out,
            ),
    {
        self.fold_traversal(initial_id, acc, map, combine, false)
    }

    /// Depth-first walk with in-place payload annotation: `map` reads each
    /// visited vertex's payload and returns the replacement payload and the
    /// per-vertex result. Ids and adjacency never change.
    pub fn depth_first_traversal_mut<R, F: Fn(&V) -> (V, R), C: Fn(R, R) -> R>(
        &mut self,
        initial_id: u64,
        acc: R,
        map: F,
        combine: C,
    ) -> (r: Result<R, Error>)
        requires
            old(self).wf(),
            forall|v: V| #[trigger] call_requires(map, (&v,)),
            forall|a: R, b: R| #[trigger] call_requires(combine, (a, b)),
        ensures
            final(self).wf(),
            final(self).vertices_seq().len() == old(self).vertices_seq().len(),
            forall|i: int|
                0 <= i < old(self).vertices_seq().len() ==> {
                    let wv = #[trigger] final(self).vertices_seq()[i];
                    let ov = old(self).vertices_seq()[i];
                    wv.id == ov.id && wv.vicinity == ov.vicinity
                },
            forall|x: u64| #[trigger] final(self).contains_id(x) == old(self).contains_id(x),
            old(self).all_shapes(super::definitions::ShapeTag::Both) ==> final(self).all_shapes(super::definitions::ShapeTag::Both),
            r is Ok <==> old(self).contains_id(initial_id),
            r matches Err(e) ==> e == Error::KeyWasNotFound && *final(self) == *old(self),
            r matches Ok(out) ==> {
                let order = super::dfs_order(*old(self), initial_id);
                &&& super::visit_order(*old(self), initial_id, order)
                &&& super::mut_folds_over(
                    *old(self),
                    *final(self),
                    map,
                    combine,
                    order,
                    order.len() as int,
                    acc,
                    out,
                )
                &&& forall|x: u64|
                    old(self).contains_id(x) && !order.contains(x) ==> #[trigger] final(self).vertex_at(x).info == old(self).vertex_at(x).info
            },
    {
        let r = self.fold_traversal_mut(initial_id, acc, map, combine, true);
        proof {
            if old(self).all_shapes(super::definitions::ShapeTag::Both) {
                assert forall|i: int|
                    0 <= i < self.vertices_seq().len() implies (
                #[trigger] self.vertices_seq()[i]).vicinity.spec_tag()
                    == super::definitions::ShapeTag::Both by {
                    assert(self.vertices_seq()[i].vicinity == old(self).vertices_seq()[i].vicinity);
                }
            }
        }
        r
    }

    /// Breadth-first walk with in-place payload annotation, as the
    /// depth-first variant but with a FIFO frontier.
    pub fn breadth_first_traversal_mut<R, F: Fn(&V) -> (V, R), C: Fn(R, R) -> R>(
        &mut self,
        initial_id: u64,
        acc: R,
        map: F,
        combine: C,
    ) -> (r: Result<R, Error>)
        requires
            old(self).wf(),
            forall|v: V| #[trigger] call_requires(map, (&v,)),
            forall|a: R, b: R| #[trigger] call_requires(combine, (a, b)),
        ensures
            final(self).wf(),
            final(self).vertices_seq().len() == old(self).vertices_seq().len(),
            forall|i: int|
                0 <= i < old(self).vertices_seq().len() ==> {
                    let wv = #[trigger] final(self).vertices_seq()[i];
                    let ov = old(self).vertices_seq()[i];
                    wv.id == ov.id && wv.vicinity == ov.vicinity
                },
            forall|x: u64| #[trigger] final(self).contains_id(x) == old(self).contains_id(x),
            old(self).all_shapes(super::definitions::ShapeTag::Both) ==> final(self).all_shapes(super::definitions::ShapeTag::Both),
            r is Ok <==> old(self).contains_id(initial_id),
            r matches Err(e) ==> e == Error::KeyWasNotFound && *final(self) == *old(self),
            r matches Ok(out) ==> {
                let order = super::bfs_order(*old(self), initial_id);
                &&& super::visit_order(*old(self), initial_id, order)
                &&& super::mut_folds_over(
                    *old(self),
                    *final(self),
                    map,
                    combine,
                    order,
                    order.len() as int,
                    acc,
                    out,
                )
                &&& forall|x: u64|
                    old(self).contains_id(x) && !order.contains(x) ==> #[trigger] final(self).vertex_at(x).info == old(self).vertex_at(x).info
            },
    {
        let r = self.fold_traversal_mut(initial_id, acc, map, combine, false);
        proof {
            if old(self).all_shapes(super::definitions::ShapeTag::Both) {
                assert forall|i: int|
                    0 <= i < self.vertices_seq().len() implies (
                #[trigger] self.vertices_seq()[i]).vicinity.spec_tag()
                    == super::definitions::ShapeTag::Both by {
                    assert(self.vertices_seq()[i].vicinity == old(self).vertices_seq()[i].vicinity);
                }
            }
        }
        r
    }
}

impl<V, E: Copy> Graph<V, E, WithBoth> {
    /// Every path found by a breadth-first expansion from `id`: each visited
    /// vertex's outgoing edges become one-edge walks, combined across the
    /// walk with the cartesian path combination.
    pub fn all_paths_from(&self, id: u64) -> (r: Result<super::path::Paths<E>, Error>)
        requires
            self.wf(),
        ensures
            r is Ok <==> self.contains_id(id),
            r matches Err(e) ==> e == Error::KeyWasNotFound,
            r matches Ok(ps) ==> super::visit_order(*self, id, super::bfs_order(*self, id))
                && super::path::paths_view(ps) == super::spec_paths_fold(
                *self,
                super::bfs_order(*self, id),
                super::bfs_order(*self, id).len() as int,
            ),
    {
        self.all_paths_from_core(id)
    }

    /// The paths from `all_paths_from(start)` narrowed, via
    /// `subpath_between`, to walks leading from `start` to `end`; `None`
    /// when none qualifies or `start` is absent.
    pub fn all_paths_between(&self, start: u64, end: u64) -> (r: Option<
        Vec<super::path::Path<E>>,
    >)
        requires
            self.wf(),
        ensures
            ({
                let aps = super::spec_paths_fold(
                    *self,
                    super::bfs_order(*self, start),
                    super::bfs_order(*self, start).len() as int,
                );
                &&& (r is Some <==> (self.contains_id(start) && super::path::collect_subpaths(
                    aps,
                    aps.len() as int,
                    start,
                    end,
                ).len() > 0))
                &&& (r matches Some(v) ==> {
                    &&& v@.len() > 0
                    &&& v@.map_values(|p: super::path::Path<E>| p.0@)
                        == super::path::collect_subpaths(aps, aps.len() as int, start, end)
                    &&& forall|m: int|
                        0 <= m < v@.len() ==> {
                            let p = #[trigger] v@[m];
                            p.0@.len() > 0 && p.0@.first().start == start && p.0@.last().end
                                == end
                        }
                })
            }),
    {
        let aps = match self.all_paths_from(start) {
            Ok(ps) => ps,
            Err(_) => {
                return None;
            },
        };
        let ghost apsv = super::path::paths_view(aps);
        let mut out: Vec<super::path::Path<E>> = Vec::new();
        let mut i: usize = 0;
        while i < aps.0.len()
            invariant
                0 <= i <= aps.0@.len(),
                apsv == super::path::paths_view(aps),
                out@.map_values(|p: super::path::Path<E>| p.0@) == super::path::collect_subpaths(
                    apsv,
                    i as int,
                    start,
                    end,
                ),
                forall|m: int|
                    0 <= m < out@.len() ==> {
                        let p = #[trigger] out@[m];
                        p.0@.len() > 0 && p.0@.first().start == start && p.0@.last().end == end
                    },
            decreases aps.0@.len() - i,
        {
            proof {
                assert(aps.0@[i as int].0@ == apsv[i as int]);
            }
            let ghost out_pre = out@;
            match aps.0[i].subpath_between(start, end) {
                Ok(sp) => {
                    proof {
                        let es = aps.0@[i as int].0@;
                        assert(super::path::subpath_ok(es, start, end));
                        if !(es.first().start == start && es.last().end == end) {
                            let wi = super::path::first_start_idx(es, start);
                            let wj = super::path::first_end_idx(es, end);
                            assert(super::path::first_start_at(es, wi, start));
                            assert(super::path::first_end_at(es, wj, end));
                            assert(sp.0@.first() == es[wi] && sp.0@.last() == es[wj]);
                        }
                    }
                    out.push(sp);
                    proof {
                        assert(out@.map_values(|p: super::path::Path<E>| p.0@)
                            =~= super::path::collect_subpaths(apsv, i as int + 1, start, end));
                    }
                },
                Err(_) => {
                    proof {
                        assert(!super::path::subpath_ok(apsv[i as int], start, end));
                        assert(out@.map_values(|p: super::path::Path<E>| p.0@)
                            =~= super::path::collect_subpaths(apsv, i as int + 1, start, end));
                    }
                },
            }
            i += 1;
        }
        proof {
            super::path::lemma_collect_nonempty(apsv, apsv.len() as int, start, end);
        }
        if out.len() == 0 {
            None
        } else {
            Some(out)
        }
    }
}

} // verus!
