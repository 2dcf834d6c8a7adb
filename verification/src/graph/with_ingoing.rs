use vstd::prelude::*;

use super::definitions::{ShapeTag, Vertex, Vicinity, WithIngoing};
use super::Graph;
use crate::error::Error;

verus! {

impl<V, E> Graph<V, E, WithIngoing> {
    /// Adds a vertex to an ingoing-capability graph. Fails with
    /// `MismatchedVicinity` on any other adjacency shape, with
    /// `VertexAlreadyExists` on a duplicate id, and with `KeyWasNotFound`
    /// when the vicinity already carries an edge whose endpoints are not
    /// present.
    pub fn add_vertex(&mut self, id: u64, info: V, vicinity: Vicinity<E>) -> (r: Result<
        (),
        Error,
    >)
        requires
            old(self).wf(),
        ensures
            final(self).wf(),
            old(self).all_shapes(ShapeTag::Ingoing) && r is Ok ==> final(self).all_shapes(
                ShapeTag::Ingoing,
            ),
            match r {
                Err(e) => {
                    &&& *final(self) == *old(self)
                    &&& (e == Error::MismatchedVicinity || e == Error::VertexAlreadyExists || e
                        == Error::KeyWasNotFound)
                    &&& (e == Error::MismatchedVicinity <==> vicinity.spec_tag()
                        != ShapeTag::Ingoing)
                    &&& (e == Error::VertexAlreadyExists <==> vicinity.spec_tag()
                        == ShapeTag::Ingoing && old(self).contains_id(id))
                    &&& (e == Error::KeyWasNotFound <==> vicinity.spec_tag() == ShapeTag::Ingoing
                        && !old(self).contains_id(id) && !old(self).spec_vicinity_ok(id, vicinity))
                },
                Ok(u) => {
                    &&& vicinity.spec_tag() == ShapeTag::Ingoing
                    &&& !old(self).contains_id(id)
                    &&& final(self).vertices_seq() == old(self).vertices_seq().push(
                        Vertex { id, info, vicinity },
                    )
                    &&& final(self).contains_id(id)
                },
            },
    {
        if !(vicinity.tag() == ShapeTag::Ingoing) {
            return Err(Error::MismatchedVicinity);
        }
        let r = self.insert_vertex(id, info, vicinity);
        proof {
            if r is Ok {
                let nv = self.vertices_seq();
                assert(nv[nv.len() - 1].id == id);
                assert(self.contains_id(id));
                if old(self).all_shapes(ShapeTag::Ingoing) {
                    assert forall|i: int|
                        0 <= i < nv.len() implies (#[trigger] nv[i]).vicinity.spec_tag()
                        == ShapeTag::Ingoing by {
                        if i < nv.len() - 1 {
                            assert(nv[i] == old(self).vertices_seq()[i]);
                        }
                    }
                }
            }
        }
        r
    }
}

} // verus!
