use vstd::prelude::*;

use super::definitions::Edge;
use crate::error::Error;

verus! {

/// Trivial accumulator whose combination is itself: the unit of the
/// traversal engine's fold.
#[derive(Debug, Clone, Copy, PartialEq, Eq)]
pub struct Unit(pub ());

impl Unit {
    /// Combining units yields the unit.
    pub fn add(self, _other: Unit) -> (r: Unit)
        ensures
            r == Unit(()),
    {
        Unit(())
    }
}

/// An ordered, non-empty sequence of edges, read as a walk from the first
/// edge's start to the last edge's end. An empty value only ever arises as
/// the identity of concatenation.
#[derive(Debug)]
pub struct Path<E>(pub Vec<Edge<E>>);

/// An ordered collection of paths.
#[derive(Debug)]
pub struct Paths<E>(pub Vec<Path<E>>);

/// Concatenation of two walks: the empty walk is an identity on the left;
/// an empty or non-adjacent right operand leaves the left operand unchanged
/// (the silent-drop rule of path concatenation).
pub open spec fn spec_path_add<E>(a: Seq<Edge<E>>, b: Seq<Edge<E>>) -> Seq<Edge<E>> {
    if a.len() == 0 {
        b
    } else if b.len() == 0 {
        a
    } else if a.last().end == b.first().start {
        a + b
    } else {
        a
    }
}

/// The view of a collection of paths: each path as its edge run.
pub open spec fn paths_view<E>(ps: Paths<E>) -> Seq<Seq<Edge<E>>> {
    ps.0@.map_values(|p: Path<E>| p.0@)
}

/// There is an edge at `i` whose start is the given id, and none earlier.
pub open spec fn first_start_at<E>(es: Seq<Edge<E>>, i: int, id: u64) -> bool {
    &&& 0 <= i < es.len()
    &&& es[i].start == id
    &&& forall|m: int| 0 <= m < i ==> (#[trigger] es[m]).start != id
}

/// There is an edge at `j` whose end is the given id, and none earlier.
pub open spec fn first_end_at<E>(es: Seq<Edge<E>>, j: int, id: u64) -> bool {
    &&& 0 <= j < es.len()
    &&& es[j].end == id
    &&& forall|m: int| 0 <= m < j ==> (#[trigger] es[m]).end != id
}

/// The position of the first edge starting at `id` (meaningful when one
/// exists; `first_start_at` pins it uniquely).
pub open spec fn first_start_idx<E>(es: Seq<Edge<E>>, id: u64) -> int {
    choose|i: int| first_start_at(es, i, id)
}

/// The position of the first edge ending at `id`.
pub open spec fn first_end_idx<E>(es: Seq<Edge<E>>, id: u64) -> int {
    choose|j: int| first_end_at(es, j, id)
}

/// Exactly when `subpath_between` succeeds: a non-empty walk whose own
/// endpoints already match, or one where the first edge starting at `start`
/// does not lie after the first edge ending at `end`.
pub open spec fn subpath_ok<E>(es: Seq<Edge<E>>, start: u64, end: u64) -> bool {
    &&& es.len() > 0
    &&& (es.first().start == start && es.last().end == end || ((exists|i: int|
        first_start_at(es, i, start)) && (exists|j: int| first_end_at(es, j, end))
        && first_start_idx(es, start) <= first_end_idx(es, end)))
}

/// The sub-walk that `subpath_between` returns on success: the whole walk
/// when its own endpoints match, else the inclusive range from the first
/// edge starting at `start` to the first edge ending at `end`.
pub open spec fn spec_subpath<E>(es: Seq<Edge<E>>, start: u64, end: u64) -> Seq<Edge<E>> {
    if es.first().start == start && es.last().end == end {
        es
    } else {
        es.subrange(first_start_idx(es, start), first_end_idx(es, end) + 1)
    }
}

/// Only one position can hold the first matching edge.
pub proof fn lemma_first_match_unique<E>(es: Seq<Edge<E>>, a: int, b: int, id: u64)
    requires
        first_start_at(es, a, id) || first_end_at(es, a, id),
        first_start_at(es, a, id) ==> first_start_at(es, b, id),
        first_end_at(es, a, id) ==> first_end_at(es, b, id),
    ensures
        a == b,
{
    if a < b {
        assert(es[a].start != id || es[a].end != id || a == b);
    }
    if b < a {
        assert(es[b].start != id || es[b].end != id || a == b);
    }
}

/// The sub-walks that narrowing a collection of paths to the endpoints
/// `start` and `end` yields: for each of the first `i` paths on which
/// `subpath_between` succeeds, its result, in order.
pub open spec fn collect_subpaths<E>(
    aps: Seq<Seq<Edge<E>>>,
    i: int,
    start: u64,
    end: u64,
) -> Seq<Seq<Edge<E>>>
    decreases i,
{
    if i <= 0 {
        Seq::<Seq<Edge<E>>>::empty()
    } else {
        let prev = collect_subpaths(aps, i - 1, start, end);
        if subpath_ok(aps[i - 1], start, end) {
            prev.push(spec_subpath(aps[i - 1], start, end))
        } else {
            prev
        }
    }
}

/// The narrowed collection is non-empty exactly when some path qualifies.
pub proof fn lemma_collect_nonempty<E>(aps: Seq<Seq<Edge<E>>>, i: int, start: u64, end: u64)
    requires
        0 <= i <= aps.len(),
    ensures
        collect_subpaths(aps, i, start, end).len() > 0 <==> exists|m: int|
            0 <= m < i && #[trigger] subpath_ok(aps[m], start, end),
    decreases i,
{
    if i > 0 {
        lemma_collect_nonempty(aps, i - 1, start, end);
        if subpath_ok(aps[i - 1], start, end) {
        } else {
            if exists|m: int| 0 <= m < i && #[trigger] subpath_ok(aps[m], start, end) {
                let m = choose|m: int| 0 <= m < i && #[trigger] subpath_ok(aps[m], start, end);
                assert(m < i - 1);
            }
        }
    }
}

impl<E> Path<E> {
    /// The id the walk starts from: the first edge's start.
    pub fn start_with(&self) -> (r: u64)
        requires
            self.0@.len() > 0,
        ensures
            r == self.0@.first().start,
    {
        self.0[0].get_start_id()
    }

    /// The id the walk ends at: the last edge's end.
    pub fn ends_with(&self) -> (r: u64)
        requires
            self.0@.len() > 0,
        ensures
            r == self.0@.last().end,
    {
        self.0[self.0.len() - 1].get_end_id()
    }

    /// Whether the walk touches the id, as a start or an end of any edge.
    #[verifier::loop_isolation(false)]
    pub fn contains(&self, id: u64) -> (r: bool)
        ensures
            r == exists|k: int|
                0 <= k < self.0@.len() && ((#[trigger] self.0@[k]).start == id || self.0@[k].end
                    == id),
    {
        let mut k: usize = 0;
        while k < self.0.len()
            invariant
                0 <= k <= self.0@.len(),
                forall|m: int|
                    0 <= m < k ==> ((#[trigger] self.0@[m]).start != id && self.0@[m].end != id),
            decreases self.0@.len() - k,
        {
            if self.0[k].start == id || self.0[k].end == id {
                return true;
            }
            k += 1;
        }
        false
    }

    /// Concatenates two walks. An empty left operand yields the right one;
    /// an empty or non-adjacent right operand yields the left one unchanged,
    /// silently dropping the right operand.
    pub fn add(self, rhs: Path<E>) -> (r: Path<E>)
        ensures
            r.0@ == spec_path_add(self.0@, rhs.0@),
    {
        if self.0.len() == 0 {
            return rhs;
        }
        if rhs.0.len() == 0 {
            return self;
        }
        let self_end = self.0[self.0.len() - 1].get_end_id();
        let other_start = rhs.0[0].get_start_id();
        if self_end == other_start {
            let mut a = self.0;
            let mut b = rhs.0;
            a.append(&mut b);
            Path(a)
        } else {
            self
        }
    }
}

impl<E: Copy> Path<E> {
    /// A copy of the walk, edge by edge.
    #[verifier::loop_isolation(false)]
    pub fn duplicate(&self) -> (r: Path<E>)
        ensures
            r.0@ == self.0@,
    {
        let mut out: Vec<Edge<E>> = Vec::new();
        let mut k: usize = 0;
        while k < self.0.len()
            invariant
                0 <= k <= self.0@.len(),
                out@ == self.0@.subrange(0, k as int),
            decreases self.0@.len() - k,
        {
            let e = &self.0[k];
            out.push(Edge { info: e.info, start: e.start, end: e.end });
            proof {
                assert(out@ =~= self.0@.subrange(0, k as int + 1));
            }
            k += 1;
        }
        proof {
            assert(self.0@.subrange(0, self.0@.len() as int) =~= self.0@);
        }
        Path(out)
    }

    /// The inclusive sub-walk from the first edge starting at `start` to the
    /// first edge ending at `end`. A walk whose own endpoints already match
    /// is returned whole, without scanning the interior. Fails with
    /// `KeyWasNotFound` when the walk is empty or either edge is missing,
    /// and with `OutOfBounds` when the two positions cross.
    #[verifier::loop_isolation(false)]
    pub fn subpath_between(&self, start: u64, end: u64) -> (r: Result<Path<E>, Error>)
        ensures
            r is Ok <==> subpath_ok(self.0@, start, end),
            match r {
                Ok(p) => p.0@ == spec_subpath(self.0@, start, end),
                Err(e) => {
                    &&& (e == Error::KeyWasNotFound || e == Error::OutOfBounds)
                    &&& (e == Error::KeyWasNotFound <==> (self.0@.len() == 0 || !(
                    self.0@.first().start == start && self.0@.last().end == end) && (!(exists|i: int|
                        first_start_at(self.0@, i, start)) || !(exists|j: int|
                        first_end_at(self.0@, j, end)))))
                    &&& (e == Error::OutOfBounds <==> (self.0@.len() > 0 && !(
                    self.0@.first().start == start && self.0@.last().end == end) && (exists|i: int|
                        first_start_at(self.0@, i, start)) && (exists|j: int|
                        first_end_at(self.0@, j, end)) && first_start_idx(self.0@, start)
                        > first_end_idx(self.0@, end)))
                },
            },
    {
        if self.0.len() == 0 {
            return Err(Error::KeyWasNotFound);
        }
        let abs_start = self.start_with();
        let abs_end = self.ends_with();
        if abs_start == start && abs_end == end {
            return Ok(self.duplicate());
        }
        let mut found_start = false;
        let mut found_end = false;
        let mut index_start: usize = 0;
        let mut index_end: usize = 0;
        let mut k: usize = 0;
        while k < self.0.len()
            invariant
                0 <= k <= self.0@.len(),
                found_start <==> exists|i: int|
                    0 <= i < k && (#[trigger] self.0@[i]).start == start,
                found_start ==> first_start_at(self.0@, index_start as int, start) && index_start
                    < k,
                found_end <==> exists|j: int| 0 <= j < k && (#[trigger] self.0@[j]).end == end,
                found_end ==> first_end_at(self.0@, index_end as int, end) && index_end < k,
            decreases self.0@.len() - k,
        {
            if !found_start && self.0[k].start == start {
                found_start = true;
                index_start = k;
            }
            if !found_end && self.0[k].end == end {
                found_end = true;
                index_end = k;
            }
            k += 1;
        }
        if found_start && found_end {
            proof {
                lemma_first_match_unique(
                    self.0@,
                    index_start as int,
                    first_start_idx(self.0@, start),
                    start,
                );
                lemma_first_match_unique(
                    self.0@,
                    index_end as int,
                    first_end_idx(self.0@, end),
                    end,
                );
            }
            if index_start > index_end {
                return Err(Error::OutOfBounds);
            }
            let mut out: Vec<Edge<E>> = Vec::new();
            let mut m: usize = index_start;
            while m <= index_end
                invariant
                    index_start <= m <= index_end + 1,
                    index_end < self.0@.len(),
                    out@ == self.0@.subrange(index_start as int, m as int),
                decreases index_end + 1 - m,
            {
                let e = &self.0[m];
                out.push(Edge { info: e.info, start: e.start, end: e.end });
                proof {
                    assert(out@ =~= self.0@.subrange(index_start as int, m as int + 1));
                }
                m += 1;
            }
            proof {
                assert(out@ == self.0@.subrange(index_start as int, index_end as int + 1));
            }
            Ok(Path(out))
        } else {
            proof {
                if exists|i: int| first_start_at(self.0@, i, start) {
                    let i = choose|i: int| first_start_at(self.0@, i, start);
                    assert(self.0@[i].start == start);
                    assert(found_start);
                }
                if exists|j: int| first_end_at(self.0@, j, end) {
                    let j = choose|j: int| first_end_at(self.0@, j, end);
                    assert(self.0@[j].end == end);
                    assert(found_end);
                }
            }
            Err(Error::KeyWasNotFound)
        }
    }
}

/// Flattened cartesian combination: every path of `a` concatenated with
/// every path of `b`, in row-major order.
pub open spec fn spec_paths_add<E>(a: Seq<Seq<Edge<E>>>, b: Seq<Seq<Edge<E>>>) -> Seq<
    Seq<Edge<E>>,
> {
    if a.len() == 0 {
        b
    } else if b.len() == 0 {
        a
    } else {
        Seq::new(a.len() * b.len(), |m: int| spec_path_add(a[m / b.len() as int], b[m % b.len() as int]))
    }
}

impl<E: Copy> Paths<E> {
    /// A copy of the collection, path by path.
    #[verifier::loop_isolation(false)]
    pub fn duplicate(&self) -> (r: Paths<E>)
        ensures
            paths_view(r) == paths_view(*self),
    {
        let mut out: Vec<Path<E>> = Vec::new();
        let mut k: usize = 0;
        while k < self.0.len()
            invariant
                0 <= k <= self.0@.len(),
                out@.len() == k,
                forall|m: int| 0 <= m < k ==> (#[trigger] out@[m]).0@ == self.0@[m].0@,
            decreases self.0@.len() - k,
        {
            let p = self.0[k].duplicate();
            out.push(p);
            k += 1;
        }
        proof {
            assert(paths_view(Paths(out)) =~= paths_view(*self));
        }
        Paths(out)
    }

    /// Cartesian combination of two collections of paths: every left path
    /// concatenated with every right path, empty operands acting as the
    /// identity.
    #[verifier::loop_isolation(false)]
    pub fn add(self, rhs: Paths<E>) -> (r: Paths<E>)
        ensures
            paths_view(r) == spec_paths_add(paths_view(self), paths_view(rhs)),
    {
        if self.0.len() == 0 {
            return rhs;
        }
        if rhs.0.len() == 0 {
            return self;
        }
        let ghost gl = paths_view(self);
        let ghost gr = paths_view(rhs);
        let mut out: Vec<Path<E>> = Vec::new();
        let rlen = rhs.0.len();
        let mut i: usize = 0;
        while i < self.0.len()
            invariant
                0 <= i <= self.0@.len(),
                rlen == rhs.0@.len(),
                rlen > 0,
                gl == paths_view(self),
                gr == paths_view(rhs),
                out@.len() == i * rlen,
                forall|m: int|
                    0 <= m < i * rlen ==> (#[trigger] out@[m]).0@ == spec_path_add(
                        gl[m / rlen as int],
                        gr[m % rlen as int],
                    ),
            decreases self.0@.len() - i,
        {
            let mut j: usize = 0;
            while j < rhs.0.len()
                invariant
                    0 <= j <= rhs.0@.len(),
                    0 <= i < self.0@.len(),
                    rlen == rhs.0@.len(),
                    rlen > 0,
                    gl == paths_view(self),
                    gr == paths_view(rhs),
                    out@.len() == i * rlen + j,
                    forall|m: int|
                        0 <= m < i * rlen + j ==> (#[trigger] out@[m]).0@ == spec_path_add(
                            gl[m / rlen as int],
                            gr[m % rlen as int],
                        ),
                decreases rhs.0@.len() - j,
            {
                let lp = self.0[i].duplicate();
                let rp = rhs.0[j].duplicate();
                let joined = lp.add(rp);
                out.push(joined);
                proof {
                    let m: int = i as int * rlen as int + j as int;
                    assert(m / rlen as int == i as int && m % rlen as int == j as int) by (
                    nonlinear_arith)
                        requires
                            rlen > 0,
                            0 <= j < rlen,
                            m == i as int * rlen as int + j as int,
                    ;
                    assert(out@[m].0@ == spec_path_add(gl[i as int], gr[j as int]));
                }
                j += 1;
            }
            i += 1;
            proof {
                assert(i as int * rlen as int == (i - 1) as int * rlen as int + rlen as int) by (
                nonlinear_arith)
                    requires
                        i >= 1,
                ;
            }
        }
        proof {
            assert(paths_view(Paths(out)) =~= spec_paths_add(gl, gr));
        }
        Paths(out)
    }
}

} // verus!
