//! Closed polylines in a parameter plane, and the counting half of the
//! test whether a point lies inside them.
use vstd::prelude::*;
use crate::shell::{concat, next_in};

verus! {

/// How one segment of a polyline lies to the ray that goes up from a point.
#[derive(Clone, Copy, Debug, PartialEq, Eq, Structural)]
pub enum Crossing {
    /// The point lies on the segment, as far as can be told.
    OnBoundary,
    /// The segment crosses the ray from right to left.
    Up,
    /// The segment crosses the ray from left to right.
    Down,
    /// The segment does not cross the ray.
    Miss,
}

/// How many of the first `n` crossings are `kind`.
pub open spec fn tally(cs: Seq<Crossing>, kind: Crossing, n: nat) -> nat
    decreases n,
{
    if n == 0 {
        0
    } else {
        tally(cs, kind, (n - 1) as nat) + if cs[n - 1] == kind {
            1nat
        } else {
            0nat
        }
    }
}

/// The point is inside: it lies on no segment, and more segments cross its
/// ray upwards than downwards.
pub open spec fn inside(cs: Seq<Crossing>) -> bool {
    tally(cs, Crossing::OnBoundary, cs.len()) == 0 && tally(cs, Crossing::Up, cs.len()) > tally(
        cs,
        Crossing::Down,
        cs.len(),
    )
}

/// A tally does not exceed the number of crossings looked at.
pub proof fn lemma_tally_bound(cs: Seq<Crossing>, kind: Crossing, n: nat)
    ensures
        tally(cs, kind, n) <= n,
    decreases n,
{
    if n > 0 {
        lemma_tally_bound(cs, kind, (n - 1) as nat);
    }
}

/// A tally does not shrink when more crossings are looked at.
pub proof fn lemma_tally_mono(cs: Seq<Crossing>, kind: Crossing, m: nat, n: nat)
    requires
        m <= n,
    ensures
        tally(cs, kind, m) <= tally(cs, kind, n),
    decreases n,
{
    if m < n {
        lemma_tally_mono(cs, kind, m, (n - 1) as nat);
    }
}

/// Whether a point with the given crossings is inside.
pub fn winding(crossings: &Vec<Crossing>) -> (b: bool)
    ensures
        b == inside(crossings@),
{
    let n = crossings.len();
    let mut ups: usize = 0;
    let mut downs: usize = 0;
    let mut k: usize = 0;
    while k < n
        invariant
            n == crossings@.len(),
            k <= n,
            tally(crossings@, Crossing::OnBoundary, k as nat) == 0,
            ups == tally(crossings@, Crossing::Up, k as nat),
            downs == tally(crossings@, Crossing::Down, k as nat),
        decreases n - k,
    {
        proof {
            lemma_tally_bound(crossings@, Crossing::Up, (k + 1) as nat);
            lemma_tally_bound(crossings@, Crossing::Down, (k + 1) as nat);
        }
        match crossings[k] {
            Crossing::OnBoundary => {
                proof {
                    lemma_tally_mono(crossings@, Crossing::OnBoundary, (k + 1) as nat, n as nat);
                }
                return false;
            },
            Crossing::Up => {
                ups += 1;
            },
            Crossing::Down => {
                downs += 1;
            },
            Crossing::Miss => {},
        }
        k += 1;
    }
    ups > downs
}

/// The segments of a closed polyline of `n` points that starts at
/// position `base`: from each point to the next, and from the last to the
/// first.
pub open spec fn ring(base: int, n: int) -> Seq<(usize, usize)> {
    Seq::new(n as nat, |i: int| ((base + i) as usize, (base + next_in(i, n)) as usize))
}

/// The points of an edge that a wire takes into its polyline: all but the
/// last, which is the first of the next edge.
pub open spec fn without_last<A>(s: Seq<A>) -> Seq<A> {
    if s.len() == 0 {
        s
    } else {
        s.drop_last()
    }
}

/// `v` is what `search` finds for `p` with the hint `h`: what it gives
/// with the hint, or, where it gives nothing with the hint, what it gives
/// without.
pub open spec fn found<A, V, G: Fn(&A, Option<&V>) -> Option<V>>(
    search: G,
    p: A,
    h: Option<&V>,
    v: V,
) -> bool {
    search.ensures((&p, h), Some(v)) || (search.ensures((&p, h), None::<V>) && search.ensures(
        (&p, None::<&V>),
        Some(v),
    ))
}

/// `search` can find nothing for `p` with the hint `h`, and nothing
/// without a hint.
pub open spec fn lost<A, V, G: Fn(&A, Option<&V>) -> Option<V>>(
    search: G,
    p: A,
    h: Option<&V>,
) -> bool {
    search.ensures((&p, h), None::<V>) && search.ensures((&p, None::<&V>), None::<V>)
}

/// `q` is what `search` finds along the edge `e`: for each point but the
/// last what it finds with the point before as the hint, and for the first
/// without a hint.
pub open spec fn traced_edge<A, V, G: Fn(&A, Option<&V>) -> Option<V>>(
    search: G,
    e: Seq<A>,
    q: Seq<V>,
) -> bool {
    &&& q.len() == without_last(e).len()
    &&& forall|i: int|
        0 <= i < q.len() ==> found(
            search,
            e[i],
            if i == 0 {
                None
            } else {
                Some(&q[i - 1])
            },
            #[trigger] q[i],
        )
}

/// The search is stuck on edge `e`: `q` is what was found along the edges
/// before it, `here` what was found for the first points of it, each with
/// the point found before as the hint, and for the next point, which is not
/// the last of the edge, nothing can be found, with the point found before
/// as the hint or without a hint.
pub open spec fn stuck_at<A, V, G: Fn(&A, Option<&V>) -> Option<V>>(
    search: G,
    edges: Seq<Seq<A>>,
    q: Seq<Seq<V>>,
    e: int,
    here: Seq<V>,
) -> bool {
    &&& 0 <= e < edges.len()
    &&& q.len() == e
    &&& forall|k: int| 0 <= k < e ==> traced_edge(search, #[trigger] edges[k], q[k])
    &&& here.len() < edges[e].len() - 1
    &&& forall|i: int|
        0 <= i < here.len() ==> found(
            search,
            edges[e][i],
            if i == 0 {
                None
            } else {
                Some(&here[i - 1])
            },
            #[trigger] here[i],
        )
    &&& lost(
        search,
        edges[e][here.len() as int],
        if here.len() == 0 {
            None
        } else {
            Some(&here[here.len() - 1])
        },
    )
}

/// Edge by edge, `q` is what `search` finds along the edges.
pub open spec fn traced<A, V, G: Fn(&A, Option<&V>) -> Option<V>>(
    search: G,
    edges: Seq<Seq<A>>,
    q: Seq<Seq<V>>,
) -> bool {
    &&& q.len() == edges.len()
    &&& forall|e: int| 0 <= e < edges.len() ==> traced_edge(search, #[trigger] edges[e], q[e])
}

/// The views of the vectors of a vector.
pub open spec fn deep<A>(vs: Seq<Vec<A>>) -> Seq<Seq<A>> {
    Seq::new(vs.len(), |i: int| vs[i]@)
}

/// Closed polylines in a plane: points, and segments between them given by
/// the positions of their ends among the points.
pub struct Polyline<V> {
    positions: Vec<V>,
    indices: Vec<(usize, usize)>,
}

/// The polyline has the points `points` and the segments `segments`.
pub struct PolylineModel<V> {
    pub points: Seq<V>,
    pub segments: Seq<(usize, usize)>,
}

impl<V> View for Polyline<V> {
    type V = PolylineModel<V>;

    closed spec fn view(&self) -> PolylineModel<V> {
        PolylineModel { points: self.positions@, segments: self.indices@ }
    }
}

/// `cs` are the crossings that `classify` gives for the first segments of
/// the polyline, segment by segment.
pub open spec fn classified<V, G: Fn(&V, &V) -> Crossing>(
    classify: G,
    line: PolylineModel<V>,
    cs: Seq<Crossing>,
) -> bool {
    &&& cs.len() <= line.segments.len()
    &&& forall|k: int|
        0 <= k < cs.len() ==> classify.ensures(
            (&line.points[line.segments[k].0 as int], &line.points[line.segments[k].1 as int]),
            #[trigger] cs[k],
        )
}

impl<V> Polyline<V> {
    /// What every polyline satisfies: the ends of its segments are among
    /// its points.
    #[verifier::type_invariant]
    pub open spec fn wf(self) -> bool {
        forall|k: int|
            0 <= k < self@.segments.len() ==> (#[trigger] self@.segments[k]).0
                < self@.points.len() && self@.segments[k].1 < self@.points.len()
    }

    /// The polyline without points.
    pub fn new() -> (line: Polyline<V>)
        ensures
            line@.points.len() == 0,
            line@.segments.len() == 0,
    {
        Polyline { positions: Vec::new(), indices: Vec::new() }
    }

    /// The points.
    pub fn positions(&self) -> (ps: &Vec<V>)
        ensures
            ps@ == self@.points,
    {
        &self.positions
    }

    /// The segments. The ends of each are among the points.
    pub fn indices(&self) -> (is: &Vec<(usize, usize)>)
        ensures
            is@ == self@.segments,
            forall|k: int|
                0 <= k < is@.len() ==> (#[trigger] is@[k]).0 < self@.points.len() && is@[k].1
                    < self@.points.len(),
    {
        proof {
            use_type_invariant(self);
            assert forall|k: int| 0 <= k < self.indices@.len() implies (
            #[trigger] self.indices@[k]).0 < self@.points.len() && self.indices@[k].1
                < self@.points.len() by {
                assert(self@.segments[k] == self.indices@[k]);
            }
        }
        &self.indices
    }

    /// Adds the closed polyline through `points`.
    pub fn add_loop(&mut self, points: Vec<V>)
        ensures
            final(self)@.points == old(self)@.points + points@,
            final(self)@.segments == old(self)@.segments + ring(
                old(self)@.points.len() as int,
                points@.len() as int,
            ),
    {
        proof {
            use_type_invariant(&*self);
        }
        let mut taken = Polyline::new();
        std::mem::swap(self, &mut taken);
        let mut positions = taken.positions;
        let mut indices = taken.indices;
        let ghost old_points = positions@;
        let ghost old_segments = indices@;
        let base = positions.len();
        let n = points.len();
        let mut points = points;
        let ghost added = points@;
        positions.append(&mut points);
        let total = positions.len();
        assert(total == base + n);
        let mut i: usize = 0;
        while i < n
            invariant
                i <= n,
                base + n == positions@.len(),
                positions@.len() <= usize::MAX,
                indices@ == old_segments + ring(base as int, n as int).subrange(0, i as int),
            decreases n - i,
        {
            let next = if i + 1 < n {
                i + 1
            } else {
                0
            };
            indices.push((base + i, base + next));
            assert(indices@ =~= old_segments + ring(base as int, n as int).subrange(0, i + 1));
            i += 1;
        }
        proof {
            assert(ring(base as int, n as int).subrange(0, n as int) =~= ring(
                base as int,
                n as int,
            ));
            assert forall|k: int| 0 <= k < indices@.len() implies (#[trigger] indices@[k]).0
                < positions@.len() && indices@[k].1 < positions@.len() by {
                if k >= old_segments.len() {
                    let j = k - old_segments.len();
                    assert(indices@[k] == ring(base as int, n as int)[j]);
                } else {
                    assert(indices@[k] == old(self)@.segments[k]);
                }
            }
        }
        *self = Polyline { positions, indices };
    }

    /// Adds the closed polyline of a wire: `edges` holds, edge by edge,
    /// the points along the wire, and what `search` finds for each point
    /// but the last of each edge, with the point found before on the same
    /// edge as the hint, becomes a point of the polyline. Where `search`
    /// finds nothing for a point, with the hint or without, the polyline is
    /// left as it is and `false` is returned.
    pub fn add_wire<A, G: Fn(&A, Option<&V>) -> Option<V>>(
        &mut self,
        edges: &Vec<Vec<A>>,
        search: &G,
    ) -> (done: bool)
        requires
            forall|p: A, h: Option<&V>| search.requires((&p, h)),
        ensures
            done ==> exists|q: Seq<Seq<V>>| #[trigger]
                traced(*search, deep(edges@), q) && final(self)@.points == old(self)@.points
                    + concat(q, q.len()) && final(self)@.segments == old(self)@.segments + ring(
                    old(self)@.points.len() as int,
                    concat(q, q.len()).len() as int,
                ),
            !done ==> final(self)@ == old(self)@ && exists|q: Seq<Seq<V>>, e: int, here: Seq<V>|
                #[trigger] stuck_at(*search, deep(edges@), q, e, here),
    {
        let ghost es = deep(edges@);
        let ghost mut q: Seq<Seq<V>> = Seq::empty();
        let mut buffer: Vec<V> = Vec::new();
        let mut e: usize = 0;
        while e < edges.len()
            invariant
                e <= edges@.len(),
                es == deep(edges@),
                *self == *old(self),
                forall|p: A, h: Option<&V>| search.requires((&p, h)),
                q.len() == e,
                forall|k: int| 0 <= k < e ==> traced_edge(*search, #[trigger] es[k], q[k]),
                buffer@ == concat(q, e as nat),
            decreases edges@.len() - e,
        {
            let edge = &edges[e];
            let ghost start = buffer@;
            let ghost mut here: Seq<V> = Seq::empty();
            assert(es[e as int] == edge@);
            let mut i: usize = 0;
            while edge.len() > 0 && i < edge.len() - 1
                invariant
                    i <= edge@.len(),
                    edge@.len() > 0 ==> i < edge@.len(),
                    *self == *old(self),
                    forall|p: A, h: Option<&V>| search.requires((&p, h)),
                    here.len() == i,
                    buffer@ == start + here,
                    forall|k: int|
                        0 <= k < i ==> found(
                            *search,
                            edge@[k],
                            if k == 0 {
                                None
                            } else {
                                Some(&here[k - 1])
                            },
                            #[trigger] here[k],
                        ),
                    e < edges@.len(),
                    edge@ == edges@[e as int]@,
                    es == deep(edges@),
                    q.len() == e,
                    forall|k: int| 0 <= k < e ==> traced_edge(*search, #[trigger] es[k], q[k]),
                decreases edge@.len() - i,
            {
                let first = if i == 0 {
                    search(&edge[i], None)
                } else {
                    search(&edge[i], Some(&buffer[buffer.len() - 1]))
                };
                let ghost hint: Option<&V> = if i == 0 {
                    None
                } else {
                    Some(&here[i - 1])
                };
                let got = match first {
                    Some(v) => Some(v),
                    None => search(&edge[i], None),
                };
                match got {
                    Some(v) => {
                        proof {
                            let before = here;
                            here = here.push(v);
                            assert forall|k: int| 0 <= k < i + 1 implies found(
                                *search,
                                edge@[k],
                                if k == 0 {
                                    None
                                } else {
                                    Some(&here[k - 1])
                                },
                                #[trigger] here[k],
                            ) by {
                                if k < i {
                                    assert(here[k] == before[k]);
                                    if k > 0 {
                                        assert(here[k - 1] == before[k - 1]);
                                    }
                                }
                            }
                        }
                        buffer.push(v);
                        assert(buffer@ =~= start + here);
                    },
                    None => {
                        proof {
                            assert(lost(*search, edges@[e as int]@[i as int], hint));
                            assert(es[e as int] == edges@[e as int]@);
                            assert(stuck_at(*search, es, q, e as int, here));
                        }
                        return false;
                    },
                }
                i += 1;
            }
            proof {
                let before = q;
                q = q.push(here);
                assert forall|k: int| 0 <= k < e + 1 implies traced_edge(
                    *search,
                    #[trigger] es[k],
                    q[k],
                ) by {
                    if k < e {
                        assert(q[k] == before[k]);
                    }
                }
                crate::sweep::lemma_concat_push(before, here);
            }
            e += 1;
        }
        proof {
            assert(traced(*search, es, q));
        }
        self.add_loop(buffer);
        true
    }

    /// Whether the point for which `classify` tells how a segment lies to
    /// its ray is inside the polyline: whether it lies on no segment and
    /// more segments cross its ray upwards than downwards. The segments are
    /// asked in order, and none after one on which the point lies.
    pub fn encloses<G: Fn(&V, &V) -> Crossing>(&self, classify: &G) -> (b: bool)
        requires
            forall|a: V, b: V| classify.requires((&a, &b)),
        ensures
            exists|cs: Seq<Crossing>| #[trigger]
                classified(*classify, self@, cs) && b == inside(cs) && (cs.len()
                    == self@.segments.len() || (cs.len() > 0 && cs[cs.len() - 1]
                    == Crossing::OnBoundary)),
    {
        proof {
            use_type_invariant(self);
        }
        let n = self.indices.len();
        let mut crossings: Vec<Crossing> = Vec::new();
        let mut k: usize = 0;
        while k < n
            invariant
                n == self@.segments.len(),
                k <= n,
                self.wf(),
                forall|a: V, b: V| classify.requires((&a, &b)),
                crossings@.len() == k,
                classified(*classify, self@, crossings@),
            decreases n - k,
        {
            let seg = self.indices[k];
            assert(self@.segments[k as int] == seg);
            let c = classify(&self.positions[seg.0], &self.positions[seg.1]);
            let ghost before = crossings@;
            crossings.push(c);
            proof {
                assert forall|j: int| 0 <= j < crossings@.len() implies classify.ensures(
                    (
                        &self@.points[self@.segments[j].0 as int],
                        &self@.points[self@.segments[j].1 as int],
                    ),
                    #[trigger] crossings@[j],
                ) by {
                    if j < k {
                        assert(crossings@[j] == before[j]);
                    }
                }
            }
            match c {
                Crossing::OnBoundary => {
                    proof {
                        let cs = crossings@;
                        assert(tally(cs, Crossing::OnBoundary, cs.len()) > 0);
                        assert(classified(*classify, self@, cs));
                        assert(cs[cs.len() - 1] == Crossing::OnBoundary);
                        assert(!inside(cs));
                    }
                    return false;
                },
                _ => {},
            }
            k += 1;
        }
        winding(&crossings)
    }

    /// The segments, with each end replaced by what `names` holds at its
    /// position.
    pub fn constraints(&self, names: &Vec<usize>) -> (cs: Vec<(usize, usize)>)
        requires
            names@.len() == self@.points.len(),
        ensures
            cs@.len() == self@.segments.len(),
            forall|k: int|
                0 <= k < cs@.len() ==> #[trigger] cs@[k] == (
                    names@[self@.segments[k].0 as int],
                    names@[self@.segments[k].1 as int],
                ),
    {
        proof {
            use_type_invariant(self);
        }
        let mut cs: Vec<(usize, usize)> = Vec::new();
        let mut k: usize = 0;
        while k < self.indices.len()
            invariant
                k <= self.indices@.len(),
                self.wf(),
                names@.len() == self@.points.len(),
                cs@.len() == k,
                forall|j: int|
                    0 <= j < k ==> #[trigger] cs@[j] == (
                        names@[self@.segments[j].0 as int],
                        names@[self@.segments[j].1 as int],
                    ),
            decreases self.indices@.len() - k,
        {
            let seg = self.indices[k];
            assert(self@.segments[k as int] == seg);
            cs.push((names[seg.0], names[seg.1]));
            k += 1;
        }
        cs
    }
}

} // verus!
