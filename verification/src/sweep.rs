//! Sweeps: lifting a vertex to an edge, an edge to a face, a wire to a
//! shell, by joining it to a copy of itself.
use std::collections::HashMap;
use vstd::prelude::*;
use crate::edge::{Edge, EdgeModel};
use crate::errors::Error;
use crate::face::{all_loops, Face, FaceModel};
use crate::ident::IdSource;
use crate::mapping::{
    coherent, edge_fits, is_wire_copy, tables_ok, wire_fits, wire_scope, Tables,
};
use crate::shell::{concat, face_views, Shell};
use crate::solid::{first_fault, shell_views, Solid};
use crate::vertex::{Vertex, VertexModel};
use crate::wire::{is_chain, is_closed, is_simple, Wire};

verus! {

broadcast use vstd::std_specs::hash::group_hash_axioms;

/// `s` runs along its curve, and the curve is what `prel` accepts between
/// the points of its ends.
pub open spec fn is_link<P, C>(s: EdgeModel<P, C>, prel: spec_fn(P, P, C) -> bool) -> bool {
    s.forward && prel(s.start.point, s.end.point, s.curve)
}

/// The boundary of the face between `e0` and `e1`: along `e0`, up the side
/// `s1` at its end, back along `e1`, down the side `s0` at its start.
pub open spec fn quad<P, C>(
    e0: EdgeModel<P, C>,
    e1: EdgeModel<P, C>,
    s0: EdgeModel<P, C>,
    s1: EdgeModel<P, C>,
) -> Seq<EdgeModel<P, C>> {
    seq![e0, s1, e1.inverse(), s0.inverse()]
}

/// `f` is the face between `e0` and `e1` with the sides `s0` and `s1`: it
/// looks along its normal, `quad` is its one boundary, the sides join the
/// vertices at the starts and at the ends of the two edges, and its surface
/// is what `srel` accepts between their curves.
pub open spec fn is_span<P, C, S>(
    f: FaceModel<P, C, S>,
    e0: EdgeModel<P, C>,
    e1: EdgeModel<P, C>,
    s0: EdgeModel<P, C>,
    s1: EdgeModel<P, C>,
    prel: spec_fn(P, P, C) -> bool,
    srel: spec_fn(C, C, S) -> bool,
) -> bool {
    &&& f.forward
    &&& f.boundaries == seq![quad(e0, e1, s0, s1)]
    &&& is_link(s0, prel)
    &&& s0.start.id == e0.front().id
    &&& s0.end.id == e1.front().id
    &&& is_link(s1, prel)
    &&& s1.start.id == e0.back().id
    &&& s1.end.id == e1.back().id
    &&& srel(e0.curve, e1.curve, f.surface)
}

/// `f` is the face between `e0` and `e1` with new sides: the sides and the
/// face have the three identities from `base` on.
pub open spec fn is_join<P, C, S>(
    f: FaceModel<P, C, S>,
    e0: EdgeModel<P, C>,
    e1: EdgeModel<P, C>,
    prel: spec_fn(P, P, C) -> bool,
    srel: spec_fn(C, C, S) -> bool,
    base: nat,
) -> bool {
    exists|s0: EdgeModel<P, C>, s1: EdgeModel<P, C>|
        {
            &&& #[trigger] is_span(f, e0, e1, s0, s1, prel, srel)
            &&& s0.start == e0.front()
            &&& s0.end == e1.front()
            &&& s1.start == e0.back()
            &&& s1.end == e1.back()
            &&& s0.id as nat == base
            &&& s1.id as nat == base + 1
            &&& f.id as nat == base + 2
        }
}

/// The four corners of the face between `e0` and `e1` are four vertices.
pub open spec fn spans<P, C>(e0: EdgeModel<P, C>, e1: EdgeModel<P, C>) -> bool {
    &&& e0.start.id != e0.end.id
    &&& e1.start.id != e1.end.id
    &&& e0.start.id != e1.start.id
    &&& e0.start.id != e1.end.id
    &&& e0.end.id != e1.start.id
    &&& e0.end.id != e1.end.id
}

/// `e` is what becomes of the vertex `v` when it is swept: the edge from
/// `v` to a new vertex at the image of its point, along the curve that
/// `prel` accepts between the two points, with the two identities from
/// `base` on.
pub open spec fn is_vertex_sweep<P, C>(
    e: EdgeModel<P, C>,
    v: VertexModel<P>,
    vrel: spec_fn(P, P) -> bool,
    prel: spec_fn(P, P, C) -> bool,
    base: nat,
) -> bool {
    &&& e.start == v
    &&& e.end.id as nat == base
    &&& e.id as nat == base + 1
    &&& vrel(v.point, e.end.point)
    &&& is_link(e, prel)
}

/// A new edge from `v0` to `v1` along the curve that `connect_points`
/// gives for their points.
pub fn connect_vertices<P, C, CP: Fn(&P, &P) -> C>(
    ids: &mut IdSource,
    v0: &Vertex<P>,
    v1: &Vertex<P>,
    connect_points: &CP,
) -> (e: Edge<P, C>)
    requires
        old(ids).remaining() >= 1,
        connect_points.requires((&v0@.point, &v1@.point)),
    ensures
        e@.id as nat == old(ids).issued(),
        e@.start == v0@,
        e@.end == v1@,
        e@.forward,
        connect_points.ensures((&v0@.point, &v1@.point), e@.curve),
        final(ids).issued() == old(ids).issued() + 1,
{
    let curve = connect_points(v0.point(), v1.point());
    Edge::new_unchecked(ids, v0, v1, curve)
}

/// The wire round the face between `e0` and `e1` with the sides `s0` and
/// `s1`.
fn quad_wire<P, C>(e0: &Edge<P, C>, e1: &Edge<P, C>, s0: &Edge<P, C>, s1: &Edge<P, C>) -> (w: Wire<
    P,
    C,
>)
    requires
        s0@.forward,
        s0@.start.id == e0@.front().id,
        s0@.end.id == e1@.front().id,
        s1@.forward,
        s1@.start.id == e0@.back().id,
        s1@.end.id == e1@.back().id,
    ensures
        w@ == quad(e0@, e1@, s0@, s1@),
        is_chain(w@),
        is_closed(w@),
        spans(e0@, e1@) ==> is_simple(w@),
{
    let mut edges: Vec<Edge<P, C>> = Vec::new();
    edges.push(e0.clone());
    edges.push(s1.clone());
    edges.push(e1.inverse());
    edges.push(s0.inverse());
    let ghost q = quad(e0@, e1@, s0@, s1@);
    assert(Seq::new(edges@.len(), |k: int| edges@[k]@) =~= q);
    assert(is_chain(q)) by {
        assert forall|k: int| 0 <= k < q.len() - 1 implies (#[trigger] q[k]).back().id == q[k
            + 1].front().id by {
            if k == 0 {
            } else if k == 1 {
            } else {
            }
        }
    }
    assert(q[3].back().id == q[0].front().id);
    proof {
        if spans(e0@, e1@) {
            assert forall|i: int, j: int| 0 <= i < j < q.len() implies (#[trigger] q[i]).front().id
                != (#[trigger] q[j]).front().id by {
                assert(q[0].front().id == e0@.front().id);
                assert(q[1].front().id == e0@.back().id);
                assert(q[2].front().id == e1@.back().id);
                assert(q[3].front().id == e1@.front().id);
            }
        }
    }
    Wire::from_chain(edges)
}

/// The face between `e0` and `e1`: its boundary runs along `e0`, up a new
/// edge from the end of `e0` to the end of `e1`, back along `e1`, and down
/// a new edge from the start of `e0` to the start of `e1`. Where the four
/// corners are four vertices, the boundary is simple; where they are not,
/// as between an edge and itself, it passes a vertex twice, and the face is
/// one that `Face::try_new` would refuse.
pub fn connect_edges<P, C, S, CP: Fn(&P, &P) -> C, CE: Fn(&C, &C) -> S>(
    ids: &mut IdSource,
    e0: &Edge<P, C>,
    e1: &Edge<P, C>,
    connect_points: &CP,
    connect_curves: &CE,
) -> (f: Face<P, C, S>)
    requires
        old(ids).remaining() >= 3,
        connect_points.requires((&e0@.front().point, &e1@.front().point)),
        connect_points.requires((&e0@.back().point, &e1@.back().point)),
        connect_curves.requires((&e0@.curve, &e1@.curve)),
    ensures
        final(ids).issued() == old(ids).issued() + 3,
        is_join(
            f@,
            e0@,
            e1@,
            |a: P, b: P, c: C| connect_points.ensures((&a, &b), c),
            |c: C, d: C, s: S| connect_curves.ensures((&c, &d), s),
            old(ids).issued(),
        ),
        spans(e0@, e1@) <==> all_loops(f@.boundaries),
{
    let s0 = connect_vertices(ids, e0.front(), e1.front(), connect_points);
    let s1 = connect_vertices(ids, e0.back(), e1.back(), connect_points);
    let wire = quad_wire(e0, e1, &s0, &s1);
    let surface = connect_curves(e0.curve(), e1.curve());
    let mut ws: Vec<Wire<P, C>> = Vec::new();
    ws.push(wire);
    assert(crate::face::wire_views(ws@) =~= seq![quad(e0@, e1@, s0@, s1@)]);
    let f = Face::new_unchecked(ids, ws, surface);
    proof {
        let q = quad(e0@, e1@, s0@, s1@);
        assert(f@.boundaries[0] == q);
        if all_loops(f@.boundaries) {
            assert(crate::face::is_loop(f@.boundaries[0]));
            assert(q[0].front().id != q[1].front().id);
            assert(q[0].front().id != q[2].front().id);
            assert(q[0].front().id != q[3].front().id);
            assert(q[1].front().id != q[2].front().id);
            assert(q[1].front().id != q[3].front().id);
            assert(q[2].front().id != q[3].front().id);
        }
        assert(is_span(
            f@,
            e0@,
            e1@,
            s0@,
            s1@,
            |a: P, b: P, c: C| connect_points.ensures((&a, &b), c),
            |c: C, d: C, s: S| connect_curves.ensures((&c, &d), s),
        ));
    }
    f
}

impl<P> Vertex<P> {
    /// The edge from the vertex to a new vertex at the image of its point,
    /// along the curve that `connect_points` gives for the two points.
    pub fn sweep<C, FP: Fn(&P) -> P, CP: Fn(&P, &P) -> C>(
        &self,
        ids: &mut IdSource,
        point_mapping: &FP,
        connect_points: &CP,
    ) -> (e: Edge<P, C>)
        requires
            old(ids).remaining() >= 2,
            point_mapping.requires((&self@.point,)),
            forall|q: P|
                point_mapping.ensures((&self@.point,), q) ==> connect_points.requires(
                    (&self@.point, &q),
                ),
        ensures
            final(ids).issued() == old(ids).issued() + 2,
            is_vertex_sweep(
                e@,
                self@,
                |p: P, q: P| point_mapping.ensures((&p,), q),
                |a: P, b: P, c: C| connect_points.ensures((&a, &b), c),
                old(ids).issued(),
            ),
    {
        let v = self.mapped(ids, point_mapping);
        connect_vertices(ids, self, &v, connect_points)
    }
}

/// As many identities as a copy of the edge takes: one for each of its
/// ends and one for the edge.
pub open spec fn edge_cost<P, C>(x: EdgeModel<P, C>) -> nat {
    if x.start.id == x.end.id {
        2
    } else {
        3
    }
}

/// `y` is a copy of the edge `x`: in the same direction, between new
/// vertices at the images of the points of its ends, along the image of its
/// curve, with the identities from `base` on. The copy of an edge from a
/// vertex to itself runs from a vertex to itself.
pub open spec fn is_edge_copy<P, C>(
    x: EdgeModel<P, C>,
    y: EdgeModel<P, C>,
    vrel: spec_fn(P, P) -> bool,
    crel: spec_fn(C, C) -> bool,
    base: nat,
) -> bool {
    &&& y.forward == x.forward
    &&& vrel(x.start.point, y.start.point)
    &&& crel(x.curve, y.curve)
    &&& y.start.id as nat == base
    &&& if x.start.id == x.end.id {
        y.end == y.start && y.id as nat == base + 1
    } else {
        vrel(x.end.point, y.end.point) && y.end.id as nat == base + 1 && y.id as nat == base + 2
    }
}

/// The identity source after `k` steps of the ring of the edge `e`, begun
/// at `base`: each step takes a copy of the edge, two sides and a face.
pub open spec fn ring_mark<P, C>(e: EdgeModel<P, C>, base: nat, k: int) -> int {
    if e.start.id == e.end.id {
        base + 5 * k
    } else {
        base + 6 * k
    }
}

/// `f` is what becomes of the edge `e` when it is swept: the face between
/// `e` and a copy of it, with the identities from `base` on.
pub open spec fn is_edge_sweep<P, C, S>(
    f: FaceModel<P, C, S>,
    e: EdgeModel<P, C>,
    vrel: spec_fn(P, P) -> bool,
    crel: spec_fn(C, C) -> bool,
    prel: spec_fn(P, P, C) -> bool,
    srel: spec_fn(C, C, S) -> bool,
    base: nat,
) -> bool {
    exists|top: EdgeModel<P, C>| #[trigger]
        is_edge_copy(e, top, vrel, crel, base) && is_join(f, e, top, prel, srel, base + edge_cost(e))
}

/// `faces` is the ring that becomes of the edge `e` when it is swept round
/// in `d` steps: `layers` are `e` and copy after copy of it, each face lies
/// between a layer and the next, and the last between the last layer and `e`.
pub open spec fn edge_ring_ok<P, C, S>(
    e: EdgeModel<P, C>,
    layers: Seq<EdgeModel<P, C>>,
    faces: Seq<FaceModel<P, C, S>>,
    d: int,
    vrel: spec_fn(P, P) -> bool,
    crel: spec_fn(C, C) -> bool,
    prel: spec_fn(P, P, C) -> bool,
    srel: spec_fn(C, C, S) -> bool,
    base: nat,
) -> bool {
    &&& d >= 1
    &&& layers.len() == d
    &&& faces.len() == d
    &&& layers[0] == e
    &&& forall|i: int|
        1 <= i < d ==> is_edge_copy(
            layers[i - 1],
            #[trigger] layers[i],
            vrel,
            crel,
            ring_mark(e, base, i - 1) as nat,
        )
    &&& forall|i: int|
        0 <= i < d - 1 ==> is_join(
            #[trigger] faces[i],
            layers[i],
            layers[i + 1],
            prel,
            srel,
            (ring_mark(e, base, i) + edge_cost(e)) as nat,
        )
    &&& is_join(faces[d - 1], layers[d - 1], e, prel, srel, ring_mark(e, base, d - 1) as nat)
}

/// `faces` is the ring that becomes of the edge `e` when it is swept round
/// in `d` steps.
pub open spec fn is_edge_ring<P, C, S>(
    e: EdgeModel<P, C>,
    faces: Seq<FaceModel<P, C, S>>,
    d: int,
    vrel: spec_fn(P, P) -> bool,
    crel: spec_fn(C, C) -> bool,
    prel: spec_fn(P, P, C) -> bool,
    srel: spec_fn(C, C, S) -> bool,
    base: nat,
) -> bool {
    exists|layers: Seq<EdgeModel<P, C>>| #[trigger]
        edge_ring_ok(e, layers, faces, d, vrel, crel, prel, srel, base)
}

impl<P, C> Edge<P, C> {
    /// The face between the edge and a copy of it: the copy has new end
    /// vertices at the images of the points and the image of the curve; new
    /// edges join the starts and the ends of the two.
    pub fn sweep<S, FP: Fn(&P) -> P, FC: Fn(&C) -> C, CP: Fn(&P, &P) -> C, CE: Fn(&C, &C) -> S>(
        &self,
        ids: &mut IdSource,
        point_mapping: &FP,
        curve_mapping: &FC,
        connect_points: &CP,
        connect_curves: &CE,
    ) -> (f: Face<P, C, S>)
        requires
            old(ids).remaining() >= 6,
            forall|p: P| point_mapping.requires((&p,)),
            forall|c: C| curve_mapping.requires((&c,)),
            forall|a: P, b: P| connect_points.requires((&a, &b)),
            forall|c: C, d: C| connect_curves.requires((&c, &d)),
        ensures
            final(ids).issued() == old(ids).issued() + edge_cost(self@) + 3,
            is_edge_sweep(
                f@,
                self@,
                |p: P, q: P| point_mapping.ensures((&p,), q),
                |c: C, d: C| curve_mapping.ensures((&c,), d),
                |a: P, b: P, c: C| connect_points.ensures((&a, &b), c),
                |c: C, d: C, s: S| connect_curves.ensures((&c, &d), s),
                old(ids).issued(),
            ),
    {
        let top = self.mapped(ids, point_mapping, curve_mapping);
        let f = connect_edges(ids, self, &top, connect_points, connect_curves);
        proof {
            assert(is_edge_copy(
                self@,
                top@,
                |p: P, q: P| point_mapping.ensures((&p,), q),
                |c: C, d: C| curve_mapping.ensures((&c,), d),
                old(ids).issued(),
            ));
        }
        f
    }

    /// The ring of faces that the edge sweeps when it is carried round in
    /// `division` steps: face after face between the edge and a copy, the
    /// copy and a copy of it, and at last between the last copy and the
    /// edge itself. In one step the one face lies between the edge and
    /// itself.
    pub fn closed_sweep<
        S,
        FP: Fn(&P) -> P,
        FC: Fn(&C) -> C,
        CP: Fn(&P, &P) -> C,
        CE: Fn(&C, &C) -> S,
    >(
        &self,
        ids: &mut IdSource,
        point_mapping: &FP,
        curve_mapping: &FC,
        connect_points: &CP,
        connect_curves: &CE,
        division: usize,
    ) -> (shell: Shell<P, C, S>)
        requires
            division >= 1,
            old(ids).remaining() >= 6 * (division - 1) + 3,
            forall|p: P| point_mapping.requires((&p,)),
            forall|c: C| curve_mapping.requires((&c,)),
            forall|a: P, b: P| connect_points.requires((&a, &b)),
            forall|c: C, d: C| connect_curves.requires((&c, &d)),
        ensures
            final(ids).issued() == ring_mark(self@, old(ids).issued(), division - 1) + 3,
            is_edge_ring(
                self@,
                shell@,
                division as int,
                |p: P, q: P| point_mapping.ensures((&p,), q),
                |c: C, d: C| curve_mapping.ensures((&c,), d),
                |a: P, b: P, c: C| connect_points.ensures((&a, &b), c),
                |c: C, d: C, s: S| connect_curves.ensures((&c, &d), s),
                old(ids).issued(),
            ),
    {
        let ghost vrel = |p: P, q: P| point_mapping.ensures((&p,), q);
        let ghost crel = |c: C, d: C| curve_mapping.ensures((&c,), d);
        let ghost prel = |a: P, b: P, c: C| connect_points.ensures((&a, &b), c);
        let ghost srel = |c: C, d: C, s: S| connect_curves.ensures((&c, &d), s);
        let ghost base = ids.issued();
        let ghost mut layers: Seq<EdgeModel<P, C>> = seq![self@];
        let mut faces: Vec<Face<P, C, S>> = Vec::new();
        let mut edge = self.clone();
        let mut i: usize = 1;
        while i < division
            invariant
                1 <= i <= division,
                base == old(ids).issued(),
                old(ids).remaining() >= 6 * (division - 1) + 3,
                ids.issued() == ring_mark(self@, base, i - 1),
                forall|p: P| point_mapping.requires((&p,)),
                forall|c: C| curve_mapping.requires((&c,)),
                forall|a: P, b: P| connect_points.requires((&a, &b)),
                forall|c: C, d: C| connect_curves.requires((&c, &d)),
                vrel == (|p: P, q: P| point_mapping.ensures((&p,), q)),
                crel == (|c: C, d: C| curve_mapping.ensures((&c,), d)),
                prel == (|a: P, b: P, c: C| connect_points.ensures((&a, &b), c)),
                srel == (|c: C, d: C, s: S| connect_curves.ensures((&c, &d), s)),
                layers.len() == i,
                layers[0] == self@,
                edge@ == layers[i - 1],
                (edge@.start.id == edge@.end.id) == (self@.start.id == self@.end.id),
                faces@.len() == i - 1,
                forall|k: int|
                    1 <= k < i ==> is_edge_copy(
                        layers[k - 1],
                        #[trigger] layers[k],
                        vrel,
                        crel,
                        ring_mark(self@, base, k - 1) as nat,
                    ),
                forall|k: int|
                    0 <= k < i - 1 ==> is_join(
                        (#[trigger] faces@[k])@,
                        layers[k],
                        layers[k + 1],
                        prel,
                        srel,
                        (ring_mark(self@, base, k) + edge_cost(self@)) as nat,
                    ),
            decreases division - i,
        {
            let next = edge.mapped(ids, point_mapping, curve_mapping);
            let face = connect_edges(ids, &edge, &next, connect_points, connect_curves);
            proof {
                let before = layers;
                layers = layers.push(next@);
                assert(is_edge_copy(edge@, next@, vrel, crel, ring_mark(self@, base, i - 1) as nat));
                assert forall|k: int| 1 <= k < i + 1 implies is_edge_copy(
                    layers[k - 1],
                    #[trigger] layers[k],
                    vrel,
                    crel,
                    ring_mark(self@, base, k - 1) as nat,
                ) by {
                    if k < i {
                        assert(layers[k] == before[k]);
                        assert(layers[k - 1] == before[k - 1]);
                    }
                }
            }
            let ghost done = faces@;
            faces.push(face);
            proof {
                assert forall|k: int| 0 <= k < i implies is_join(
                    (#[trigger] faces@[k])@,
                    layers[k],
                    layers[k + 1],
                    prel,
                    srel,
                    (ring_mark(self@, base, k) + edge_cost(self@)) as nat,
                ) by {
                    if k < i - 1 {
                        assert(faces@[k] == done[k]);
                    }
                }
            }
            edge = next;
            i += 1;
        }
        let face = connect_edges(ids, &edge, self, connect_points, connect_curves);
        let ghost done = faces@;
        faces.push(face);
        let shell = Shell::from_faces(faces);
        proof {
            let d = division as int;
            assert forall|k: int| 0 <= k < d - 1 implies is_join(
                #[trigger] shell@[k],
                layers[k],
                layers[k + 1],
                prel,
                srel,
                (ring_mark(self@, base, k) + edge_cost(self@)) as nat,
            ) by {
                assert(shell@[k] == done[k]@);
            }
            assert(shell@[d - 1] == face@);
            assert(edge_ring_ok(self@, layers, shell@, d, vrel, crel, prel, srel, base));
        }
        shell
    }
}

/// Where two ends of edges of `w0` are one vertex, the ends of the edges of
/// `w1` at the same places are one vertex.
pub open spec fn matched<P, C>(w0: Seq<EdgeModel<P, C>>, w1: Seq<EdgeModel<P, C>>) -> bool {
    &&& w0.len() == w1.len()
    &&& forall|j: int, k: int|
        0 <= j < w0.len() && 0 <= k < w0.len() ==> {
            &&& ((#[trigger] w0[j]).front().id == (#[trigger] w0[k]).front().id
                ==> w1[j].front().id == w1[k].front().id)
            &&& (w0[j].front().id == w0[k].back().id ==> w1[j].front().id == w1[k].back().id)
            &&& (w0[j].back().id == w0[k].back().id ==> w1[j].back().id == w1[k].back().id)
        }
}

/// The sides are new edges, one for each vertex of `w0` that is named, from
/// a handle of that vertex in `w0` to the vertex at the same place in `w1`.
pub open spec fn sides_ok<P, C>(
    w0: Seq<EdgeModel<P, C>>,
    w1: Seq<EdgeModel<P, C>>,
    sides: Map<u64, EdgeModel<P, C>>,
    prel: spec_fn(P, P, C) -> bool,
    base: nat,
    now: nat,
) -> bool {
    &&& forall|id: u64| #[trigger]
        sides.contains_key(id) ==> is_link(sides[id], prel) && base <= sides[id].id < now
            && sides[id].start.id == id && exists|j: int|
            0 <= j < w0.len() && ((sides[id].start == (#[trigger] w0[j]).front() && sides[id].end
                == w1[j].front()) || (sides[id].start == w0[j].back() && sides[id].end
                == w1[j].back()))
    &&& forall|a: u64, b: u64|
        #![trigger sides.contains_key(a), sides.contains_key(b)]
        sides.contains_key(a) && sides.contains_key(b) && a != b ==> sides[a].id != sides[b].id
}

/// Face `k` lies between edge `k` of `w0` and edge `k` of `w1`, with the
/// sides that `sides` holds for the two ends of the lower edge.
pub open spec fn band_face_ok<P, C, S>(
    w0: Seq<EdgeModel<P, C>>,
    w1: Seq<EdgeModel<P, C>>,
    faces: Seq<FaceModel<P, C, S>>,
    sides: Map<u64, EdgeModel<P, C>>,
    prel: spec_fn(P, P, C) -> bool,
    srel: spec_fn(C, C, S) -> bool,
    base: nat,
    now: nat,
    k: int,
) -> bool {
    &&& sides.contains_key(w0[k].front().id)
    &&& sides.contains_key(w0[k].back().id)
    &&& is_span(
        faces[k],
        w0[k],
        w1[k],
        sides[w0[k].front().id],
        sides[w0[k].back().id],
        prel,
        srel,
    )
    &&& base <= faces[k].id < now
}

/// `faces` is the band between the wires `w0` and `w1`: face `k` lies
/// between edge `k` of the one and edge `k` of the other, and the side at a
/// vertex is the same edge in every face that has one there.
pub open spec fn band_ok<P, C, S>(
    w0: Seq<EdgeModel<P, C>>,
    w1: Seq<EdgeModel<P, C>>,
    faces: Seq<FaceModel<P, C, S>>,
    sides: Map<u64, EdgeModel<P, C>>,
    prel: spec_fn(P, P, C) -> bool,
    srel: spec_fn(C, C, S) -> bool,
    base: nat,
    now: nat,
) -> bool {
    &&& faces.len() == w0.len()
    &&& w1.len() == w0.len()
    &&& sides_ok(w0, w1, sides, prel, base, now)
    &&& forall|k: int|
        0 <= k < w0.len() ==> #[trigger] band_face_ok(w0, w1, faces, sides, prel, srel, base, now, k)
    &&& forall|j: int, k: int|
        0 <= j < k < faces.len() ==> (#[trigger] faces[j]).id != (#[trigger] faces[k]).id
}

/// `faces` is the band between the wires `w0` and `w1`, with identities
/// from `base` up to `now`.
pub open spec fn is_band<P, C, S>(
    w0: Seq<EdgeModel<P, C>>,
    w1: Seq<EdgeModel<P, C>>,
    faces: Seq<FaceModel<P, C, S>>,
    prel: spec_fn(P, P, C) -> bool,
    srel: spec_fn(C, C, S) -> bool,
    base: nat,
    now: nat,
) -> bool {
    exists|sides: Map<u64, EdgeModel<P, C>>| #[trigger]
        band_ok(w0, w1, faces, sides, prel, srel, base, now)
}

/// The sides as a map from the vertices of the lower wire.
pub open spec fn side_map<P, C>(memo: Map<u64, Edge<P, C>>) -> Map<u64, EdgeModel<P, C>> {
    Map::new(|id: u64| memo.contains_key(id), |id: u64| memo[id]@)
}

/// The side at `v0`: the one made before for this vertex, or else a new
/// edge from `v0` to `v1`.
fn side_at<P, C, CP: Fn(&P, &P) -> C>(
    memo: &mut HashMap<u64, Edge<P, C>>,
    ids: &mut IdSource,
    v0: &Vertex<P>,
    v1: &Vertex<P>,
    connect_points: &CP,
    Ghost(w0): Ghost<Seq<EdgeModel<P, C>>>,
    Ghost(w1): Ghost<Seq<EdgeModel<P, C>>>,
    Ghost(k): Ghost<int>,
    Ghost(base): Ghost<nat>,
) -> (s: Edge<P, C>)
    requires
        sides_ok(
            w0,
            w1,
            side_map(old(memo)@),
            |a: P, b: P, c: C| connect_points.ensures((&a, &b), c),
            base,
            old(ids).issued(),
        ),
        matched(w0, w1),
        0 <= k < w0.len(),
        (v0@ == w0[k].front() && v1@ == w1[k].front()) || (v0@ == w0[k].back() && v1@
            == w1[k].back()),
        forall|a: P, b: P| connect_points.requires((&a, &b)),
        old(ids).remaining() >= 1,
        base <= old(ids).issued(),
    ensures
        old(ids).issued() <= final(ids).issued() <= old(ids).issued() + 1,
        sides_ok(
            w0,
            w1,
            side_map(final(memo)@),
            |a: P, b: P, c: C| connect_points.ensures((&a, &b), c),
            base,
            final(ids).issued(),
        ),
        forall|id: u64| #[trigger]
            side_map(old(memo)@).contains_key(id) ==> side_map(final(memo)@).contains_key(id)
                && side_map(final(memo)@)[id] == side_map(old(memo)@)[id],
        side_map(final(memo)@).contains_key(v0@.id),
        s@ == side_map(final(memo)@)[v0@.id],
        s@.forward,
        s@.start.id == v0@.id,
        s@.end.id == v1@.id,
{
    let ghost prel = |a: P, b: P, c: C| connect_points.ensures((&a, &b), c);
    let id = v0.id();
    let found = match memo.get(&id) {
        Some(e) => Some(e.clone()),
        None => None,
    };
    match found {
        Some(e) => {
            proof {
                let sides = side_map(memo@);
                assert(sides.contains_key(id));
                let j = choose|j: int|
                    0 <= j < w0.len() && ((sides[id].start == (#[trigger] w0[j]).front()
                        && sides[id].end == w1[j].front()) || (sides[id].start == w0[j].back()
                        && sides[id].end == w1[j].back()));
                // The roles in `matched`: the place of the handle and the
                // place asked for.
                assert(w0[j].front().id == w0[k].front().id ==> w1[j].front().id
                    == w1[k].front().id);
                assert(w0[j].front().id == w0[k].back().id ==> w1[j].front().id
                    == w1[k].back().id);
                assert(w0[k].front().id == w0[j].back().id ==> w1[k].front().id
                    == w1[j].back().id);
                assert(w0[j].back().id == w0[k].back().id ==> w1[j].back().id == w1[k].back().id);
            }
            e
        },
        None => {
            let ghost before = side_map(memo@);
            let e = connect_vertices(ids, v0, v1, connect_points);
            memo.insert(id, e.clone());
            proof {
                let sides = side_map(memo@);
                assert(sides =~= before.insert(id, e@));
                assert forall|x: u64| #[trigger] sides.contains_key(x) implies is_link(
                    sides[x],
                    prel,
                ) && base <= sides[x].id < ids.issued() && sides[x].start.id == x && exists|j: int|
                    0 <= j < w0.len() && ((sides[x].start == (#[trigger] w0[j]).front()
                        && sides[x].end == w1[j].front()) || (sides[x].start == w0[j].back()
                        && sides[x].end == w1[j].back())) by {
                    if x == id {
                        assert(sides[x].start == w0[k].front() && sides[x].end == w1[k].front()
                            || sides[x].start == w0[k].back() && sides[x].end == w1[k].back());
                    } else {
                        assert(before.contains_key(x));
                        let j = choose|j: int|
                            0 <= j < w0.len() && ((before[x].start == (#[trigger] w0[j]).front()
                                && before[x].end == w1[j].front()) || (before[x].start
                                == w0[j].back() && before[x].end == w1[j].back()));
                        assert(sides[x].start == w0[j].front() && sides[x].end == w1[j].front()
                            || sides[x].start == w0[j].back() && sides[x].end == w1[j].back());
                    }
                }
                assert forall|a: u64, b: u64|
                    #![trigger sides.contains_key(a), sides.contains_key(b)]
                    sides.contains_key(a) && sides.contains_key(b) && a != b implies sides[a].id
                    != sides[b].id by {
                    if a != id {
                        assert(before.contains_key(a));
                    }
                    if b != id {
                        assert(before.contains_key(b));
                    }
                }
            }
            e
        },
    }
}

/// The band of faces between two wires of equally many edges: face `k`
/// lies between edge `k` of the one and edge `k` of the other, and where
/// edges of the lower wire meet in a vertex, the faces above them share the
/// side at that vertex.
pub fn connect_wires<P, C, S, CP: Fn(&P, &P) -> C, CE: Fn(&C, &C) -> S>(
    ids: &mut IdSource,
    w0: &Wire<P, C>,
    w1: &Wire<P, C>,
    connect_points: &CP,
    connect_curves: &CE,
) -> (faces: Vec<Face<P, C, S>>)
    requires
        matched(w0@, w1@),
        forall|a: P, b: P| connect_points.requires((&a, &b)),
        forall|c: C, d: C| connect_curves.requires((&c, &d)),
        old(ids).remaining() >= 3 * w0@.len(),
    ensures
        old(ids).issued() <= final(ids).issued() <= old(ids).issued() + 3 * w0@.len(),
        is_band(
            w0@,
            w1@,
            face_views(faces@),
            |a: P, b: P, c: C| connect_points.ensures((&a, &b), c),
            |c: C, d: C, s: S| connect_curves.ensures((&c, &d), s),
            old(ids).issued(),
            final(ids).issued(),
        ),
{
    let ghost prel = |a: P, b: P, c: C| connect_points.ensures((&a, &b), c);
    let ghost srel = |c: C, d: C, s: S| connect_curves.ensures((&c, &d), s);
    let ghost base = ids.issued();
    let es0 = w0.edges();
    let es1 = w1.edges();
    let n = es0.len();
    let mut memo: HashMap<u64, Edge<P, C>> = HashMap::new();
    let mut faces: Vec<Face<P, C, S>> = Vec::new();
    let mut k: usize = 0;
    while k < n
        invariant
            n == es0@.len(),
            n == es1@.len(),
            n == w0@.len(),
            k <= n,
            forall|i: int| 0 <= i < n ==> (#[trigger] es0@[i])@ == w0@[i],
            forall|i: int| 0 <= i < n ==> (#[trigger] es1@[i])@ == w1@[i],
            matched(w0@, w1@),
            forall|a: P, b: P| connect_points.requires((&a, &b)),
            forall|c: C, d: C| connect_curves.requires((&c, &d)),
            prel == (|a: P, b: P, c: C| connect_points.ensures((&a, &b), c)),
            srel == (|c: C, d: C, s: S| connect_curves.ensures((&c, &d), s)),
            base == old(ids).issued(),
            old(ids).remaining() >= 3 * n,
            base <= ids.issued() <= base + 3 * k,
            sides_ok(w0@, w1@, side_map(memo@), prel, base, ids.issued()),
            faces@.len() == k,
            forall|i: int|
                0 <= i < k ==> #[trigger] band_face_ok(
                    w0@,
                    w1@,
                    face_views(faces@),
                    side_map(memo@),
                    prel,
                    srel,
                    base,
                    ids.issued(),
                    i,
                ),
            forall|i: int, j: int|
                0 <= i < j < k ==> (#[trigger] face_views(faces@)[i]).id != (#[trigger] face_views(
                    faces@,
                )[j]).id,
        decreases n - k,
    {
        let e0 = &es0[k];
        let e1 = &es1[k];
        let ghost m0 = side_map(memo@);
        let ghost start = ids.issued();
        let s0 = side_at(
            &mut memo,
            ids,
            e0.front(),
            e1.front(),
            connect_points,
            Ghost(w0@),
            Ghost(w1@),
            Ghost(k as int),
            Ghost(base),
        );
        let s1 = side_at(
            &mut memo,
            ids,
            e0.back(),
            e1.back(),
            connect_points,
            Ghost(w0@),
            Ghost(w1@),
            Ghost(k as int),
            Ghost(base),
        );
        let wire = quad_wire(e0, e1, &s0, &s1);
        let surface = connect_curves(e0.curve(), e1.curve());
        let mut ws: Vec<Wire<P, C>> = Vec::new();
        ws.push(wire);
        assert(crate::face::wire_views(ws@) =~= seq![quad(e0@, e1@, s0@, s1@)]);
        let face = Face::new_unchecked(ids, ws, surface);
        let ghost done = face_views(faces@);
        let ghost mid = start;
        faces.push(face);
        proof {
            let m = side_map(memo@);
            let fs = face_views(faces@);
            assert forall|i: int| 0 <= i < k + 1 implies #[trigger] band_face_ok(
                w0@,
                w1@,
                fs,
                m,
                prel,
                srel,
                base,
                ids.issued(),
                i,
            ) by {
                if i < k {
                    assert(band_face_ok(w0@, w1@, done, m0, prel, srel, base, mid, i));
                    assert(fs[i] == done[i]);
                    assert(m0.contains_key(w0@[i].front().id));
                    assert(m0.contains_key(w0@[i].back().id));
                } else {
                    assert(fs[i] == face@);
                    assert(m[w0@[i].front().id] == s0@);
                    assert(m[w0@[i].back().id] == s1@);
                }
            }
            assert forall|i: int, j: int| 0 <= i < j < k + 1 implies (#[trigger] fs[i]).id != (
            #[trigger] fs[j]).id by {
                assert(fs[i] == done[i]);
                assert(band_face_ok(w0@, w1@, done, m0, prel, srel, base, mid, i));
                if j < k {
                    assert(fs[j] == done[j]);
                }
            }
        }
        k += 1;
    }
    proof {
        assert(band_ok(
            w0@,
            w1@,
            face_views(faces@),
            side_map(memo@),
            prel,
            srel,
            base,
            ids.issued(),
        ));
    }
    faces
}

/// What the tables keep of a wire: where ends of edges were one vertex
/// they are one vertex, and nowhere else; an edge with two ends has two
/// ends; handles of one edge have the same ends. The vertices of what the
/// tables make are new.
pub proof fn lemma_fits_facts<P, C, Q, D>(
    xs: Seq<EdgeModel<P, C>>,
    ys: Seq<EdgeModel<Q, D>>,
    t: Tables<Q, D>,
    base: nat,
    now: nat,
)
    requires
        wire_fits(xs, ys, t),
        crate::mapping::one_to_one(t),
        forall|id: u64| #[trigger] t.vertex.contains_key(id) ==> base <= t.vertex[id].id < now,
    ensures
        forall|j: int, k: int|
            0 <= j < xs.len() && 0 <= k < xs.len() ==> {
                &&& ((#[trigger] xs[j]).front().id == (#[trigger] xs[k]).front().id)
                    == (ys[j].front().id == ys[k].front().id)
                &&& (xs[j].front().id == xs[k].back().id) == (ys[j].front().id == ys[k].back().id)
                &&& (xs[j].back().id == xs[k].back().id) == (ys[j].back().id == ys[k].back().id)
            },
        forall|k: int|
            0 <= k < xs.len() ==> ((#[trigger] xs[k]).start.id == xs[k].end.id) == (ys[k].start.id
                == ys[k].end.id),
        forall|k: int|
            0 <= k < ys.len() ==> base <= (#[trigger] ys[k]).start.id < now && base <= ys[k].end.id
                < now,
        forall|j: int, k: int|
            0 <= j < ys.len() && 0 <= k < ys.len() && (#[trigger] ys[j]).id == (#[trigger] ys[k]).id
                ==> ys[j].start.id == ys[k].start.id && ys[j].end.id == ys[k].end.id,
{
    assert forall|j: int, k: int| 0 <= j < xs.len() && 0 <= k < xs.len() implies {
        &&& ((#[trigger] xs[j]).front().id == (#[trigger] xs[k]).front().id) == (ys[j].front().id
            == ys[k].front().id)
        &&& (xs[j].front().id == xs[k].back().id) == (ys[j].front().id == ys[k].back().id)
        &&& (xs[j].back().id == xs[k].back().id) == (ys[j].back().id == ys[k].back().id)
    } by {
        assert(edge_fits(xs[j], ys[j], t));
        assert(edge_fits(xs[k], ys[k], t));
        assert(t.vertex.contains_key(xs[j].start.id) && t.vertex.contains_key(xs[k].start.id));
        assert(t.vertex.contains_key(xs[j].end.id) && t.vertex.contains_key(xs[k].end.id));
        assert(t.vertex.contains_key(xs[j].start.id) && t.vertex.contains_key(xs[k].end.id));
        assert(t.vertex.contains_key(xs[j].end.id) && t.vertex.contains_key(xs[k].start.id));
    }
    assert forall|k: int| 0 <= k < xs.len() implies ((#[trigger] xs[k]).start.id == xs[k].end.id)
        == (ys[k].start.id == ys[k].end.id) by {
        assert(edge_fits(xs[k], ys[k], t));
        assert(t.vertex.contains_key(xs[k].start.id) && t.vertex.contains_key(xs[k].end.id));
    }
    assert forall|k: int| 0 <= k < ys.len() implies base <= (#[trigger] ys[k]).start.id < now
        && base <= ys[k].end.id < now by {
        assert(edge_fits(xs[k], ys[k], t));
    }
    assert forall|j: int, k: int|
        0 <= j < ys.len() && 0 <= k < ys.len() && (#[trigger] ys[j]).id == (
        #[trigger] ys[k]).id implies ys[j].start.id == ys[k].start.id && ys[j].end.id
        == ys[k].end.id by {
        assert(edge_fits(xs[j], ys[j], t));
        assert(edge_fits(xs[k], ys[k], t));
        assert(t.edge.contains_key(xs[j].id) && t.edge.contains_key(xs[k].id));
    }
}

/// What a copy of a wire keeps: where ends of edges were one vertex they
/// are one vertex, and nowhere else; an edge with two ends has two ends;
/// handles of one edge have the same ends. The vertices of the copy are new.
pub proof fn lemma_wire_copy_facts<P, C>(
    xs: Seq<EdgeModel<P, C>>,
    ys: Seq<EdgeModel<P, C>>,
    vrel: spec_fn(P, P) -> bool,
    crel: spec_fn(C, C) -> bool,
    base: nat,
    now: nat,
)
    requires
        is_wire_copy(xs, ys, vrel, crel, base, now),
    ensures
        matched(xs, ys),
        matched(ys, xs),
        coherent(wire_scope(ys)),
{
    let t = choose|t: Tables<P, C>| #[trigger]
        wire_fits(xs, ys, t) && tables_ok(t, wire_scope(xs), vrel, crel, base, now);
    lemma_fits_facts(xs, ys, t, base, now);
    lemma_facts_matched(xs, ys, base, now);
}

/// What follows for two wires of which the one keeps the vertices of the
/// other apart and together.
pub proof fn lemma_facts_matched<P, C>(
    xs: Seq<EdgeModel<P, C>>,
    ys: Seq<EdgeModel<P, C>>,
    base: nat,
    now: nat,
)
    requires
        xs.len() == ys.len(),
        forall|j: int, k: int|
            0 <= j < xs.len() && 0 <= k < xs.len() ==> {
                &&& ((#[trigger] xs[j]).front().id == (#[trigger] xs[k]).front().id)
                    == (ys[j].front().id == ys[k].front().id)
                &&& (xs[j].front().id == xs[k].back().id) == (ys[j].front().id == ys[k].back().id)
                &&& (xs[j].back().id == xs[k].back().id) == (ys[j].back().id == ys[k].back().id)
            },
        forall|k: int|
            0 <= k < xs.len() ==> ((#[trigger] xs[k]).start.id == xs[k].end.id) == (ys[k].start.id
                == ys[k].end.id),
        forall|k: int|
            0 <= k < ys.len() ==> base <= (#[trigger] ys[k]).start.id < now && base <= ys[k].end.id
                < now,
        forall|j: int, k: int|
            0 <= j < ys.len() && 0 <= k < ys.len() && (#[trigger] ys[j]).id == (#[trigger] ys[k]).id
                ==> ys[j].start.id == ys[k].start.id && ys[j].end.id == ys[k].end.id,
    ensures
        matched(xs, ys),
        matched(ys, xs),
        coherent(wire_scope(ys)),
{
    assert forall|j: int, k: int| 0 <= j < ys.len() && 0 <= k < ys.len() implies {
        &&& ((#[trigger] ys[j]).front().id == (#[trigger] ys[k]).front().id ==> xs[j].front().id
            == xs[k].front().id)
        &&& (ys[j].front().id == ys[k].back().id ==> xs[j].front().id == xs[k].back().id)
        &&& (ys[j].back().id == ys[k].back().id ==> xs[j].back().id == xs[k].back().id)
    } by {
        assert((xs[j].front().id == xs[k].front().id) == (ys[j].front().id == ys[k].front().id));
    }
    let scope = wire_scope(ys);
    assert forall|x: EdgeModel<P, C>, y: EdgeModel<P, C>|
        #![trigger scope(x), scope(y)]
        scope(x) && scope(y) && x.id == y.id implies x.start.id == y.start.id && x.end.id
        == y.end.id by {
        let j = choose|j: int| 0 <= j < ys.len() && #[trigger] ys[j] == x;
        let k = choose|k: int| 0 <= k < ys.len() && #[trigger] ys[k] == y;
        assert(ys[j].id == ys[k].id);
    }
}

/// What the tables make of a wire run backwards is what they make of the
/// wire, run backwards.
pub proof fn lemma_fits_inverse<P, C, Q, D>(
    xs: Seq<EdgeModel<P, C>>,
    ys: Seq<EdgeModel<Q, D>>,
    t: Tables<Q, D>,
)
    requires
        wire_fits(xs, ys, t),
    ensures
        wire_fits(crate::wire::inverse_of(xs), crate::wire::inverse_of(ys), t),
{
    let rx = crate::wire::inverse_of(xs);
    let ry = crate::wire::inverse_of(ys);
    assert forall|k: int| 0 <= k < rx.len() implies edge_fits(#[trigger] rx[k], ry[k], t) by {
        let j = xs.len() - 1 - k;
        assert(edge_fits(xs[j], ys[j], t));
    }
}

/// Matching carries over a wire in between.
pub proof fn lemma_matched_trans<P, C>(
    a: Seq<EdgeModel<P, C>>,
    b: Seq<EdgeModel<P, C>>,
    c: Seq<EdgeModel<P, C>>,
)
    requires
        matched(a, b),
        matched(b, c),
    ensures
        matched(a, c),
{
    assert forall|j: int, k: int| 0 <= j < a.len() && 0 <= k < a.len() implies {
        &&& ((#[trigger] a[j]).front().id == (#[trigger] a[k]).front().id ==> c[j].front().id
            == c[k].front().id)
        &&& (a[j].front().id == a[k].back().id ==> c[j].front().id == c[k].back().id)
        &&& (a[j].back().id == a[k].back().id ==> c[j].back().id == c[k].back().id)
    } by {
        assert(b[j].front().id == b[k].front().id ==> c[j].front().id == c[k].front().id);
    }
}

/// `faces` is what becomes of the wire `w` when it is swept: the band
/// between `w` and a copy of it.
pub open spec fn is_wire_sweep<P, C, S>(
    w: Seq<EdgeModel<P, C>>,
    faces: Seq<FaceModel<P, C, S>>,
    vrel: spec_fn(P, P) -> bool,
    crel: spec_fn(C, C) -> bool,
    prel: spec_fn(P, P, C) -> bool,
    srel: spec_fn(C, C, S) -> bool,
    base: nat,
    now: nat,
) -> bool {
    exists|top: Seq<EdgeModel<P, C>>, mid: nat|
        base <= mid <= now && #[trigger] is_wire_copy(w, top, vrel, crel, base, mid) && is_band(
            w,
            top,
            faces,
            prel,
            srel,
            mid,
            now,
        )
}

/// `faces` is the ring that becomes of the wire `w` when it is swept round
/// in `d` steps: `layers` are `w` and copy after copy of it, each band lies
/// between a layer and the next, and the last between the last layer and
/// `w`. The identities of each copy and each band lie between two marks,
/// and the marks do not decrease.
pub open spec fn wire_ring_ok<P, C, S>(
    w: Seq<EdgeModel<P, C>>,
    layers: Seq<Seq<EdgeModel<P, C>>>,
    bands: Seq<Seq<FaceModel<P, C, S>>>,
    marks: Seq<nat>,
    faces: Seq<FaceModel<P, C, S>>,
    d: int,
    vrel: spec_fn(P, P) -> bool,
    crel: spec_fn(C, C) -> bool,
    prel: spec_fn(P, P, C) -> bool,
    srel: spec_fn(C, C, S) -> bool,
) -> bool {
    &&& d >= 1
    &&& layers.len() == d
    &&& bands.len() == d
    &&& marks.len() == 2 * d
    &&& layers[0] == w
    &&& forall|i: int| 0 <= i < 2 * d - 1 ==> (#[trigger] marks[i]) <= marks[i + 1]
    &&& forall|i: int|
        1 <= i < d ==> is_wire_copy(
            layers[i - 1],
            #[trigger] layers[i],
            vrel,
            crel,
            marks[2 * i - 2],
            marks[2 * i - 1],
        )
    &&& forall|i: int|
        0 <= i < d - 1 ==> is_band(
            layers[i],
            layers[i + 1],
            #[trigger] bands[i],
            prel,
            srel,
            marks[2 * i + 1],
            marks[2 * i + 2],
        )
    &&& is_band(layers[d - 1], w, bands[d - 1], prel, srel, marks[2 * d - 2], marks[2 * d - 1])
    &&& faces == concat(bands, d as nat)
}

/// `faces` is the ring that becomes of the wire `w` when it is swept round
/// in `d` steps, with identities from `base` up to `now`.
pub open spec fn is_wire_ring<P, C, S>(
    w: Seq<EdgeModel<P, C>>,
    faces: Seq<FaceModel<P, C, S>>,
    d: int,
    vrel: spec_fn(P, P) -> bool,
    crel: spec_fn(C, C) -> bool,
    prel: spec_fn(P, P, C) -> bool,
    srel: spec_fn(C, C, S) -> bool,
    base: nat,
    now: nat,
) -> bool {
    exists|layers: Seq<Seq<EdgeModel<P, C>>>, bands: Seq<Seq<FaceModel<P, C, S>>>, marks: Seq<nat>|
        #[trigger] wire_ring_ok(w, layers, bands, marks, faces, d, vrel, crel, prel, srel)
            && marks[0] == base && marks[2 * d - 1] == now
}

impl<P, C> Wire<P, C> {
    /// The band of faces between the wire and a copy of it: the copy has
    /// new vertices at the images of the points and new edges along the
    /// images of the curves, and shares what the wire shares; the faces
    /// above two edges that meet in a vertex share the side at that vertex.
    pub fn sweep<S, FP: Fn(&P) -> P, FC: Fn(&C) -> C, CP: Fn(&P, &P) -> C, CE: Fn(&C, &C) -> S>(
        &self,
        ids: &mut IdSource,
        point_mapping: &FP,
        curve_mapping: &FC,
        connect_points: &CP,
        connect_curves: &CE,
    ) -> (shell: Shell<P, C, S>)
        requires
            old(ids).remaining() >= 6 * self@.len(),
            coherent(wire_scope(self@)),
            forall|p: P| point_mapping.requires((&p,)),
            forall|c: C| curve_mapping.requires((&c,)),
            forall|a: P, b: P| connect_points.requires((&a, &b)),
            forall|c: C, d: C| connect_curves.requires((&c, &d)),
        ensures
            old(ids).issued() <= final(ids).issued() <= old(ids).issued() + 6 * self@.len(),
            is_wire_sweep(
                self@,
                shell@,
                |p: P, q: P| point_mapping.ensures((&p,), q),
                |c: C, d: C| curve_mapping.ensures((&c,), d),
                |a: P, b: P, c: C| connect_points.ensures((&a, &b), c),
                |c: C, d: C, s: S| connect_curves.ensures((&c, &d), s),
                old(ids).issued(),
                final(ids).issued(),
            ),
    {
        let ghost vrel = |p: P, q: P| point_mapping.ensures((&p,), q);
        let ghost crel = |c: C, d: C| curve_mapping.ensures((&c,), d);
        let ghost base = ids.issued();
        let top = self.mapped(ids, point_mapping, curve_mapping);
        let ghost mid = ids.issued();
        proof {
            lemma_wire_copy_facts(self@, top@, vrel, crel, base, mid);
        }
        let faces = connect_wires(ids, self, &top, connect_points, connect_curves);
        let shell = Shell::from_faces(faces);
        proof {
            assert(is_wire_copy(self@, top@, vrel, crel, base, mid));
        }
        shell
    }

    /// The ring of bands that the wire sweeps when it is carried round in
    /// `division` steps: band after band between the wire and a copy, the
    /// copy and a copy of it, and at last between the last copy and the
    /// wire itself. In one step the one band lies between the wire and
    /// itself.
    #[verifier::rlimit(100)]
    #[verifier::spinoff_prover]
    pub fn closed_sweep<
        S,
        FP: Fn(&P) -> P,
        FC: Fn(&C) -> C,
        CP: Fn(&P, &P) -> C,
        CE: Fn(&C, &C) -> S,
    >(
        &self,
        ids: &mut IdSource,
        point_mapping: &FP,
        curve_mapping: &FC,
        connect_points: &CP,
        connect_curves: &CE,
        division: usize,
    ) -> (shell: Shell<P, C, S>)
        requires
            division >= 1,
            old(ids).remaining() >= 6 * self@.len() * division,
            coherent(wire_scope(self@)),
            forall|p: P| point_mapping.requires((&p,)),
            forall|c: C| curve_mapping.requires((&c,)),
            forall|a: P, b: P| connect_points.requires((&a, &b)),
            forall|c: C, d: C| connect_curves.requires((&c, &d)),
        ensures
            old(ids).issued() <= final(ids).issued() <= old(ids).issued() + 6 * self@.len()
                * division,
            is_wire_ring(
                self@,
                shell@,
                division as int,
                |p: P, q: P| point_mapping.ensures((&p,), q),
                |c: C, d: C| curve_mapping.ensures((&c,), d),
                |a: P, b: P, c: C| connect_points.ensures((&a, &b), c),
                |c: C, d: C, s: S| connect_curves.ensures((&c, &d), s),
                old(ids).issued(),
                final(ids).issued(),
            ),
    {
        let ghost vrel = |p: P, q: P| point_mapping.ensures((&p,), q);
        let ghost crel = |c: C, d: C| curve_mapping.ensures((&c,), d);
        let ghost prel = |a: P, b: P, c: C| connect_points.ensures((&a, &b), c);
        let ghost srel = |c: C, d: C, s: S| connect_curves.ensures((&c, &d), s);
        let ghost base = ids.issued();
        let ghost n = self@.len() as int;
        let ghost mut layers: Seq<Seq<EdgeModel<P, C>>> = seq![self@];
        let ghost mut bands: Seq<Seq<FaceModel<P, C, S>>> = Seq::empty();
        let ghost mut marks: Seq<nat> = seq![base];
        let mut shell: Shell<P, C, S> = Shell::new();
        let mut wire = self.clone();
        let mut i: usize = 1;
        proof {
            assert(6 * n * division == 6 * n * (division - 1) + 6 * n) by (nonlinear_arith);
            assert(shell@ =~= concat(bands, 0));
            lemma_matched_refl(self@);
        }
        while i < division
            invariant
                1 <= i <= division,
                n == self@.len(),
                base == old(ids).issued(),
                old(ids).remaining() >= 6 * n * division,
                base <= ids.issued() <= base + 6 * n * (i - 1),
                coherent(wire_scope(self@)),
                forall|p: P| point_mapping.requires((&p,)),
                forall|c: C| curve_mapping.requires((&c,)),
                forall|a: P, b: P| connect_points.requires((&a, &b)),
                forall|c: C, d: C| connect_curves.requires((&c, &d)),
                vrel == (|p: P, q: P| point_mapping.ensures((&p,), q)),
                crel == (|c: C, d: C| curve_mapping.ensures((&c,), d)),
                prel == (|a: P, b: P, c: C| connect_points.ensures((&a, &b), c)),
                srel == (|c: C, d: C, s: S| connect_curves.ensures((&c, &d), s)),
                layers.len() == i,
                bands.len() == i - 1,
                marks.len() == 2 * i - 1,
                layers[0] == self@,
                marks[0] == base,
                marks[2 * i - 2] == ids.issued(),
                wire@ == layers[i - 1],
                wire@.len() == n,
                coherent(wire_scope(wire@)),
                matched(wire@, self@),
                forall|k: int| 0 <= k < 2 * i - 2 ==> (#[trigger] marks[k]) <= marks[k + 1],
                forall|k: int|
                    1 <= k < i ==> is_wire_copy(
                        layers[k - 1],
                        #[trigger] layers[k],
                        vrel,
                        crel,
                        marks[2 * k - 2],
                        marks[2 * k - 1],
                    ),
                forall|k: int|
                    0 <= k < i - 1 ==> is_band(
                        layers[k],
                        layers[k + 1],
                        #[trigger] bands[k],
                        prel,
                        srel,
                        marks[2 * k + 1],
                        marks[2 * k + 2],
                    ),
                shell@ == concat(bands, (i - 1) as nat),
            decreases division - i,
        {
            let ghost m0 = ids.issued();
            proof {
                assert(6 * n * division >= 6 * n * i + 6 * n) by (nonlinear_arith)
                    requires
                        i + 1 <= division,
                        n >= 0,
                ;
                assert(6 * n * i == 6 * n * (i - 1) + 6 * n) by (nonlinear_arith);
            }
            let next = wire.mapped(ids, point_mapping, curve_mapping);
            let ghost m1 = ids.issued();
            proof {
                lemma_wire_copy_facts(wire@, next@, vrel, crel, m0, m1);
            }
            let faces = connect_wires(ids, &wire, &next, connect_points, connect_curves);
            let ghost m2 = ids.issued();
            let band = Shell::from_faces(faces);
            proof {
                let old_layers = layers;
                let old_bands = bands;
                let old_marks = marks;
                layers = layers.push(next@);
                bands = bands.push(band@);
                marks = marks.push(m1).push(m2);
                assert forall|k: int| 0 <= k < 2 * (i + 1) - 2 implies (#[trigger] marks[k])
                    <= marks[k + 1] by {
                    if k < 2 * i - 2 {
                        assert(marks[k] == old_marks[k]);
                        assert(marks[k + 1] == old_marks[k + 1]);
                    }
                }
                assert forall|k: int| 1 <= k < i + 1 implies is_wire_copy(
                    layers[k - 1],
                    #[trigger] layers[k],
                    vrel,
                    crel,
                    marks[2 * k - 2],
                    marks[2 * k - 1],
                ) by {
                    if k < i {
                        assert(layers[k] == old_layers[k]);
                        assert(layers[k - 1] == old_layers[k - 1]);
                        assert(marks[2 * k - 2] == old_marks[2 * k - 2]);
                        assert(marks[2 * k - 1] == old_marks[2 * k - 1]);
                    }
                }
                assert forall|k: int| 0 <= k < i implies is_band(
                    layers[k],
                    layers[k + 1],
                    #[trigger] bands[k],
                    prel,
                    srel,
                    marks[2 * k + 1],
                    marks[2 * k + 2],
                ) by {
                    if k < i - 1 {
                        assert(bands[k] == old_bands[k]);
                        assert(layers[k] == old_layers[k]);
                        assert(layers[k + 1] == old_layers[k + 1]);
                        assert(marks[2 * k + 1] == old_marks[2 * k + 1]);
                        assert(marks[2 * k + 2] == old_marks[2 * k + 2]);
                    }
                }
                lemma_matched_trans(next@, wire@, self@);
                lemma_concat_push(old_bands, band@);
            }
            shell.extend(band);
            wire = next;
            i += 1;
        }
        let ghost m0 = ids.issued();
        proof {
            assert(6 * n * division == 6 * n * (division - 1) + 6 * n) by (nonlinear_arith);
        }
        let faces = connect_wires(ids, &wire, self, connect_points, connect_curves);
        let band = Shell::from_faces(faces);
        proof {
            let d = division as int;
            let old_bands = bands;
            let old_marks = marks;
            bands = bands.push(band@);
            marks = marks.push(ids.issued());
            assert forall|k: int| 0 <= k < 2 * d - 1 implies (#[trigger] marks[k]) <= marks[k
                + 1] by {
                if k < 2 * d - 2 {
                    assert(marks[k] == old_marks[k]);
                    assert(marks[k + 1] == old_marks[k + 1]);
                }
            }
            assert forall|k: int| 1 <= k < d implies is_wire_copy(
                layers[k - 1],
                #[trigger] layers[k],
                vrel,
                crel,
                marks[2 * k - 2],
                marks[2 * k - 1],
            ) by {
                assert(marks[2 * k - 2] == old_marks[2 * k - 2]);
                assert(marks[2 * k - 1] == old_marks[2 * k - 1]);
            }
            assert forall|k: int| 0 <= k < d - 1 implies is_band(
                layers[k],
                layers[k + 1],
                #[trigger] bands[k],
                prel,
                srel,
                marks[2 * k + 1],
                marks[2 * k + 2],
            ) by {
                assert(bands[k] == old_bands[k]);
                assert(marks[2 * k + 1] == old_marks[2 * k + 1]);
                assert(marks[2 * k + 2] == old_marks[2 * k + 2]);
            }
            lemma_concat_push(old_bands, band@);
        }
        shell.extend(band);
        proof {
            assert(wire_ring_ok(
                self@,
                layers,
                bands,
                marks,
                shell@,
                division as int,
                vrel,
                crel,
                prel,
                srel,
            ));
        }
        shell
    }
}

/// A wire matches itself.
pub proof fn lemma_matched_refl<P, C>(w: Seq<EdgeModel<P, C>>)
    ensures
        matched(w, w),
{
}

/// Joining all of a sequence of sequences with one more is joining all of
/// the longer sequence.
pub proof fn lemma_concat_push<A>(ss: Seq<Seq<A>>, last: Seq<A>)
    ensures
        concat(ss.push(last), (ss.len() + 1) as nat) == concat(ss, ss.len()) + last,
{
    lemma_concat_prefix(ss.push(last), ss, ss.len());
}

/// Joining the first sequences of two sequences that begin alike gives the
/// same.
pub proof fn lemma_concat_prefix<A>(a: Seq<Seq<A>>, b: Seq<Seq<A>>, n: nat)
    requires
        n <= a.len(),
        n <= b.len(),
        forall|i: int| 0 <= i < n ==> a[i] == b[i],
    ensures
        concat(a, n) == concat(b, n),
    decreases n,
{
    if n > 0 {
        lemma_concat_prefix(a, b, (n - 1) as nat);
    }
}

/// `wire` is the ring that becomes of the vertex `v` when it is swept
/// round in `d` steps: `layers` are `v` and copy after copy of it, each edge
/// runs from a layer to the next, and the last from the last layer to `v`.
pub open spec fn vertex_ring_ok<P, C>(
    v: VertexModel<P>,
    layers: Seq<VertexModel<P>>,
    wire: Seq<EdgeModel<P, C>>,
    d: int,
    vrel: spec_fn(P, P) -> bool,
    prel: spec_fn(P, P, C) -> bool,
    base: nat,
) -> bool {
    &&& d >= 1
    &&& layers.len() == d
    &&& wire.len() == d
    &&& layers[0] == v
    &&& forall|i: int|
        1 <= i < d ==> vrel(layers[i - 1].point, (#[trigger] layers[i]).point) && layers[i].id as nat
            == base + 2 * (i - 1)
    &&& forall|i: int|
        0 <= i < d - 1 ==> (#[trigger] wire[i]).start == layers[i] && wire[i].end == layers[i + 1]
            && is_link(wire[i], prel) && wire[i].id as nat == base + 2 * i + 1
    &&& wire[d - 1].start == layers[d - 1]
    &&& wire[d - 1].end == v
    &&& is_link(wire[d - 1], prel)
    &&& wire[d - 1].id as nat == base + 2 * (d - 1)
}

/// `wire` is the ring that becomes of the vertex `v` when it is swept
/// round in `d` steps, with the identities from `base` on.
pub open spec fn is_vertex_ring<P, C>(
    v: VertexModel<P>,
    wire: Seq<EdgeModel<P, C>>,
    d: int,
    vrel: spec_fn(P, P) -> bool,
    prel: spec_fn(P, P, C) -> bool,
    base: nat,
) -> bool {
    exists|layers: Seq<VertexModel<P>>| #[trigger]
        vertex_ring_ok(v, layers, wire, d, vrel, prel, base)
}

impl<P> Vertex<P> {
    /// The closed wire that the vertex sweeps when it is carried round in
    /// `division` steps: edge after edge from the vertex to a copy, from
    /// the copy to a copy of it, and at last from the last copy back to the
    /// vertex itself. In one step it is the one edge from the vertex to
    /// itself.
    pub fn closed_sweep<C, FP: Fn(&P) -> P, CP: Fn(&P, &P) -> C>(
        &self,
        ids: &mut IdSource,
        point_mapping: &FP,
        connect_points: &CP,
        division: usize,
    ) -> (wire: Wire<P, C>)
        requires
            division >= 1,
            old(ids).remaining() >= 2 * (division - 1) + 1,
            forall|p: P| point_mapping.requires((&p,)),
            forall|a: P, b: P| connect_points.requires((&a, &b)),
        ensures
            final(ids).issued() == old(ids).issued() + 2 * (division - 1) + 1,
            is_closed(wire@),
            is_vertex_ring(
                self@,
                wire@,
                division as int,
                |p: P, q: P| point_mapping.ensures((&p,), q),
                |a: P, b: P, c: C| connect_points.ensures((&a, &b), c),
                old(ids).issued(),
            ),
    {
        let ghost vrel = |p: P, q: P| point_mapping.ensures((&p,), q);
        let ghost prel = |a: P, b: P, c: C| connect_points.ensures((&a, &b), c);
        let ghost base = ids.issued();
        let ghost mut layers: Seq<VertexModel<P>> = seq![self@];
        let mut edges: Vec<Edge<P, C>> = Vec::new();
        let mut vertex = self.clone();
        let mut i: usize = 1;
        while i < division
            invariant
                1 <= i <= division,
                base == old(ids).issued(),
                old(ids).remaining() >= 2 * (division - 1) + 1,
                ids.issued() == base + 2 * (i - 1),
                forall|p: P| point_mapping.requires((&p,)),
                forall|a: P, b: P| connect_points.requires((&a, &b)),
                vrel == (|p: P, q: P| point_mapping.ensures((&p,), q)),
                prel == (|a: P, b: P, c: C| connect_points.ensures((&a, &b), c)),
                layers.len() == i,
                layers[0] == self@,
                vertex@ == layers[i - 1],
                edges@.len() == i - 1,
                forall|k: int|
                    1 <= k < i ==> vrel(layers[k - 1].point, (#[trigger] layers[k]).point)
                        && layers[k].id as nat == base + 2 * (k - 1),
                forall|k: int|
                    0 <= k < i - 1 ==> (#[trigger] edges@[k])@.start == layers[k] && edges@[k]@.end
                        == layers[k + 1] && is_link(edges@[k]@, prel) && edges@[k]@.id as nat
                        == base + 2 * k + 1,
            decreases division - i,
        {
            let next = vertex.mapped(ids, point_mapping);
            let e = connect_vertices(ids, &vertex, &next, connect_points);
            proof {
                let before = layers;
                layers = layers.push(next@);
                assert forall|k: int| 1 <= k < i + 1 implies vrel(
                    layers[k - 1].point,
                    (#[trigger] layers[k]).point,
                ) && layers[k].id as nat == base + 2 * (k - 1) by {
                    if k < i {
                        assert(layers[k] == before[k]);
                        assert(layers[k - 1] == before[k - 1]);
                    }
                }
            }
            let ghost done = edges@;
            edges.push(e);
            proof {
                assert forall|k: int| 0 <= k < i implies (#[trigger] edges@[k])@.start == layers[k]
                    && edges@[k]@.end == layers[k + 1] && is_link(edges@[k]@, prel)
                    && edges@[k]@.id as nat == base + 2 * k + 1 by {
                    if k < i - 1 {
                        assert(edges@[k] == done[k]);
                    }
                }
            }
            vertex = next;
            i += 1;
        }
        let e = connect_vertices(ids, &vertex, self, connect_points);
        let ghost done = edges@;
        edges.push(e);
        proof {
            let d = division as int;
            let w = Seq::new(edges@.len(), |k: int| edges@[k]@);
            assert forall|k: int| 0 <= k < d - 1 implies (#[trigger] w[k]).start == layers[k]
                && w[k].end == layers[k + 1] && is_link(w[k], prel) && w[k].id as nat == base + 2
                * k + 1 by {
                assert(edges@[k] == done[k]);
            }
            assert forall|k: int| 0 <= k < w.len() - 1 implies (#[trigger] w[k]).back().id == w[k
                + 1].front().id by {
                if k + 1 < d - 1 {
                    assert(w[k + 1].start == layers[k + 1]);
                }
            }
            assert(vertex_ring_ok(self@, layers, w, d, vrel, prel, base));
            if d > 1 {
                assert(w[0].start == layers[0]);
            }
        }
        Wire::from_chain(edges)
    }
}

/// What `Solid::try_new` answers to the shells `shells`.
pub open spec fn solid_of<P, C, S>(
    res: Result<Solid<P, C, S>, Error>,
    shells: Seq<Seq<FaceModel<P, C, S>>>,
) -> bool {
    match first_fault(shells, shells.len()) {
        Some(e) => res == Err::<Solid<P, C, S>, Error>(e),
        None => res is Ok && res->Ok_0@ == shells,
    }
}

/// The faces, each seen from its other side.
pub open spec fn inverse_faces<P, C, S>(fs: Seq<FaceModel<P, C, S>>) -> Seq<FaceModel<P, C, S>> {
    Seq::new(fs.len(), |k: int| fs[k].inverse())
}

/// `rings` are what becomes of the boundary wires `b` of a face when each
/// is swept round in `d` steps: ring by ring the ring of the wire, with
/// every face turned over if the face looks against its normal. The
/// identities of each ring lie between two marks, and the marks do not
/// decrease.
pub open spec fn face_rings_ok<P, C, S>(
    b: Seq<Seq<EdgeModel<P, C>>>,
    forward: bool,
    rings: Seq<Seq<FaceModel<P, C, S>>>,
    marks: Seq<nat>,
    d: int,
    vrel: spec_fn(P, P) -> bool,
    crel: spec_fn(C, C) -> bool,
    prel: spec_fn(P, P, C) -> bool,
    srel: spec_fn(C, C, S) -> bool,
) -> bool {
    &&& rings.len() == b.len()
    &&& marks.len() == b.len() + 1
    &&& forall|w: int|
        0 <= w < b.len() ==> is_wire_ring(
            b[w],
            if forward {
                #[trigger] rings[w]
            } else {
                inverse_faces(rings[w])
            },
            d,
            vrel,
            crel,
            prel,
            srel,
            marks[w],
            marks[w + 1],
        )
}

/// `res` is what `Solid::try_new` answers to the rings that become of the
/// boundary wires `b` of a face when each is swept round in `d` steps, with
/// identities from `base` on.
pub open spec fn is_face_ring<P, C, S>(
    b: Seq<Seq<EdgeModel<P, C>>>,
    forward: bool,
    res: Result<Solid<P, C, S>, Error>,
    d: int,
    vrel: spec_fn(P, P) -> bool,
    crel: spec_fn(C, C) -> bool,
    prel: spec_fn(P, P, C) -> bool,
    srel: spec_fn(C, C, S) -> bool,
    base: nat,
) -> bool {
    exists|rings: Seq<Seq<FaceModel<P, C, S>>>, marks: Seq<nat>|
        #[trigger] face_rings_ok(b, forward, rings, marks, d, vrel, crel, prel, srel) && marks[0]
            == base && solid_of(res, rings)
}

/// As many identities as rings round the first `n` wires can need.
pub open spec fn rings_cost<P, C>(b: Seq<Seq<EdgeModel<P, C>>>, d: int, n: nat) -> int
    decreases n,
{
    if n == 0 {
        0
    } else {
        rings_cost(b, d, (n - 1) as nat) + 6 * b[n - 1].len() * d
    }
}

/// The cost of the first rings does not exceed the cost of more.
pub proof fn lemma_rings_cost_mono<P, C>(b: Seq<Seq<EdgeModel<P, C>>>, d: int, m: nat, n: nat)
    requires
        m <= n,
        d >= 0,
    ensures
        0 <= rings_cost(b, d, m) <= rings_cost(b, d, n),
    decreases n,
{
    if m < n {
        lemma_rings_cost_mono(b, d, m, (n - 1) as nat);
        assert(6 * b[n - 1].len() * d >= 0) by (nonlinear_arith)
            requires
                d >= 0,
                b[n - 1].len() >= 0,
        ;
    } else if n > 0 {
        lemma_rings_cost_mono(b, d, (n - 1) as nat, (n - 1) as nat);
        assert(6 * b[n - 1].len() * d >= 0) by (nonlinear_arith)
            requires
                d >= 0,
                b[n - 1].len() >= 0,
        ;
    }
}

impl<P, C, S> Face<P, C, S> {
    /// The solid that the face sweeps when it is carried round in
    /// `division` steps: each boundary wire, as the face sees it, sweeps a
    /// ring, the faces of the rings are turned over if the face looks
    /// against its normal, and the rings are the shells of the solid, if
    /// they can bound one. Otherwise the fault of the first that cannot.
    pub fn closed_sweep<FP: Fn(&P) -> P, FC: Fn(&C) -> C, CP: Fn(&P, &P) -> C, CE: Fn(&C, &C) -> S>(
        &self,
        ids: &mut IdSource,
        point_mapping: &FP,
        curve_mapping: &FC,
        connect_points: &CP,
        connect_curves: &CE,
        division: usize,
    ) -> (res: Result<Solid<P, C, S>, Error>)
        requires
            division >= 1,
            old(ids).remaining() >= rings_cost(
                self@.oriented_boundaries(),
                division as int,
                self@.boundaries.len(),
            ),
            forall|w: int|
                0 <= w < self@.boundaries.len() ==> coherent(
                    wire_scope(#[trigger] self@.oriented_boundaries()[w]),
                ),
            forall|p: P| point_mapping.requires((&p,)),
            forall|c: C| curve_mapping.requires((&c,)),
            forall|a: P, b: P| connect_points.requires((&a, &b)),
            forall|c: C, d: C| connect_curves.requires((&c, &d)),
        ensures
            old(ids).issued() <= final(ids).issued() <= old(ids).issued() + rings_cost(
                self@.oriented_boundaries(),
                division as int,
                self@.boundaries.len(),
            ),
            is_face_ring(
                self@.oriented_boundaries(),
                self@.forward,
                res,
                division as int,
                |p: P, q: P| point_mapping.ensures((&p,), q),
                |c: C, d: C| curve_mapping.ensures((&c,), d),
                |a: P, b: P, c: C| connect_points.ensures((&a, &b), c),
                |c: C, d: C, s: S| connect_curves.ensures((&c, &d), s),
                old(ids).issued(),
            ),
    {
        let ghost vrel = |p: P, q: P| point_mapping.ensures((&p,), q);
        let ghost crel = |c: C, d: C| curve_mapping.ensures((&c,), d);
        let ghost prel = |a: P, b: P, c: C| connect_points.ensures((&a, &b), c);
        let ghost srel = |c: C, d: C, s: S| connect_curves.ensures((&c, &d), s);
        let ghost base = ids.issued();
        let ghost b = self@.oriented_boundaries();
        let ghost d = division as int;
        let ws = self.boundaries();
        let n = ws.len();
        let forward = self.orientation();
        let ghost mut marks: Seq<nat> = seq![base];
        let mut shells: Vec<Shell<P, C, S>> = Vec::new();
        let mut w: usize = 0;
        while w < n
            invariant
                division >= 1,
                d == division,
                n == ws@.len(),
                n == b.len(),
                w <= n,
                crate::face::wire_views(ws@) == b,
                forward == self@.forward,
                base == old(ids).issued(),
                old(ids).remaining() >= rings_cost(b, d, n as nat),
                base <= ids.issued() <= base + rings_cost(b, d, w as nat),
                forall|w: int|
                    0 <= w < b.len() ==> coherent(wire_scope(#[trigger] b[w])),
                forall|p: P| point_mapping.requires((&p,)),
                forall|c: C| curve_mapping.requires((&c,)),
                forall|a: P, b: P| connect_points.requires((&a, &b)),
                forall|c: C, d: C| connect_curves.requires((&c, &d)),
                vrel == (|p: P, q: P| point_mapping.ensures((&p,), q)),
                crel == (|c: C, d: C| curve_mapping.ensures((&c,), d)),
                prel == (|a: P, b: P, c: C| connect_points.ensures((&a, &b), c)),
                srel == (|c: C, d: C, s: S| connect_curves.ensures((&c, &d), s)),
                shells@.len() == w,
                marks.len() == w + 1,
                marks[0] == base,
                marks[w as int] == ids.issued(),
                forall|k: int|
                    0 <= k < w ==> is_wire_ring(
                        b[k],
                        if forward {
                            (#[trigger] shells@[k])@
                        } else {
                            inverse_faces(shells@[k]@)
                        },
                        d,
                        vrel,
                        crel,
                        prel,
                        srel,
                        marks[k],
                        marks[k + 1],
                    ),
            decreases n - w,
        {
            proof {
                lemma_rings_cost_mono(b, d, (w + 1) as nat, n as nat);
                lemma_rings_cost_mono(b, d, w as nat, w as nat);
                assert(crate::face::wire_views(ws@)[w as int] == ws@[w as int]@);
                assert(coherent(wire_scope(b[w as int])));
            }
            let mut shell = ws[w].closed_sweep(
                ids,
                point_mapping,
                curve_mapping,
                connect_points,
                connect_curves,
                division,
            );
            let ghost ring = shell@;
            if !forward {
                shell.invert_faces();
                proof {
                    assert(inverse_faces(shell@) =~= ring) by {
                        assert forall|k: int| 0 <= k < ring.len() implies inverse_faces(shell@)[k]
                            == ring[k] by {
                            assert(shell@[k] == ring[k].inverse());
                        }
                    }
                }
            }
            let ghost done = shells@;
            let ghost old_marks = marks;
            shells.push(shell);
            proof {
                marks = marks.push(ids.issued());
                assert forall|k: int| 0 <= k < w + 1 implies is_wire_ring(
                    b[k],
                    if forward {
                        (#[trigger] shells@[k])@
                    } else {
                        inverse_faces(shells@[k]@)
                    },
                    d,
                    vrel,
                    crel,
                    prel,
                    srel,
                    marks[k],
                    marks[k + 1],
                ) by {
                    if k < w {
                        assert(shells@[k] == done[k]);
                        assert(marks[k] == old_marks[k]);
                        assert(marks[k + 1] == old_marks[k + 1]);
                    }
                }
            }
            w += 1;
        }
        let ghost rings = shell_views(shells@);
        proof {
            assert forall|k: int| 0 <= k < b.len() implies is_wire_ring(
                b[k],
                if forward {
                    #[trigger] rings[k]
                } else {
                    inverse_faces(rings[k])
                },
                d,
                vrel,
                crel,
                prel,
                srel,
                marks[k],
                marks[k + 1],
            ) by {
                assert(rings[k] == shells@[k]@);
            }
            assert(face_rings_ok(b, forward, rings, marks, d, vrel, crel, prel, srel));
        }
        let res = Solid::try_new(shells);
        proof {
            assert(solid_of(res, rings));
        }
        res
    }
}

} // verus!
