//! What holds of the operations together.
use vstd::prelude::*;
use crate::edge::EdgeModel;
use crate::errors::Error;
use crate::face::{all_loops, boundary_fault, is_loop, loops_before, FaceModel};
use crate::likeness::alike;
use crate::mapping::{
    edge_fits, face_fits, is_face_copy, is_shell_copy, is_solid_copy, lemma_copy_alike,
    lemma_copy_boundary, lemma_fits_loop, shell_fits, shell_scope, solid_fits, solid_scope,
    tables_ok, wire_fits, wires_scope, Tables,
};
use crate::polyline::{inside, tally, Crossing};
use crate::solid::{all_boundaries, is_boundary};
use crate::shell::{concat, uses_of};
use crate::sweep::{
    edge_cost, edge_ring_ok, is_band, is_edge_copy, is_edge_ring, is_edge_sweep, is_join, is_link,
    is_span, is_vertex_ring, is_vertex_sweep, is_wire_ring, quad, vertex_ring_ok, wire_ring_ok,
};
use crate::tessellation::is_tessellation;
use crate::vertex::VertexModel;
use crate::wire::{inverse_of, is_chain, is_closed, is_simple, Wire};

verus! {

/// Turning a handle of an edge round twice gives the handle: the same edge
/// in the same direction.
pub proof fn law_inverse_twice<P, C>(x: EdgeModel<P, C>)
    ensures
        x.inverse().inverse() == x,
        x.inverse().id == x.id,
        x.inverse().forward != x.forward,
        x.inverse().front() == x.back(),
        x.inverse().back() == x.front(),
{
}

/// Turning a face over twice gives the face.
pub proof fn law_face_inverse_twice<P, C, S>(x: FaceModel<P, C, S>)
    ensures
        x.inverse().inverse() == x,
        x.inverse().id == x.id,
{
}

/// Running a wire backwards twice gives the wire.
pub proof fn law_wire_inverse_twice<P, C>(w: Seq<EdgeModel<P, C>>)
    ensures
        inverse_of(inverse_of(w)) == w,
{
    crate::wire::lemma_inverse_twice(w);
}

/// A copy of a shell shares what the shell shares and nothing else: the
/// handles at two places of the copy are handles of one edge exactly when
/// the handles at the same places of the shell are, and ends of them are
/// one vertex exactly when the same ends in the shell are.
pub proof fn law_copy_keeps_sharing<P, C, S, Q, D, T>(
    xs: Seq<FaceModel<P, C, S>>,
    ys: Seq<FaceModel<Q, D, T>>,
    vrel: spec_fn(P, Q) -> bool,
    crel: spec_fn(C, D) -> bool,
    srel: spec_fn(S, T) -> bool,
    base: nat,
    now: nat,
    f: int,
    w: int,
    k: int,
    g: int,
    v: int,
    l: int,
)
    requires
        is_shell_copy(xs, ys, vrel, crel, srel, base, now),
        0 <= f < xs.len(),
        0 <= w < xs[f].boundaries.len(),
        0 <= k < xs[f].boundaries[w].len(),
        0 <= g < xs.len(),
        0 <= v < xs[g].boundaries.len(),
        0 <= l < xs[g].boundaries[v].len(),
    ensures
        ys.len() == xs.len(),
        ys[f].boundaries.len() == xs[f].boundaries.len(),
        ys[f].boundaries[w].len() == xs[f].boundaries[w].len(),
        ys[g].boundaries.len() == xs[g].boundaries.len(),
        ys[g].boundaries[v].len() == xs[g].boundaries[v].len(),
        ys[f].boundaries[w][k].forward == xs[f].boundaries[w][k].forward,
        (xs[f].boundaries[w][k].id == xs[g].boundaries[v][l].id) == (ys[f].boundaries[w][k].id
            == ys[g].boundaries[v][l].id),
        (xs[f].boundaries[w][k].start.id == xs[g].boundaries[v][l].start.id) == (
        ys[f].boundaries[w][k].start.id == ys[g].boundaries[v][l].start.id),
        (xs[f].boundaries[w][k].start.id == xs[g].boundaries[v][l].end.id) == (
        ys[f].boundaries[w][k].start.id == ys[g].boundaries[v][l].end.id),
        (xs[f].boundaries[w][k].end.id == xs[g].boundaries[v][l].end.id) == (
        ys[f].boundaries[w][k].end.id == ys[g].boundaries[v][l].end.id),
        xs[f].boundaries[w][k].id == xs[g].boundaries[v][l].id ==> ys[f].boundaries[w][k].curve
            == ys[g].boundaries[v][l].curve,
        base <= ys[f].boundaries[w][k].id < now,
{
    let t = choose|t: Tables<Q, D>| #[trigger]
        shell_fits(xs, ys, t, srel) && tables_ok(t, shell_scope(xs), vrel, crel, base, now);
    assert(face_fits(xs[f], ys[f], t, srel));
    assert(face_fits(xs[g], ys[g], t, srel));
    assert(wire_fits(xs[f].boundaries[w], ys[f].boundaries[w], t));
    assert(wire_fits(xs[g].boundaries[v], ys[g].boundaries[v], t));
    let x = xs[f].boundaries[w][k];
    let y = xs[g].boundaries[v][l];
    assert(edge_fits(x, ys[f].boundaries[w][k], t));
    assert(edge_fits(y, ys[g].boundaries[v][l], t));
    assert(t.edge.contains_key(x.id) && t.edge.contains_key(y.id));
    assert(t.vertex.contains_key(x.start.id) && t.vertex.contains_key(y.start.id));
    assert(t.vertex.contains_key(x.start.id) && t.vertex.contains_key(y.end.id));
    assert(t.vertex.contains_key(x.end.id) && t.vertex.contains_key(y.end.id));
}

/// A copy of a face whose boundary wires are simple has simple boundary
/// wires: what `Face::try_new` accepts, it accepts in a copy.
pub proof fn law_copy_keeps_simple<P, C, S, Q, D, T>(
    x: FaceModel<P, C, S>,
    y: FaceModel<Q, D, T>,
    vrel: spec_fn(P, Q) -> bool,
    crel: spec_fn(C, D) -> bool,
    srel: spec_fn(S, T) -> bool,
    base: nat,
    now: nat,
)
    requires
        is_face_copy(x, y, vrel, crel, srel, base, now),
        all_loops(x.boundaries),
    ensures
        all_loops(y.boundaries),
{
    let t = choose|t: Tables<Q, D>| #[trigger]
        face_fits(x, y, t, srel) && tables_ok(t, wires_scope(x.boundaries), vrel, crel, base, now);
    assert forall|w: int| 0 <= w < y.boundaries.len() implies is_loop(#[trigger] y.boundaries[w]) by {
        assert(wire_fits(x.boundaries[w], y.boundaries[w], t));
        assert(is_loop(x.boundaries[w]));
        lemma_fits_loop(x.boundaries[w], y.boundaries[w], t);
    }
}

/// A copy of a shell fits together as the shell does: it has the same
/// condition, is connected if the shell is, has a singular vertex where the
/// shell has one, and can bound a solid if the shell can.
pub proof fn law_copy_keeps_fate<P, C, S, Q, D, T>(
    xs: Seq<FaceModel<P, C, S>>,
    ys: Seq<FaceModel<Q, D, T>>,
    vrel: spec_fn(P, Q) -> bool,
    crel: spec_fn(C, D) -> bool,
    srel: spec_fn(S, T) -> bool,
    base: nat,
    now: nat,
)
    requires
        is_shell_copy(xs, ys, vrel, crel, srel, base, now),
    ensures
        ys.len() == xs.len(),
        alike(uses_of(xs), uses_of(ys)),
        crate::shell::condition_of(uses_of(xs)) == crate::shell::condition_of(uses_of(ys)),
        crate::shell::is_connected(xs) == crate::shell::is_connected(ys),
        crate::shell::is_manifold(uses_of(xs)) == crate::shell::is_manifold(uses_of(ys)),
        is_boundary(xs) == is_boundary(ys),
{
    lemma_copy_boundary(xs, ys, vrel, crel, srel, base, now);
    crate::likeness::lemma_alike_fate(xs, ys);
}

/// A copy of shells that can bound a solid can bound a solid.
pub proof fn law_copy_of_solid<P, C, S, Q, D, T>(
    xs: Seq<Seq<FaceModel<P, C, S>>>,
    ys: Seq<Seq<FaceModel<Q, D, T>>>,
    vrel: spec_fn(P, Q) -> bool,
    crel: spec_fn(C, D) -> bool,
    srel: spec_fn(S, T) -> bool,
    base: nat,
    now: nat,
)
    requires
        is_solid_copy(xs, ys, vrel, crel, srel, base, now),
        all_boundaries(xs),
    ensures
        all_boundaries(ys),
{
    let t = choose|t: Tables<Q, D>| #[trigger]
        solid_fits(xs, ys, t, srel) && tables_ok(t, solid_scope(xs), vrel, crel, base, now);
    assert forall|i: int| 0 <= i < ys.len() implies is_boundary(#[trigger] ys[i]) by {
        assert(is_boundary(xs[i]));
        assert(shell_fits(xs[i], ys[i], t, srel));
        lemma_copy_alike(xs[i], ys[i], t, srel);
        crate::likeness::lemma_alike_fate(xs[i], ys[i]);
    }
}

/// A copy of a solid shares what the solid shares and nothing else, in one
/// shell or in two: the handles at two places of the copy are handles of
/// one edge exactly when the handles at the same places of the solid are,
/// and ends of them are one vertex exactly when the same ends in the solid
/// are. Faces at two places of the copy are two faces.
pub proof fn law_copy_of_solid_keeps_sharing<P, C, S, Q, D, T>(
    xs: Seq<Seq<FaceModel<P, C, S>>>,
    ys: Seq<Seq<FaceModel<Q, D, T>>>,
    vrel: spec_fn(P, Q) -> bool,
    crel: spec_fn(C, D) -> bool,
    srel: spec_fn(S, T) -> bool,
    base: nat,
    now: nat,
    i: int,
    f: int,
    w: int,
    k: int,
    j: int,
    g: int,
    v: int,
    l: int,
)
    requires
        is_solid_copy(xs, ys, vrel, crel, srel, base, now),
        0 <= i < xs.len(),
        0 <= f < xs[i].len(),
        0 <= w < xs[i][f].boundaries.len(),
        0 <= k < xs[i][f].boundaries[w].len(),
        0 <= j < xs.len(),
        0 <= g < xs[j].len(),
        0 <= v < xs[j][g].boundaries.len(),
        0 <= l < xs[j][g].boundaries[v].len(),
    ensures
        ys.len() == xs.len(),
        ys[i].len() == xs[i].len(),
        ys[j].len() == xs[j].len(),
        ys[i][f].boundaries.len() == xs[i][f].boundaries.len(),
        ys[i][f].boundaries[w].len() == xs[i][f].boundaries[w].len(),
        ys[j][g].boundaries.len() == xs[j][g].boundaries.len(),
        ys[j][g].boundaries[v].len() == xs[j][g].boundaries[v].len(),
        i != j || f != g ==> ys[i][f].id != ys[j][g].id,
        base <= ys[i][f].id < now,
        ys[i][f].boundaries[w][k].forward == xs[i][f].boundaries[w][k].forward,
        (xs[i][f].boundaries[w][k].id == xs[j][g].boundaries[v][l].id) == (
        ys[i][f].boundaries[w][k].id == ys[j][g].boundaries[v][l].id),
        (xs[i][f].boundaries[w][k].start.id == xs[j][g].boundaries[v][l].start.id) == (
        ys[i][f].boundaries[w][k].start.id == ys[j][g].boundaries[v][l].start.id),
        (xs[i][f].boundaries[w][k].start.id == xs[j][g].boundaries[v][l].end.id) == (
        ys[i][f].boundaries[w][k].start.id == ys[j][g].boundaries[v][l].end.id),
        (xs[i][f].boundaries[w][k].end.id == xs[j][g].boundaries[v][l].end.id) == (
        ys[i][f].boundaries[w][k].end.id == ys[j][g].boundaries[v][l].end.id),
        xs[i][f].boundaries[w][k].id == xs[j][g].boundaries[v][l].id
            ==> ys[i][f].boundaries[w][k].curve == ys[j][g].boundaries[v][l].curve,
        base <= ys[i][f].boundaries[w][k].id < now,
{
    let t = choose|t: Tables<Q, D>| #[trigger]
        solid_fits(xs, ys, t, srel) && tables_ok(t, solid_scope(xs), vrel, crel, base, now);
    assert(shell_fits(xs[i], ys[i], t, srel));
    assert(shell_fits(xs[j], ys[j], t, srel));
    assert(face_fits(xs[i][f], ys[i][f], t, srel));
    assert(face_fits(xs[j][g], ys[j][g], t, srel));
    assert(wire_fits(xs[i][f].boundaries[w], ys[i][f].boundaries[w], t));
    assert(wire_fits(xs[j][g].boundaries[v], ys[j][g].boundaries[v], t));
    let x = xs[i][f].boundaries[w][k];
    let y = xs[j][g].boundaries[v][l];
    assert(edge_fits(x, ys[i][f].boundaries[w][k], t));
    assert(edge_fits(y, ys[j][g].boundaries[v][l], t));
    assert(t.edge.contains_key(x.id) && t.edge.contains_key(y.id));
    assert(t.vertex.contains_key(x.start.id) && t.vertex.contains_key(y.start.id));
    assert(t.vertex.contains_key(x.start.id) && t.vertex.contains_key(y.end.id));
    assert(t.vertex.contains_key(x.end.id) && t.vertex.contains_key(y.end.id));
}

/// A tessellation has the topology of the shell: as many faces, the same
/// passages through shared edges, and where two handles in the shell are
/// handles of one edge, the two in the tessellation are handles of one edge
/// and run along one and the same polyline.
pub proof fn law_tessellation_keeps_topology<
    P: Clone,
    C,
    S,
    D,
    T,
    FS: Fn(&S, &Vec<Wire<P, D>>) -> Option<T>,
>(
    xs: Seq<FaceModel<P, C, S>>,
    ys: Seq<FaceModel<P, D, T>>,
    crel: spec_fn(C, D) -> bool,
    mesh: FS,
    base: nat,
    now: nat,
    f: int,
    w: int,
    k: int,
    g: int,
    v: int,
    l: int,
)
    requires
        is_tessellation(xs, ys, crel, mesh, base, now),
        0 <= f < xs.len(),
        0 <= w < xs[f].boundaries.len(),
        0 <= k < xs[f].boundaries[w].len(),
        0 <= g < xs.len(),
        0 <= v < xs[g].boundaries.len(),
        0 <= l < xs[g].boundaries[v].len(),
    ensures
        ys.len() == xs.len(),
        alike(uses_of(xs), uses_of(ys)),
        ys[f].forward == xs[f].forward,
        ys[f].boundaries.len() == xs[f].boundaries.len(),
        ys[f].boundaries[w].len() == xs[f].boundaries[w].len(),
        ys[g].boundaries.len() == xs[g].boundaries.len(),
        ys[g].boundaries[v].len() == xs[g].boundaries[v].len(),
        ys[f].boundaries[w][k].forward == xs[f].boundaries[w][k].forward,
        (xs[f].boundaries[w][k].id == xs[g].boundaries[v][l].id) == (ys[f].boundaries[w][k].id
            == ys[g].boundaries[v][l].id),
        xs[f].boundaries[w][k].id == xs[g].boundaries[v][l].id ==> ys[f].boundaries[w][k].curve
            == ys[g].boundaries[v][l].curve,
{
    let vrel = |p: P, q: P| cloned(p, q);
    let any = |s: S, u: T| true;
    law_copy_keeps_sharing(xs, ys, vrel, crel, any, base, now, f, w, k, g, v, l);
    law_copy_keeps_fate(xs, ys, vrel, crel, any, base, now);
    let t = choose|t: Tables<P, D>| #[trigger]
        shell_fits(xs, ys, t, any) && tables_ok(t, shell_scope(xs), vrel, crel, base, now);
    assert(face_fits(xs[f], ys[f], t, any));
}

/// Sweeping a vertex and then the edge that it swept gives a face with one
/// boundary of four edges: the swept edge, the side at its end, a copy of
/// the swept edge backwards, and the side at its start backwards. The sides
/// run from the ends of the swept edge to the ends of the copy.
pub proof fn law_sweep_twice<P, C, S>(
    v: VertexModel<P>,
    e: EdgeModel<P, C>,
    f: FaceModel<P, C, S>,
    vrel: spec_fn(P, P) -> bool,
    crel: spec_fn(C, C) -> bool,
    prel: spec_fn(P, P, C) -> bool,
    srel: spec_fn(C, C, S) -> bool,
    first: nat,
    second: nat,
)
    requires
        is_vertex_sweep(e, v, vrel, prel, first),
        is_edge_sweep(f, e, vrel, crel, prel, srel, second),
    ensures
        f.boundaries.len() == 1,
        f.boundaries[0].len() == 4,
        f.boundaries[0][0] == e,
        f.boundaries[0][0].start == v,
        exists|top: EdgeModel<P, C>, s0: EdgeModel<P, C>, s1: EdgeModel<P, C>|
            {
                &&& #[trigger] quad(e, top, s0, s1) == f.boundaries[0]
                &&& is_edge_copy(e, top, vrel, crel, second)
                &&& is_link(s0, prel)
                &&& is_link(s1, prel)
                &&& s0.start == v
                &&& s0.end == top.start
                &&& s1.start == e.end
                &&& s1.end == top.end
            },
{
    let top = choose|top: EdgeModel<P, C>| #[trigger]
        is_edge_copy(e, top, vrel, crel, second) && is_join(
            f,
            e,
            top,
            prel,
            srel,
            second + edge_cost(e),
        );
    let (s0, s1) = choose|s0: EdgeModel<P, C>, s1: EdgeModel<P, C>|
        {
            &&& #[trigger] is_span(f, e, top, s0, s1, prel, srel)
            &&& s0.start == e.front()
            &&& s0.end == top.front()
            &&& s1.start == e.back()
            &&& s1.end == top.back()
            &&& s0.id as nat == second + edge_cost(e)
            &&& s1.id as nat == second + edge_cost(e) + 1
            &&& f.id as nat == second + edge_cost(e) + 2
        };
    assert(quad(e, top, s0, s1) == f.boundaries[0]);
}

/// Carried round in one step, a vertex sweeps the one edge from itself to
/// itself, along the curve that joins its point to its point.
pub proof fn law_closed_sweep_in_one_step<P, C>(
    v: VertexModel<P>,
    wire: Seq<EdgeModel<P, C>>,
    vrel: spec_fn(P, P) -> bool,
    prel: spec_fn(P, P, C) -> bool,
    base: nat,
)
    requires
        is_vertex_ring(v, wire, 1, vrel, prel, base),
    ensures
        wire.len() == 1,
        wire[0].start == v,
        wire[0].end == v,
        wire[0].forward,
        prel(v.point, v.point, wire[0].curve),
        wire[0].id as nat == base,
{
    let layers = choose|layers: Seq<VertexModel<P>>| #[trigger]
        vertex_ring_ok(v, layers, wire, 1, vrel, prel, base);
}

/// The face that joins an edge to itself has a boundary that is a closed
/// chain but passes each end of the edge twice: along the edge, up a side
/// from its end to its end, back along the edge, down a side from its start
/// to its start. `Face::try_new` answers `NotSimpleWire` to such wires, so
/// the faces that an edge or a wire sweeps when it is carried round in one
/// step are faces that only the sweeps and `Face::new_unchecked` make.
pub proof fn law_one_step_is_not_simple<P, C>(
    e: EdgeModel<P, C>,
    s0: EdgeModel<P, C>,
    s1: EdgeModel<P, C>,
)
    requires
        s0.forward,
        s1.forward,
        s0.start.id == e.front().id,
        s0.end.id == e.front().id,
        s1.start.id == e.back().id,
        s1.end.id == e.back().id,
    ensures
        is_chain(quad(e, e, s0, s1)),
        is_closed(quad(e, e, s0, s1)),
        !is_simple(quad(e, e, s0, s1)),
        boundary_fault(seq![quad(e, e, s0, s1)]) == Some(Error::NotSimpleWire),
{
    let q = quad(e, e, s0, s1);
    let b = seq![q];
    assert(q[0].front().id == q[3].front().id);
    assert(b[0] == q);
    assert(loops_before(b, 0));
    assert(is_closed(b[0]) && !is_simple(b[0]));
    assert forall|w: int| 0 <= w < b.len() implies is_closed(#[trigger] b[w]) by {}
}

/// Carried round in one step, an edge sweeps the one face that joins it to
/// itself: what `connect_edges` makes between the edge and itself, without
/// a copy of the edge.
pub proof fn law_edge_ring_in_one_step<P, C, S>(
    e: EdgeModel<P, C>,
    faces: Seq<FaceModel<P, C, S>>,
    vrel: spec_fn(P, P) -> bool,
    crel: spec_fn(C, C) -> bool,
    prel: spec_fn(P, P, C) -> bool,
    srel: spec_fn(C, C, S) -> bool,
    base: nat,
)
    requires
        is_edge_ring(e, faces, 1, vrel, crel, prel, srel, base),
    ensures
        faces.len() == 1,
        is_join(faces[0], e, e, prel, srel, base),
{
    let layers = choose|layers: Seq<EdgeModel<P, C>>| #[trigger]
        edge_ring_ok(e, layers, faces, 1, vrel, crel, prel, srel, base);
    assert(layers[0] == e);
}

/// Carried round in one step, a wire sweeps the one band that joins it to
/// itself: what `connect_wires` makes between the wire and itself, without
/// a copy of the wire.
pub proof fn law_wire_ring_in_one_step<P, C, S>(
    w: Seq<EdgeModel<P, C>>,
    faces: Seq<FaceModel<P, C, S>>,
    vrel: spec_fn(P, P) -> bool,
    crel: spec_fn(C, C) -> bool,
    prel: spec_fn(P, P, C) -> bool,
    srel: spec_fn(C, C, S) -> bool,
    base: nat,
    now: nat,
)
    requires
        is_wire_ring(w, faces, 1, vrel, crel, prel, srel, base, now),
    ensures
        is_band(w, w, faces, prel, srel, base, now),
{
    let (layers, bands, marks) = choose|
        layers: Seq<Seq<EdgeModel<P, C>>>,
        bands: Seq<Seq<FaceModel<P, C, S>>>,
        marks: Seq<nat>,
    |
        #[trigger] wire_ring_ok(w, layers, bands, marks, faces, 1, vrel, crel, prel, srel)
            && marks[0] == base && marks[2 * 1 - 1] == now;
    assert(layers[0] == w);
    assert(concat(bands, 0) =~= Seq::<FaceModel<P, C, S>>::empty());
    assert(concat(bands, 1) =~= bands[0]);
}

/// A point on a segment is not inside, whatever the other segments are.
pub proof fn law_on_boundary_is_outside(cs: Seq<Crossing>, k: int)
    requires
        0 <= k < cs.len(),
        cs[k] == Crossing::OnBoundary,
    ensures
        !inside(cs),
{
    crate::polyline::lemma_tally_mono(cs, Crossing::OnBoundary, (k + 1) as nat, cs.len());
}

} // verus!
