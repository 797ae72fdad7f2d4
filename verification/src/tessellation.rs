//! The combinatorial half of tessellation: a shell of curves and surfaces
//! becomes a shell of polylines and meshes with the same topology, in which
//! an edge that faces share is cut into a polyline once.
use vstd::prelude::*;
use crate::edge::EdgeModel;
use crate::face::{wire_views, Face, FaceModel};
use crate::ident::IdSource;
use crate::likeness::alike;
use crate::mapping::{
    coherent, edge_fits, faces_cost, is_shell_copy, lemma_copy_alike, shell_fits, shell_scope,
    tables_ok, wire_fits, face_fits, Tables,
};
use crate::edge::Edge;
use crate::polyline::{deep, ring, stuck_at, traced, Polyline, PolylineModel};
use crate::polymesh::PolylineCurve;
use crate::shell::{concat, face_views, uses_of, Shell};
use crate::wire::Wire;

verus! {

/// `u` is what `mesh` makes of the surface `s` within the boundaries `b`.
pub open spec fn meshed<P, D, S, T, FS: Fn(&S, &Vec<Wire<P, D>>) -> Option<T>>(
    mesh: FS,
    s: S,
    b: Seq<Seq<EdgeModel<P, D>>>,
    u: T,
) -> bool {
    exists|ws: Vec<Wire<P, D>>| #[trigger] wire_views(ws@) == b && mesh.ensures((&s, &ws), Some(u))
}

/// `mesh` can make nothing of the surface `s` within the boundaries `b`.
pub open spec fn unmeshed<P, D, S, T, FS: Fn(&S, &Vec<Wire<P, D>>) -> Option<T>>(
    mesh: FS,
    s: S,
    b: Seq<Seq<EdgeModel<P, D>>>,
) -> bool {
    exists|ws: Vec<Wire<P, D>>| #[trigger] wire_views(ws@) == b && mesh.ensures((&s, &ws), None::<T>)
}

/// `mesh` made something of the surface `s` within the boundaries `b`.
pub open spec fn was_meshed<P, D, S, T, FS: Fn(&S, &Vec<Wire<P, D>>) -> Option<T>>(
    mesh: FS,
    s: S,
    b: Seq<Seq<EdgeModel<P, D>>>,
) -> bool {
    exists|u: T| #[trigger] meshed(mesh, s, b, u)
}

/// The tessellation of `xs` gave up at face `f`: `sk` is the copy of `xs`
/// in polylines, without surfaces yet; `mesh` made something of every face
/// before `f` within its new boundaries, and can make nothing of face `f`
/// within its new boundaries.
pub open spec fn gave_up_at<P: Clone, C, S, D, T, FS: Fn(&S, &Vec<Wire<P, D>>) -> Option<T>>(
    xs: Seq<FaceModel<P, C, S>>,
    sk: Seq<FaceModel<P, D, ()>>,
    f: int,
    crel: spec_fn(C, D) -> bool,
    mesh: FS,
    base: nat,
    now: nat,
) -> bool {
    &&& is_shell_copy(xs, sk, |p: P, q: P| cloned(p, q), crel, |s: S, u: ()| true, base, now)
    &&& 0 <= f < xs.len()
    &&& forall|g: int|
        0 <= g < f ==> was_meshed(mesh, (#[trigger] xs[g]).surface, sk[g].boundaries)
    &&& unmeshed(mesh, xs[f].surface, sk[f].boundaries)
}

/// The tessellation of `xs` gave up at some face.
pub open spec fn gave_up<P: Clone, C, S, D, T, FS: Fn(&S, &Vec<Wire<P, D>>) -> Option<T>>(
    xs: Seq<FaceModel<P, C, S>>,
    crel: spec_fn(C, D) -> bool,
    mesh: FS,
    base: nat,
    now: nat,
) -> bool {
    exists|sk: Seq<FaceModel<P, D, ()>>, f: int| #[trigger]
        gave_up_at(xs, sk, f, crel, mesh, base, now)
}

/// `ys` is a tessellation of the shell `xs`: a copy of it in which every
/// point is a clone, every curve is replaced by what `crel` relates it to,
/// and the surface of every face by what `mesh` makes of it within the new
/// boundaries of the face.
pub open spec fn is_tessellation<P: Clone, C, S, D, T, FS: Fn(&S, &Vec<Wire<P, D>>) -> Option<T>>(
    xs: Seq<FaceModel<P, C, S>>,
    ys: Seq<FaceModel<P, D, T>>,
    crel: spec_fn(C, D) -> bool,
    mesh: FS,
    base: nat,
    now: nat,
) -> bool {
    &&& is_shell_copy(
        xs,
        ys,
        |p: P, q: P| cloned(p, q),
        crel,
        |s: S, u: T| true,
        base,
        now,
    )
    &&& forall|f: int|
        0 <= f < xs.len() ==> meshed(mesh, (#[trigger] xs[f]).surface, ys[f].boundaries, ys[f].surface)
}

/// Cuts the shell into polylines and meshes. Every vertex gets a new
/// vertex at a clone of its point, every edge a new edge along the polyline
/// that `polyline` makes of its curve, once for all the faces that share it,
/// and every face a new face on the mesh that `mesh` makes of its surface
/// within its new boundaries. `None` if `mesh` makes nothing of a face.
pub fn tessellation<
    P: Clone,
    C,
    S,
    D,
    T,
    FC: Fn(&C) -> D,
    FS: Fn(&S, &Vec<Wire<P, D>>) -> Option<T>,
>(shell: &Shell<P, C, S>, ids: &mut IdSource, polyline: &FC, mesh: &FS) -> (res: Option<
    Shell<P, D, T>,
>)
    requires
        coherent(shell_scope(shell@)),
        forall|x: EdgeModel<P, C>| #[trigger] shell_scope(shell@)(x) ==> polyline.requires((&x.curve,)),
        forall|f: int, ws: Vec<Wire<P, D>>|
            0 <= f < shell@.len() ==> #[trigger] mesh.requires((&shell@[f].surface, &ws)),
        old(ids).remaining() >= faces_cost(shell@, shell@.len()),
    ensures
        old(ids).issued() <= final(ids).issued() <= old(ids).issued() + faces_cost(
            shell@,
            shell@.len(),
        ),
        match res {
            Some(r) => is_tessellation(
                shell@,
                r@,
                |c: C, d: D| polyline.ensures((&c,), d),
                *mesh,
                old(ids).issued(),
                final(ids).issued(),
            ),
            None => gave_up(
                shell@,
                |c: C, d: D| polyline.ensures((&c,), d),
                *mesh,
                old(ids).issued(),
                final(ids).issued(),
            ),
        },
{
    let ghost xs = shell@;
    let ghost base = ids.issued();
    let copy_point = |p: &P| -> (q: P)
        ensures
            cloned(*p, q),
        { p.clone() };
    let blank = |s: &S| -> (u: ()) { () };
    let skeleton = shell.mapped(ids, &copy_point, polyline, &blank);
    let ghost now = ids.issued();
    let ghost sk = skeleton@;
    let ghost vrel = |p: P, q: P| cloned(p, q);
    let ghost crel = |c: C, d: D| polyline.ensures((&c,), d);
    let ghost any = |s: S, u: T| true;
    let ghost brel = |s: S, u: ()| blank.ensures((&s,), u);
    let ghost prel = |p: P, q: P| copy_point.ensures((&p,), q);
    let ghost t = choose|t: Tables<P, D>| #[trigger]
        shell_fits(xs, sk, t, brel) && tables_ok(t, shell_scope(xs), prel, crel, base, now);
    let ghost unit = |s: S, u: ()| true;
    proof {
        assert(is_shell_copy(xs, sk, prel, crel, brel, base, now));
        crate::mapping::lemma_tables_mono(t, shell_scope(xs), prel, crel, vrel, crel, base, now);
        assert forall|i: int| 0 <= i < xs.len() implies face_fits(#[trigger] xs[i], sk[i], t, unit) by {
            assert(face_fits(xs[i], sk[i], t, brel));
        }
        assert(shell_fits(xs, sk, t, unit));
        assert(is_shell_copy(xs, sk, vrel, crel, unit, base, now));
    }
    let old_faces = shell.faces();
    let new_faces = skeleton.faces();
    let n = old_faces.len();
    let mut out: Vec<Face<P, D, T>> = Vec::new();
    let mut f: usize = 0;
    while f < n
        invariant
            n == old_faces@.len(),
            n == new_faces@.len(),
            xs == shell@,
            sk == skeleton@,
            face_views(old_faces@) == xs,
            face_views(new_faces@) == sk,
            f <= n,
            base == old(ids).issued(),
            now == ids.issued(),
            base <= now <= base + faces_cost(xs, xs.len()),
            vrel == (|p: P, q: P| cloned(p, q)),
            crel == (|c: C, d: D| polyline.ensures((&c,), d)),
            unit == (|s: S, u: ()| true),
            is_shell_copy(xs, sk, vrel, crel, unit, base, now),
            forall|f: int, ws: Vec<Wire<P, D>>|
                0 <= f < xs.len() ==> #[trigger] mesh.requires((&xs[f].surface, &ws)),
            out@.len() == f,
            forall|i: int|
                0 <= i < f ==> (#[trigger] out@[i])@.id == sk[i].id && out@[i]@.boundaries
                    == sk[i].boundaries && out@[i]@.forward == sk[i].forward && meshed(
                    *mesh,
                    xs[i].surface,
                    out@[i]@.boundaries,
                    out@[i]@.surface,
                ),
        decreases n - f,
    {
        assert(face_views(old_faces@)[f as int] == old_faces@[f as int]@);
        assert(face_views(new_faces@)[f as int] == new_faces@[f as int]@);
        let ws = crate::face::clone_wires(new_faces[f].absolute_boundaries());
        match mesh(old_faces[f].surface(), &ws) {
            Some(m) => {
                let face = new_faces[f].with_surface(m);
                let ghost done = out@;
                out.push(face);
                proof {
                    assert(wire_views(ws@) == face@.boundaries);
                    assert forall|i: int| 0 <= i < f + 1 implies (#[trigger] out@[i])@.id
                        == sk[i].id && out@[i]@.boundaries == sk[i].boundaries
                        && out@[i]@.forward == sk[i].forward && meshed(
                        *mesh,
                        xs[i].surface,
                        out@[i]@.boundaries,
                        out@[i]@.surface,
                    ) by {
                        if i < f {
                            assert(out@[i] == done[i]);
                        }
                    }
                }
            },
            None => {
                proof {
                    assert(wire_views(ws@) == sk[f as int].boundaries);
                    assert(unmeshed(*mesh, xs[f as int].surface, sk[f as int].boundaries));
                    assert forall|g: int| 0 <= g < f implies was_meshed(
                        *mesh,
                        (#[trigger] xs[g]).surface,
                        sk[g].boundaries,
                    ) by {
                        assert(meshed(
                            *mesh,
                            xs[g].surface,
                            out@[g]@.boundaries,
                            out@[g]@.surface,
                        ));
                    }
                    assert(gave_up_at(xs, sk, f as int, crel, *mesh, base, now));
                }
                return None;
            },
        }
        f += 1;
    }
    let res = Shell::from_faces(out);
    proof {
        let ys = res@;
        assert forall|i: int| 0 <= i < xs.len() implies face_fits(#[trigger] xs[i], ys[i], t, any) by {
            assert(ys[i] == out@[i]@);
            assert(face_fits(xs[i], sk[i], t, brel));
        }
        assert(shell_fits(xs, ys, t, any));
        assert(crate::mapping::faces_fresh(ys, base, now)) by {
            assert forall|i: int| 0 <= i < ys.len() implies base <= (#[trigger] ys[i]).id < now by {
                assert(ys[i] == out@[i]@);
                assert(base <= sk[i].id < now);
            }
            assert forall|i: int, j: int| 0 <= i < j < ys.len() implies (#[trigger] ys[i]).id != (
            #[trigger] ys[j]).id by {
                assert(ys[i] == out@[i]@);
                assert(ys[j] == out@[j]@);
                assert(sk[i].id != sk[j].id);
            }
        }
        assert forall|i: int| 0 <= i < xs.len() implies meshed(
            *mesh,
            (#[trigger] xs[i]).surface,
            ys[i].boundaries,
            ys[i].surface,
        ) by {
            assert(ys[i] == out@[i]@);
        }
    }
    Some(res)
}

/// The points of the polyline of an edge in the direction of the handle:
/// as the polyline has them, or, for a handle that runs against the curve,
/// in the opposite order.
pub open spec fn oriented_points<P>(e: EdgeModel<P, PolylineCurve<P>>) -> Seq<P> {
    if e.forward {
        e.curve@
    } else {
        e.curve@.reverse()
    }
}

/// The points along a wire of polylines, edge by edge.
pub open spec fn wire_points<P>(w: Seq<EdgeModel<P, PolylineCurve<P>>>) -> Seq<Seq<P>> {
    Seq::new(w.len(), |k: int| oriented_points(w[k]))
}

/// The points along wires of polylines, wire by wire.
pub open spec fn wires_points<P>(b: Seq<Seq<EdgeModel<P, PolylineCurve<P>>>>) -> Seq<Seq<Seq<P>>> {
    Seq::new(b.len(), |w: int| wire_points(b[w]))
}

impl<P: Copy> Edge<P, PolylineCurve<P>> {
    /// The polyline of the edge in the direction of the handle.
    pub fn oriented_curve(&self) -> (c: PolylineCurve<P>)
        ensures
            c@ == oriented_points(self@),
    {
        let back = self.curve().inverse();
        if self.orientation() {
            let c = back.inverse();
            assert(c@ =~= self@.curve@);
            c
        } else {
            assert(back@ =~= self@.curve@.reverse());
            back
        }
    }
}

/// Wire by wire, `qs` is what `search` finds along the first `n` wires.
pub open spec fn all_traced<A, V, G: Fn(&A, Option<&V>) -> Option<V>>(
    search: G,
    pts: Seq<Seq<Seq<A>>>,
    qs: Seq<Seq<Seq<V>>>,
    n: int,
) -> bool {
    &&& 0 <= n <= pts.len()
    &&& qs.len() == n
    &&& forall|w: int| 0 <= w < n ==> traced(search, #[trigger] pts[w], qs[w])
}

/// The polyline of the first `n` wires: the points found along each, one
/// wire after the other, and round the points of each wire a closed ring of
/// segments.
pub open spec fn added<V>(qs: Seq<Seq<Seq<V>>>, n: nat) -> PolylineModel<V>
    decreases n,
{
    if n == 0 {
        PolylineModel { points: Seq::empty(), segments: Seq::empty() }
    } else {
        let before = added(qs, (n - 1) as nat);
        let here = concat(qs[n - 1], qs[n - 1].len());
        PolylineModel {
            points: before.points + here,
            segments: before.segments + ring(before.points.len() as int, here.len() as int),
        }
    }
}

/// The search found the points along the wires before wire `w`, and is
/// stuck on wire `w`.
pub open spec fn gave_out<A, V, G: Fn(&A, Option<&V>) -> Option<V>>(
    search: G,
    pts: Seq<Seq<Seq<A>>>,
    qs: Seq<Seq<Seq<V>>>,
    w: int,
    q: Seq<Seq<V>>,
    e: int,
    here: Seq<V>,
) -> bool {
    &&& 0 <= w < pts.len()
    &&& all_traced(search, pts, qs, w)
    &&& stuck_at(search, pts[w], q, e, here)
}

/// The polyline of the boundary of a face in the parameter plane of its
/// surface: every wire of the boundary is added, each edge by the points of
/// its polyline in the direction of its handle and what `search` finds for
/// them. Where `search` finds nothing for a point of some wire, there is no
/// polyline.
pub fn boundary_polyline<P: Copy, V, G: Fn(&P, Option<&V>) -> Option<V>>(
    wires: &Vec<Wire<P, PolylineCurve<P>>>,
    search: &G,
) -> (res: Option<Polyline<V>>)
    requires
        forall|p: P, h: Option<&V>| search.requires((&p, h)),
    ensures
        match res {
            Some(line) => exists|qs: Seq<Seq<Seq<V>>>| #[trigger]
                all_traced(*search, wires_points(wire_views(wires@)), qs, wires@.len() as int)
                    && line@ == added(qs, wires@.len()),
            None => exists|qs: Seq<Seq<Seq<V>>>, w: int, q: Seq<Seq<V>>, e: int, here: Seq<V>|
                #[trigger] gave_out(*search, wires_points(wire_views(wires@)), qs, w, q, e, here),
        },
{
    let ghost b = wire_views(wires@);
    let ghost pts = wires_points(b);
    let ghost mut qs: Seq<Seq<Seq<V>>> = Seq::empty();
    let mut line: Polyline<V> = Polyline::new();
    assert(line@ =~= added(qs, 0)) by {
        assert(line@.points =~= Seq::<V>::empty());
        assert(line@.segments =~= Seq::<(usize, usize)>::empty());
    }
    let mut w: usize = 0;
    while w < wires.len()
        invariant
            w <= wires@.len(),
            b == wire_views(wires@),
            pts == wires_points(b),
            forall|p: P, h: Option<&V>| search.requires((&p, h)),
            all_traced(*search, pts, qs, w as int),
            line@ == added(qs, w as nat),
        decreases wires@.len() - w,
    {
        let es = wires[w].edges();
        assert(b[w as int] == wires@[w as int]@);
        let mut edges: Vec<Vec<P>> = Vec::new();
        let mut k: usize = 0;
        while k < es.len()
            invariant
                k <= es@.len(),
                w < wires@.len(),
                b == wire_views(wires@),
                es@.len() == b[w as int].len(),
                forall|i: int| 0 <= i < es@.len() ==> (#[trigger] es@[i])@ == b[w as int][i],
                edges@.len() == k,
                forall|i: int|
                    0 <= i < k ==> (#[trigger] edges@[i])@ == oriented_points(b[w as int][i]),
            decreases es@.len() - k,
        {
            let curve = es[k].oriented_curve();
            edges.push(curve.0);
            k += 1;
        }
        assert(deep(edges@) =~= pts[w as int]);
        let ghost before = line@;
        if !line.add_wire(&edges, search) {
            proof {
                let (q, e, here) = choose|q: Seq<Seq<V>>, e: int, here: Seq<V>| #[trigger]
                    stuck_at(*search, deep(edges@), q, e, here);
                assert(gave_out(*search, pts, qs, w as int, q, e, here));
            }
            return None;
        }
        proof {
            let q = choose|q: Seq<Seq<V>>| #[trigger]
                traced(*search, deep(edges@), q) && line@.points == before.points + concat(
                    q,
                    q.len(),
                ) && line@.segments == before.segments + ring(
                    before.points.len() as int,
                    concat(q, q.len()).len() as int,
                );
            let old_qs = qs;
            qs = qs.push(q);
            assert forall|v: int| 0 <= v < w + 1 implies traced(*search, #[trigger] pts[v], qs[v]) by {
                if v < w {
                    assert(qs[v] == old_qs[v]);
                }
            }
            lemma_added_prefix(qs, old_qs, w as nat);
            assert(line@ =~= added(qs, (w + 1) as nat)) by {
                assert(line@.points == added(qs, (w + 1) as nat).points);
                assert(line@.segments == added(qs, (w + 1) as nat).segments);
            }
        }
        w += 1;
    }
    Some(line)
}

/// The polyline of the first wires depends on those wires alone.
proof fn lemma_added_prefix<V>(a: Seq<Seq<Seq<V>>>, b: Seq<Seq<Seq<V>>>, n: nat)
    requires
        n <= a.len(),
        n <= b.len(),
        forall|i: int| 0 <= i < n ==> a[i] == b[i],
    ensures
        added(a, n) == added(b, n),
    decreases n,
{
    if n > 0 {
        lemma_added_prefix(a, b, (n - 1) as nat);
    }
}

} // verus!
