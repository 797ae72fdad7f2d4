//! Cutting an edge in two at a vertex, and making one edge of the two that
//! meet in a vertex.
use vstd::prelude::*;
use crate::edge::{Edge, EdgeModel};
use crate::face::{all_loops, wire_views, Face, FaceModel};
use crate::ident::IdSource;
use crate::mapping::{shell_scope, solid_scope};
use crate::shell::{edge_views, face_views, next_in, Shell};
use crate::solid::{all_boundaries, check_boundaries, shell_views, Solid};
use crate::vertex::{Vertex, VertexModel};
use crate::wire::{is_chain, Wire};

verus! {

/// The views of vectors of edges.
pub open spec fn wires_of<P, C>(vs: Seq<Vec<Edge<P, C>>>) -> Seq<Seq<EdgeModel<P, C>>> {
    Seq::new(vs.len(), |w: int| edge_views(vs[w]@))
}

/// The face `face` with the boundaries `wires`, if each of them is a closed
/// simple chain.
fn reface<P, C, S>(face: &Face<P, C, S>, wires: Vec<Vec<Edge<P, C>>>) -> (res: Option<Face<P, C, S>>)
    ensures
        res is Some <==> all_loops(wires_of(wires@)),
        res is Some ==> res->Some_0@ == (FaceModel { boundaries: wires_of(wires@), ..face@ }),
{
    let ghost b = wires_of(wires@);
    let mut rest = wires;
    let mut rev: Vec<Vec<Edge<P, C>>> = Vec::new();
    while rest.len() > 0
        invariant
            rest@.len() + rev@.len() == b.len(),
            forall|i: int| 0 <= i < rest@.len() ==> edge_views((#[trigger] rest@[i])@) == b[i],
            forall|i: int|
                0 <= i < rev@.len() ==> edge_views((#[trigger] rev@[i])@) == b[b.len() - 1 - i],
        decreases rest@.len(),
    {
        let ghost before = rest@;
        let w = rest.pop().unwrap();
        assert(edge_views(w@) == b[before.len() - 1]) by {
            assert(w == before[before.len() - 1]);
        }
        rev.push(w);
    }
    let mut out: Vec<Wire<P, C>> = Vec::new();
    while rev.len() > 0
        invariant
            b == wires_of(wires@),
            rev@.len() + out@.len() == b.len(),
            forall|i: int|
                0 <= i < rev@.len() ==> edge_views((#[trigger] rev@[i])@) == b[b.len() - 1 - i],
            forall|i: int| 0 <= i < out@.len() ==> (#[trigger] out@[i])@ == b[i],
        decreases rev@.len(),
    {
        let ghost before = rev@;
        let es = rev.pop().unwrap();
        let ghost k = out@.len() as int;
        assert(edge_views(es@) == b[k]) by {
            assert(es == before[before.len() - 1]);
        }
        match Wire::from_edges(es) {
            Some(w) => {
                assert(w@ =~= b[k]);
                out.push(w);
            },
            None => {
                assert(!is_chain(b[k])) by {
                    assert(Seq::new(es@.len(), |i: int| es@[i]@) =~= b[k]);
                }
                assert(!crate::face::is_loop(b[k]));
                return None;
            },
        }
    }
    assert(wire_views(out@) =~= b);
    face.with_boundaries(out)
}

/// What stands for a handle of a cut edge: the two halves in the direction
/// of the handle.
pub open spec fn cut_pair<P, C>(x: EdgeModel<P, C>, e0: EdgeModel<P, C>, e1: EdgeModel<P, C>) -> Seq<
    EdgeModel<P, C>,
> {
    if x.forward {
        seq![e0, e1]
    } else {
        seq![e1.inverse(), e0.inverse()]
    }
}

/// The first `n` edges of the wire, with every handle of the edge `id`
/// replaced by the two halves `e0` and `e1`.
pub open spec fn wire_cut<P, C>(
    w: Seq<EdgeModel<P, C>>,
    id: u64,
    e0: EdgeModel<P, C>,
    e1: EdgeModel<P, C>,
    n: nat,
) -> Seq<EdgeModel<P, C>>
    decreases n,
{
    if n == 0 {
        Seq::empty()
    } else if w[n - 1].id == id {
        wire_cut(w, id, e0, e1, (n - 1) as nat) + cut_pair(w[n - 1], e0, e1)
    } else {
        wire_cut(w, id, e0, e1, (n - 1) as nat).push(w[n - 1])
    }
}

/// The wires, each with the edge `id` cut.
pub open spec fn wires_cut<P, C>(
    b: Seq<Seq<EdgeModel<P, C>>>,
    id: u64,
    e0: EdgeModel<P, C>,
    e1: EdgeModel<P, C>,
) -> Seq<Seq<EdgeModel<P, C>>> {
    Seq::new(b.len(), |w: int| wire_cut(b[w], id, e0, e1, b[w].len()))
}

/// The faces, each with the edge `id` cut in its boundaries.
pub open spec fn faces_cut<P, C, S>(
    s: Seq<FaceModel<P, C, S>>,
    id: u64,
    e0: EdgeModel<P, C>,
    e1: EdgeModel<P, C>,
) -> Seq<FaceModel<P, C, S>> {
    Seq::new(s.len(), |f: int| FaceModel { boundaries: wires_cut(s[f].boundaries, id, e0, e1), ..s[f] })
}

/// After the cut every boundary is still a closed simple chain.
pub open spec fn cut_fits<P, C, S>(
    s: Seq<FaceModel<P, C, S>>,
    id: u64,
    e0: EdgeModel<P, C>,
    e1: EdgeModel<P, C>,
) -> bool {
    forall|f: int| 0 <= f < s.len() ==> all_loops(#[trigger] wires_cut(s[f].boundaries, id, e0, e1))
}

/// Face `k` is the first whose boundaries would not all be closed simple
/// chains after the cut.
pub open spec fn cut_stops_at<P, C, S>(
    s: Seq<FaceModel<P, C, S>>,
    id: u64,
    e0: EdgeModel<P, C>,
    e1: EdgeModel<P, C>,
    k: int,
) -> bool {
    &&& 0 <= k < s.len()
    &&& !all_loops(wires_cut(s[k].boundaries, id, e0, e1))
    &&& forall|j: int| 0 <= j < k ==> all_loops(#[trigger] wires_cut(s[j].boundaries, id, e0, e1))
}

/// The faces with the edge `id` cut in the faces before face `k`, and the
/// others as they are.
pub open spec fn partly_cut<P, C, S>(
    s: Seq<FaceModel<P, C, S>>,
    id: u64,
    e0: EdgeModel<P, C>,
    e1: EdgeModel<P, C>,
    k: int,
) -> Seq<FaceModel<P, C, S>> {
    Seq::new(
        s.len(),
        |f: int|
            if f < k {
                FaceModel { boundaries: wires_cut(s[f].boundaries, id, e0, e1), ..s[f] }
            } else {
                s[f]
            },
    )
}

/// `e0` and `e1` are the halves of the handle `x` cut at the vertex `v`:
/// new edges from the start of `x` to `v` and from `v` to its end, along
/// the two curves that `cut` makes of the curve of `x` at the point of `v`.
pub open spec fn is_cut<P, C, F: Fn(&C, &P) -> Option<(C, C)>>(
    cut: F,
    x: EdgeModel<P, C>,
    v: VertexModel<P>,
    e0: EdgeModel<P, C>,
    e1: EdgeModel<P, C>,
    base: nat,
) -> bool {
    &&& cut.ensures((&x.curve, &v.point), Some((e0.curve, e1.curve)))
    &&& e0.start == x.start
    &&& e0.end == v
    &&& e0.forward
    &&& e0.id as nat == base
    &&& e1.start == v
    &&& e1.end == x.end
    &&& e1.forward
    &&& e1.id as nat == base + 1
}

/// The wire with every handle of the edge `id` replaced by the halves.
fn cut_wire<P, C>(es: &Vec<Edge<P, C>>, id: u64, e0: &Edge<P, C>, e1: &Edge<P, C>) -> (out: Vec<
    Edge<P, C>,
>)
    ensures
        edge_views(out@) == wire_cut(edge_views(es@), id, e0@, e1@, es@.len()),
{
    let ghost w = edge_views(es@);
    let mut out: Vec<Edge<P, C>> = Vec::new();
    let mut k: usize = 0;
    while k < es.len()
        invariant
            k <= es@.len(),
            w == edge_views(es@),
            edge_views(out@) == wire_cut(w, id, e0@, e1@, k as nat),
        decreases es@.len() - k,
    {
        let e = &es[k];
        let ghost before = edge_views(out@);
        assert(w[k as int] == e@);
        if e.id() == id {
            if e.orientation() {
                out.push(e0.clone());
                out.push(e1.clone());
            } else {
                out.push(e1.inverse());
                out.push(e0.inverse());
            }
            assert(edge_views(out@) =~= before + cut_pair(e@, e0@, e1@));
        } else {
            out.push(e.clone());
            assert(edge_views(out@) =~= before.push(e@));
        }
        k += 1;
    }
    out
}

/// The faces with the edge `id` cut, face by face, up to the first face
/// of which a boundary would no longer be a closed simple chain: that face
/// and those after it are left as they are.
fn cut_faces_partly<P, C, S>(
    faces: &Vec<Face<P, C, S>>,
    id: u64,
    e0: &Edge<P, C>,
    e1: &Edge<P, C>,
) -> (res: (Vec<Face<P, C, S>>, bool))
    ensures
        res.1 <==> cut_fits(face_views(faces@), id, e0@, e1@),
        res.1 ==> face_views(res.0@) == faces_cut(face_views(faces@), id, e0@, e1@),
        !res.1 ==> exists|k: int|
            #[trigger] cut_stops_at(face_views(faces@), id, e0@, e1@, k) && face_views(res.0@)
                == partly_cut(face_views(faces@), id, e0@, e1@, k),
{
    let ghost s = face_views(faces@);
    let mut out: Vec<Face<P, C, S>> = Vec::new();
    let mut f: usize = 0;
    while f < faces.len()
        invariant
            f <= faces@.len(),
            s == face_views(faces@),
            out@.len() == f,
            forall|g: int| 0 <= g < f ==> all_loops(#[trigger] wires_cut(s[g].boundaries, id, e0@, e1@)),
            forall|g: int|
                0 <= g < f ==> (#[trigger] out@[g])@ == (FaceModel {
                    boundaries: wires_cut(s[g].boundaries, id, e0@, e1@),
                    ..s[g]
                }),
        decreases faces@.len() - f,
    {
        let face = &faces[f];
        let ws = face.absolute_boundaries();
        let ghost b = s[f as int].boundaries;
        assert(s[f as int] == face@);
        let mut wires: Vec<Vec<Edge<P, C>>> = Vec::new();
        let mut w: usize = 0;
        while w < ws.len()
            invariant
                w <= ws@.len(),
                wire_views(ws@) == b,
                wires@.len() == w,
                forall|v: int|
                    0 <= v < w ==> edge_views((#[trigger] wires@[v])@) == wire_cut(
                        b[v],
                        id,
                        e0@,
                        e1@,
                        b[v].len(),
                    ),
            decreases ws@.len() - w,
        {
            let es = ws[w].edges();
            assert(wire_views(ws@)[w as int] == ws@[w as int]@);
            assert(edge_views(es@) =~= b[w as int]);
            let cut = cut_wire(es, id, e0, e1);
            wires.push(cut);
            w += 1;
        }
        assert(wires_of(wires@) =~= wires_cut(b, id, e0@, e1@));
        match reface(face, wires) {
            Some(g) => {
                out.push(g);
            },
            None => {
                let ghost k = f as int;
                assert(cut_stops_at(s, id, e0@, e1@, k));
                let mut r: usize = f;
                while r < faces.len()
                    invariant
                        f <= r <= faces@.len(),
                        k == f,
                        s == face_views(faces@),
                        out@.len() == r,
                        forall|g: int|
                            0 <= g < k ==> (#[trigger] out@[g])@ == (FaceModel {
                                boundaries: wires_cut(s[g].boundaries, id, e0@, e1@),
                                ..s[g]
                            }),
                        forall|g: int| k <= g < r ==> (#[trigger] out@[g])@ == s[g],
                    decreases faces@.len() - r,
                {
                    let ghost done = out@;
                    out.push(faces[r].clone());
                    assert(s[r as int] == faces@[r as int]@);
                    assert forall|g: int| 0 <= g < r implies #[trigger] out@[g] == done[g] by {}
                    r += 1;
                }
                assert(face_views(out@) =~= partly_cut(s, id, e0@, e1@, k));
                return (out, false);
            },
        }
        f += 1;
    }
    assert(face_views(out@) =~= faces_cut(s, id, e0@, e1@));
    (out, true)
}

/// The first handle of the edge `id` in the boundaries of the faces.
fn find_edge<P, C, S>(faces: &Vec<Face<P, C, S>>, id: u64) -> (res: Option<Edge<P, C>>)
    ensures
        res matches Some(x) ==> shell_scope(face_views(faces@))(x@) && x@.id == id,
        res is None ==> forall|x: EdgeModel<P, C>| #[trigger]
            shell_scope(face_views(faces@))(x) ==> x.id != id,
{
    let ghost s = face_views(faces@);
    let mut f: usize = 0;
    while f < faces.len()
        invariant
            f <= faces@.len(),
            s == face_views(faces@),
            forall|g: int, w: int, k: int|
                0 <= g < f && 0 <= w < s[g].boundaries.len() && 0 <= k < s[g].boundaries[w].len()
                    ==> (#[trigger] s[g].boundaries[w][k]).id != id,
        decreases faces@.len() - f,
    {
        let ws = faces[f].absolute_boundaries();
        let ghost b = s[f as int].boundaries;
        assert(s[f as int] == faces@[f as int]@);
        let mut w: usize = 0;
        while w < ws.len()
            invariant
                w <= ws@.len(),
                f < faces@.len(),
                s == face_views(faces@),
                b == s[f as int].boundaries,
                wire_views(ws@) == b,
                forall|v: int, k: int|
                    0 <= v < w && 0 <= k < b[v].len() ==> (#[trigger] b[v][k]).id != id,
            decreases ws@.len() - w,
        {
            let es = ws[w].edges();
            assert(wire_views(ws@)[w as int] == ws@[w as int]@);
            let mut k: usize = 0;
            while k < es.len()
                invariant
                    k <= es@.len(),
                    w < ws@.len(),
                    f < faces@.len(),
                    s == face_views(faces@),
                    b == s[f as int].boundaries,
                    b.len() == ws@.len(),
                    es@.len() == b[w as int].len(),
                    forall|i: int| 0 <= i < es@.len() ==> (#[trigger] es@[i])@ == b[w as int][i],
                    forall|i: int| 0 <= i < k ==> (#[trigger] b[w as int][i]).id != id,
                decreases es@.len() - k,
            {
                if es[k].id() == id {
                    assert(s[f as int].boundaries[w as int][k as int] == es@[k as int]@);
                    return Some(es[k].clone());
                }
                k += 1;
            }
            w += 1;
        }
        f += 1;
    }
    None
}

/// The cut of the edge `id` at `v` into the halves `e0` and `e1` of the
/// handle `x` stopped at face `k`: the faces before it are cut, and it and
/// the faces after it are as they were.
pub open spec fn cut_stopped<P, C, S, F: Fn(&C, &P) -> Option<(C, C)>>(
    cut: F,
    before: Seq<FaceModel<P, C, S>>,
    after: Seq<FaceModel<P, C, S>>,
    id: u64,
    v: VertexModel<P>,
    base: nat,
    x: EdgeModel<P, C>,
    e0: EdgeModel<P, C>,
    e1: EdgeModel<P, C>,
    k: int,
) -> bool {
    &&& shell_scope(before)(x)
    &&& x.id == id
    &&& is_cut(cut, x, v, e0, e1, base)
    &&& cut_stops_at(before, id, e0, e1, k)
    &&& after == partly_cut(before, id, e0, e1, k)
}

/// What `cut_edge` does to faces: with `done`, `after` is `before` with
/// the edge `id` cut at `v` into halves of a handle of it, and every
/// boundary is still a closed simple chain. Without, either `after` is
/// `before`, and the edge has no handle or `cut` can fail on one; or the
/// cut stopped at the first face of which a boundary would no longer be a
/// closed simple chain, and `after` is `before` with the faces before that
/// one cut.
pub open spec fn cut_outcome<P, C, S, F: Fn(&C, &P) -> Option<(C, C)>>(
    cut: F,
    before: Seq<FaceModel<P, C, S>>,
    after: Seq<FaceModel<P, C, S>>,
    id: u64,
    v: VertexModel<P>,
    base: nat,
    done: bool,
) -> bool {
    if done {
        exists|x: EdgeModel<P, C>, e0: EdgeModel<P, C>, e1: EdgeModel<P, C>|
            {
                &&& shell_scope(before)(x)
                &&& x.id == id
                &&& #[trigger] is_cut(cut, x, v, e0, e1, base)
                &&& cut_fits(before, id, e0, e1)
                &&& after == faces_cut(before, id, e0, e1)
            }
    } else {
        ||| after == before && forall|x: EdgeModel<P, C>| #[trigger]
            shell_scope(before)(x) ==> x.id != id
        ||| after == before && exists|x: EdgeModel<P, C>| #[trigger]
            shell_scope(before)(x) && x.id == id && cut.ensures((&x.curve, &v.point), None)
        ||| exists|x: EdgeModel<P, C>, e0: EdgeModel<P, C>, e1: EdgeModel<P, C>, k: int|
            #[trigger] cut_stopped(cut, before, after, id, v, base, x, e0, e1, k)
    }
}

impl<P, C, S> Shell<P, C, S> {
    /// Cuts the edge `edge_id` in two at `vertex`: `cut` makes two curves
    /// of its curve at the point of the vertex, and in every boundary of
    /// every face each handle of the edge gives way to the two halves, in
    /// the direction of the handle. Where the edge has no handle or `cut`
    /// gives nothing, the shell is left as it is and `false` is returned.
    /// Where a boundary of a face would no longer be a closed simple chain,
    /// the cut stops at that face: the faces before it stay cut, the shell is
    /// no longer fit for use, and `false` is returned.
    pub fn cut_edge<F: Fn(&C, &P) -> Option<(C, C)>>(
        &mut self,
        ids: &mut IdSource,
        edge_id: u64,
        vertex: &Vertex<P>,
        cut: &F,
    ) -> (done: bool)
        requires
            old(ids).remaining() >= 2,
            forall|c: C, p: P| cut.requires((&c, &p)),
        ensures
            old(ids).issued() <= final(ids).issued() <= old(ids).issued() + 2,
            cut_outcome(*cut, old(self)@, final(self)@, edge_id, vertex@, old(ids).issued(), done),
    {
        let ghost before = self@;
        let x = match find_edge(self.faces(), edge_id) {
            Some(x) => x,
            None => { return false; },
        };
        let (c0, c1) = match cut(x.curve(), vertex.point()) {
            Some(pair) => pair,
            None => { return false; },
        };
        let e0 = Edge::new_unchecked(ids, x.absolute_front(), vertex, c0);
        let e1 = Edge::new_unchecked(ids, vertex, x.absolute_back(), c1);
        assert(is_cut(*cut, x@, vertex@, e0@, e1@, old(ids).issued()));
        let (faces, done) = cut_faces_partly(self.faces(), edge_id, &e0, &e1);
        *self = Shell::from_faces(faces);
        proof {
            if !done {
                let k = choose|k: int|
                    #[trigger] cut_stops_at(before, edge_id, e0@, e1@, k) && self@ == partly_cut(
                        before,
                        edge_id,
                        e0@,
                        e1@,
                        k,
                    );
                assert(cut_stopped(
                    *cut,
                    before,
                    self@,
                    edge_id,
                    vertex@,
                    old(ids).issued(),
                    x@,
                    e0@,
                    e1@,
                    k,
                ));
            }
        }
        done
    }
}

/// The shells, each with the edge `id` cut.
pub open spec fn shells_cut<P, C, S>(
    b: Seq<Seq<FaceModel<P, C, S>>>,
    id: u64,
    e0: EdgeModel<P, C>,
    e1: EdgeModel<P, C>,
) -> Seq<Seq<FaceModel<P, C, S>>> {
    Seq::new(b.len(), |i: int| faces_cut(b[i], id, e0, e1))
}

/// The shells with the edge `id` cut in the shells before shell `i` and in
/// the faces of shell `i` before face `k`, and all else as it is.
pub open spec fn shells_partly_cut<P, C, S>(
    b: Seq<Seq<FaceModel<P, C, S>>>,
    id: u64,
    e0: EdgeModel<P, C>,
    e1: EdgeModel<P, C>,
    i: int,
    k: int,
) -> Seq<Seq<FaceModel<P, C, S>>> {
    Seq::new(
        b.len(),
        |j: int|
            if j < i {
                faces_cut(b[j], id, e0, e1)
            } else if j == i {
                partly_cut(b[i], id, e0, e1, k)
            } else {
                b[j]
            },
    )
}

/// The cut of the edge `id` at `v` into the halves `e0` and `e1` of the
/// handle `x` stopped in shell `i` at face `k`: the shells before it and its
/// faces before that face are cut, and all else is as it was.
pub open spec fn solid_cut_stopped<P, C, S, F: Fn(&C, &P) -> Option<(C, C)>>(
    cut: F,
    before: Seq<Seq<FaceModel<P, C, S>>>,
    after: Seq<Seq<FaceModel<P, C, S>>>,
    id: u64,
    v: VertexModel<P>,
    base: nat,
    x: EdgeModel<P, C>,
    e0: EdgeModel<P, C>,
    e1: EdgeModel<P, C>,
    i: int,
    k: int,
) -> bool {
    &&& solid_scope(before)(x)
    &&& x.id == id
    &&& is_cut(cut, x, v, e0, e1, base)
    &&& 0 <= i < before.len()
    &&& forall|j: int| 0 <= j < i ==> cut_fits(#[trigger] before[j], id, e0, e1)
    &&& cut_stops_at(before[i], id, e0, e1, k)
    &&& after == shells_partly_cut(before, id, e0, e1, i, k)
}

/// The edge `id` is cut at `v` into the halves `e0` and `e1` of the handle
/// `x` in every shell, and every boundary is still a closed simple chain,
/// but the shells `after` cannot all bound a solid.
pub open spec fn solid_cut_unfit<P, C, S, F: Fn(&C, &P) -> Option<(C, C)>>(
    cut: F,
    before: Seq<Seq<FaceModel<P, C, S>>>,
    after: Seq<Seq<FaceModel<P, C, S>>>,
    id: u64,
    v: VertexModel<P>,
    base: nat,
    x: EdgeModel<P, C>,
    e0: EdgeModel<P, C>,
    e1: EdgeModel<P, C>,
) -> bool {
    &&& solid_scope(before)(x)
    &&& x.id == id
    &&& is_cut(cut, x, v, e0, e1, base)
    &&& forall|j: int| 0 <= j < before.len() ==> cut_fits(#[trigger] before[j], id, e0, e1)
    &&& after == shells_cut(before, id, e0, e1)
    &&& !all_boundaries(after)
}

/// After the cut every boundary of every shell is still a closed simple
/// chain, and every shell can still bound a solid.
pub open spec fn solid_cut_fits<P, C, S>(
    b: Seq<Seq<FaceModel<P, C, S>>>,
    id: u64,
    e0: EdgeModel<P, C>,
    e1: EdgeModel<P, C>,
) -> bool {
    &&& forall|i: int| 0 <= i < b.len() ==> cut_fits(#[trigger] b[i], id, e0, e1)
    &&& all_boundaries(shells_cut(b, id, e0, e1))
}

/// What `cut_edge` answers for a solid with the shells `before`. The solid
/// with the edge `id` cut at `v` into halves of a handle of it, in every
/// shell, where that fits. Otherwise the shells as the cut left them: as
/// they were, where the edge has no handle or `cut` can fail on one; cut up
/// to the first face of which a boundary would no longer be a closed simple
/// chain; or cut throughout, where they can then no longer bound a solid.
pub open spec fn solid_cut_outcome<P, C, S, F: Fn(&C, &P) -> Option<(C, C)>>(
    cut: F,
    before: Seq<Seq<FaceModel<P, C, S>>>,
    res: Result<Solid<P, C, S>, Vec<Shell<P, C, S>>>,
    id: u64,
    v: VertexModel<P>,
    base: nat,
) -> bool {
    match res {
        Ok(solid) => exists|x: EdgeModel<P, C>, e0: EdgeModel<P, C>, e1: EdgeModel<P, C>|
            {
                &&& solid_scope(before)(x)
                &&& x.id == id
                &&& #[trigger] is_cut(cut, x, v, e0, e1, base)
                &&& solid_cut_fits(before, id, e0, e1)
                &&& solid@ == shells_cut(before, id, e0, e1)
            },
        Err(shells) => {
            ||| shell_views(shells@) == before && forall|x: EdgeModel<P, C>| #[trigger]
                solid_scope(before)(x) ==> x.id != id
            ||| shell_views(shells@) == before && exists|x: EdgeModel<P, C>| #[trigger]
                solid_scope(before)(x) && x.id == id && cut.ensures((&x.curve, &v.point), None)
            ||| exists|x: EdgeModel<P, C>, e0: EdgeModel<P, C>, e1: EdgeModel<P, C>, i: int, k: int|
                #[trigger] solid_cut_stopped(
                    cut,
                    before,
                    shell_views(shells@),
                    id,
                    v,
                    base,
                    x,
                    e0,
                    e1,
                    i,
                    k,
                )
            ||| exists|x: EdgeModel<P, C>, e0: EdgeModel<P, C>, e1: EdgeModel<P, C>|
                #[trigger] solid_cut_unfit(cut, before, shell_views(shells@), id, v, base, x, e0, e1)
        },
    }
}

impl<P, C, S> Solid<P, C, S> {
    /// Cuts the edge `edge_id` in two at `vertex`, in every shell: `cut`
    /// makes two curves of the curve of its first handle at the point of the
    /// vertex, and every handle of the edge gives way to the two halves.
    /// Where that fits in every shell and every shell can still bound a
    /// solid, the answer is the solid. A solid cannot hold shells that are
    /// cut in part, so the solid is given up for the cut: where the cut
    /// fails, the answer is the shells as the cut left them, those before
    /// the failure cut, and they are no longer fit for use.
    pub fn cut_edge<F: Fn(&C, &P) -> Option<(C, C)>>(
        self,
        ids: &mut IdSource,
        edge_id: u64,
        vertex: &Vertex<P>,
        cut: &F,
    ) -> (res: Result<Solid<P, C, S>, Vec<Shell<P, C, S>>>)
        requires
            old(ids).remaining() >= 2,
            forall|c: C, p: P| cut.requires((&c, &p)),
        ensures
            old(ids).issued() <= final(ids).issued() <= old(ids).issued() + 2,
            solid_cut_outcome(*cut, self@, res, edge_id, vertex@, old(ids).issued()),
    {
        let ghost before = self@;
        let mut found: Option<Edge<P, C>> = None;
        let mut i: usize = 0;
        while i < self.boundaries().len() && found.is_none()
            invariant
                self@ == before,
                i <= before.len(),
                ids.issued() == old(ids).issued(),
                found matches Some(x) ==> solid_scope(before)(x@) && x@.id == edge_id,
                found is None ==> forall|j: int, x: EdgeModel<P, C>|
                    0 <= j < i && #[trigger] shell_scope(before[j])(x) ==> x.id != edge_id,
            decreases before.len() - i,
        {
            let shells = self.boundaries();
            assert(shell_views(shells@)[i as int] == shells@[i as int]@);
            found = find_edge(shells[i].faces(), edge_id);
            proof {
                if found is Some {
                    assert(shell_scope(before[i as int])(found->Some_0@));
                }
            }
            i += 1;
        }
        let x = match found {
            Some(x) => x,
            None => {
                proof {
                    assert forall|x: EdgeModel<P, C>| #[trigger]
                        solid_scope(before)(x) implies x.id != edge_id by {
                        let j = choose|j: int|
                            0 <= j < before.len() && #[trigger] shell_scope(before[j])(x);
                    }
                }
                return Err(self.into_boundaries());
            },
        };
        let (c0, c1) = match cut(x.curve(), vertex.point()) {
            Some(pair) => pair,
            None => { return Err(self.into_boundaries()); },
        };
        let e0 = Edge::new_unchecked(ids, x.absolute_front(), vertex, c0);
        let e1 = Edge::new_unchecked(ids, vertex, x.absolute_back(), c1);
        assert(is_cut(*cut, x@, vertex@, e0@, e1@, old(ids).issued()));
        let shells = self.into_boundaries();
        let n = shells.len();
        let mut out: Vec<Shell<P, C, S>> = Vec::new();
        let mut i: usize = 0;
        while i < n
            invariant
                self@ == before,
                n == shells@.len(),
                shell_views(shells@) == before,
                i <= n,
                ids.issued() == old(ids).issued() + 2,
                solid_scope(before)(x@),
                x@.id == edge_id,
                is_cut(*cut, x@, vertex@, e0@, e1@, old(ids).issued()),
                out@.len() == i,
                forall|j: int|
                    0 <= j < i ==> (#[trigger] out@[j])@ == faces_cut(before[j], edge_id, e0@, e1@),
                forall|j: int| 0 <= j < i ==> cut_fits(#[trigger] before[j], edge_id, e0@, e1@),
            decreases n - i,
        {
            assert(shell_views(shells@)[i as int] == shells@[i as int]@);
            let (faces, done) = cut_faces_partly(shells[i].faces(), edge_id, &e0, &e1);
            out.push(Shell::from_faces(faces));
            if !done {
                let ghost k = choose|k: int|
                    #[trigger] cut_stops_at(before[i as int], edge_id, e0@, e1@, k) && out@[i as int]@
                        == partly_cut(before[i as int], edge_id, e0@, e1@, k);
                let mut r: usize = i + 1;
                while r < n
                    invariant
                        n == shells@.len(),
                        shell_views(shells@) == before,
                        i < r <= n,
                        out@.len() == r,
                        forall|j: int|
                            0 <= j < i ==> (#[trigger] out@[j])@ == faces_cut(
                                before[j],
                                edge_id,
                                e0@,
                                e1@,
                            ),
                        out@[i as int]@ == partly_cut(before[i as int], edge_id, e0@, e1@, k),
                        forall|j: int| i < j < r ==> (#[trigger] out@[j])@ == before[j],
                    decreases n - r,
                {
                    let ghost prior = out@;
                    out.push(shells[r].clone());
                    assert(shell_views(shells@)[r as int] == shells@[r as int]@);
                    assert forall|j: int| 0 <= j < r implies #[trigger] out@[j] == prior[j] by {}
                    r += 1;
                }
                proof {
                    assert(shell_views(out@) =~= shells_partly_cut(
                        before,
                        edge_id,
                        e0@,
                        e1@,
                        i as int,
                        k,
                    ));
                    assert(solid_cut_stopped(
                        *cut,
                        before,
                        shell_views(out@),
                        edge_id,
                        vertex@,
                        old(ids).issued(),
                        x@,
                        e0@,
                        e1@,
                        i as int,
                        k,
                    ));
                }
                return Err(out);
            }
            i += 1;
        }
        assert(shell_views(out@) =~= shells_cut(before, edge_id, e0@, e1@));
        match check_boundaries(&out) {
            Some(_) => {
                proof {
                    assert(solid_cut_unfit(
                        *cut,
                        before,
                        shell_views(out@),
                        edge_id,
                        vertex@,
                        old(ids).issued(),
                        x@,
                        e0@,
                        e1@,
                    ));
                }
                Err(out)
            },
            None => Ok(Solid::new(out)),
        }
    }
}

/// The handles `a` and `b`, one after the other, pass through the vertex
/// `v` along the two edges `p` and `q`.
pub open spec fn is_corner_pair<P, C>(
    a: EdgeModel<P, C>,
    b: EdgeModel<P, C>,
    v: u64,
    p: u64,
    q: u64,
) -> bool {
    a.back().id == v && b.front().id == v && ((a.id == p && b.id == q) || (a.id == q && b.id == p))
}

/// What stands for a passage through the vertex that begins with `a`: the
/// fused edge `n`, in the direction of the passage.
pub open spec fn fused_pair<P, C>(a: EdgeModel<P, C>, p: u64, n: EdgeModel<P, C>) -> EdgeModel<P, C> {
    if a.id == p {
        n
    } else {
        n.inverse()
    }
}

/// The wire from position `i` on, with every passage through `v` along
/// `p` and `q` replaced by the fused edge `n`.
pub open spec fn fuse_from<P, C>(
    w: Seq<EdgeModel<P, C>>,
    v: u64,
    p: u64,
    q: u64,
    n: EdgeModel<P, C>,
    i: int,
) -> Seq<EdgeModel<P, C>>
    decreases w.len() - i,
{
    if i < 0 || i >= w.len() {
        Seq::empty()
    } else if i + 1 < w.len() && is_corner_pair(w[i], w[i + 1], v, p, q) {
        seq![fused_pair(w[i], p, n)] + fuse_from(w, v, p, q, n, i + 2)
    } else {
        seq![w[i]] + fuse_from(w, v, p, q, n, i + 1)
    }
}

/// The closed wire begun one edge later, if its last and its first edge are
/// a passage through `v` along `p` and `q`: then the passage lies at its end.
pub open spec fn seam_turned<P, C>(w: Seq<EdgeModel<P, C>>, v: u64, p: u64, q: u64) -> Seq<
    EdgeModel<P, C>,
> {
    if w.len() >= 2 && is_corner_pair(w[w.len() - 1], w[0], v, p, q) {
        w.subrange(1, w.len() as int).push(w[0])
    } else {
        w
    }
}

/// The wire with every passage through `v` along `p` and `q` replaced by
/// the fused edge `n`.
pub open spec fn wire_fused<P, C>(
    w: Seq<EdgeModel<P, C>>,
    v: u64,
    p: u64,
    q: u64,
    n: EdgeModel<P, C>,
) -> Seq<EdgeModel<P, C>> {
    fuse_from(seam_turned(w, v, p, q), v, p, q, n, 0)
}

/// The wires, each with the passages through `v` fused.
pub open spec fn wires_fused<P, C>(
    b: Seq<Seq<EdgeModel<P, C>>>,
    v: u64,
    p: u64,
    q: u64,
    n: EdgeModel<P, C>,
) -> Seq<Seq<EdgeModel<P, C>>> {
    Seq::new(b.len(), |w: int| wire_fused(b[w], v, p, q, n))
}

/// The faces, each with the passages through `v` fused in its boundaries.
pub open spec fn faces_fused<P, C, S>(
    s: Seq<FaceModel<P, C, S>>,
    v: u64,
    p: u64,
    q: u64,
    n: EdgeModel<P, C>,
) -> Seq<FaceModel<P, C, S>> {
    Seq::new(
        s.len(),
        |f: int| FaceModel { boundaries: wires_fused(s[f].boundaries, v, p, q, n), ..s[f] },
    )
}

/// No edge of the wires is `p` or `q`, and none starts or ends at `v`.
pub open spec fn rid_of<P, C>(b: Seq<Seq<EdgeModel<P, C>>>, v: u64, p: u64, q: u64) -> bool {
    forall|w: int, k: int|
        0 <= w < b.len() && 0 <= k < b[w].len() ==> (#[trigger] b[w][k]).id != p && b[w][k].id != q
            && b[w][k].start.id != v && b[w][k].end.id != v
}

/// After the fusion every boundary is still a closed simple chain, the
/// two edges are gone, and so is the vertex.
pub open spec fn fuse_fits<P, C, S>(
    s: Seq<FaceModel<P, C, S>>,
    v: u64,
    p: u64,
    q: u64,
    n: EdgeModel<P, C>,
) -> bool {
    forall|f: int|
        0 <= f < s.len() ==> all_loops(#[trigger] wires_fused(s[f].boundaries, v, p, q, n))
            && rid_of(wires_fused(s[f].boundaries, v, p, q, n), v, p, q)
}

/// Face `k` is the first that the fusion does not fit: a boundary of it
/// would not be a closed simple chain, or one of the two edges or the vertex
/// would remain in it.
pub open spec fn fuse_stops_at<P, C, S>(
    s: Seq<FaceModel<P, C, S>>,
    v: u64,
    p: u64,
    q: u64,
    n: EdgeModel<P, C>,
    k: int,
) -> bool {
    &&& 0 <= k < s.len()
    &&& !(all_loops(wires_fused(s[k].boundaries, v, p, q, n)) && rid_of(
        wires_fused(s[k].boundaries, v, p, q, n),
        v,
        p,
        q,
    ))
    &&& forall|j: int|
        0 <= j < k ==> all_loops(#[trigger] wires_fused(s[j].boundaries, v, p, q, n)) && rid_of(
            wires_fused(s[j].boundaries, v, p, q, n),
            v,
            p,
            q,
        )
}

/// The faces with the passages through `v` fused in the faces before face
/// `k`, and the others as they are.
pub open spec fn partly_fused<P, C, S>(
    s: Seq<FaceModel<P, C, S>>,
    v: u64,
    p: u64,
    q: u64,
    n: EdgeModel<P, C>,
    k: int,
) -> Seq<FaceModel<P, C, S>> {
    Seq::new(
        s.len(),
        |f: int|
            if f < k {
                FaceModel { boundaries: wires_fused(s[f].boundaries, v, p, q, n), ..s[f] }
            } else {
                s[f]
            },
    )
}

/// In some boundary of the faces the handle `y` follows the handle `x`,
/// and `x` ends at the vertex `v`.
pub open spec fn corner_in<P, C, S>(
    s: Seq<FaceModel<P, C, S>>,
    x: EdgeModel<P, C>,
    y: EdgeModel<P, C>,
    v: u64,
) -> bool {
    exists|f: int, w: int, k: int|
        0 <= f < s.len() && 0 <= w < s[f].boundaries.len() && 0 <= k < s[f].boundaries[w].len()
            && #[trigger] s[f].boundaries[w][k] == x && s[f].boundaries[w][next_in(
            k,
            s[f].boundaries[w].len() as int,
        )] == y && x.back().id == v
}

/// `n` is the fusion of the handles `x` and `y`: a new edge from where `x`
/// starts to where `y` ends, along the curve that `concat` makes of their
/// curves, each taken in the direction of its handle.
pub open spec fn is_fusion<P, C, F: Fn(&C, bool, &C, bool) -> Option<C>>(
    concat: F,
    x: EdgeModel<P, C>,
    y: EdgeModel<P, C>,
    n: EdgeModel<P, C>,
    base: nat,
) -> bool {
    &&& concat.ensures((&x.curve, x.forward, &y.curve, y.forward), Some(n.curve))
    &&& n.start == x.front()
    &&& n.end == y.back()
    &&& n.forward
    &&& n.id as nat == base
}

/// The fusion of the handles `x` and `y` at the vertex `v` into the edge
/// `n` stopped at face `k`: the faces before it are fused, and it and the
/// faces after it are as they were.
pub open spec fn fuse_stopped<P, C, S, F: Fn(&C, bool, &C, bool) -> Option<C>>(
    concat: F,
    before: Seq<FaceModel<P, C, S>>,
    after: Seq<FaceModel<P, C, S>>,
    v: u64,
    base: nat,
    x: EdgeModel<P, C>,
    y: EdgeModel<P, C>,
    n: EdgeModel<P, C>,
    k: int,
) -> bool {
    &&& corner_in(before, x, y, v)
    &&& x.id != y.id
    &&& is_fusion(concat, x, y, n, base)
    &&& fuse_stops_at(before, v, x.id, y.id, n, k)
    &&& after == partly_fused(before, v, x.id, y.id, n, k)
}

/// What `remove_vertex_by_concat_edges` does to faces: with `done`,
/// `after` is `before` with the passages through `v` fused, along the two
/// different edges of a corner at `v`, every boundary is still a closed
/// simple chain, and the two edges and the vertex are gone. Without, either
/// `after` is `before`, and there is no corner at `v`, or at one the same
/// edge comes and goes, or `concat` can fail on one; or the fusion stopped
/// at the first face that it does not fit, and `after` is `before` with the
/// faces before that one fused.
pub open spec fn fuse_outcome<P, C, S, F: Fn(&C, bool, &C, bool) -> Option<C>>(
    concat: F,
    before: Seq<FaceModel<P, C, S>>,
    after: Seq<FaceModel<P, C, S>>,
    v: u64,
    base: nat,
    done: bool,
) -> bool {
    if done {
        exists|x: EdgeModel<P, C>, y: EdgeModel<P, C>, n: EdgeModel<P, C>|
            {
                &&& corner_in(before, x, y, v)
                &&& x.id != y.id
                &&& #[trigger] is_fusion(concat, x, y, n, base)
                &&& fuse_fits(before, v, x.id, y.id, n)
                &&& after == faces_fused(before, v, x.id, y.id, n)
            }
    } else {
        ||| after == before && forall|x: EdgeModel<P, C>, y: EdgeModel<P, C>|
            !#[trigger] corner_in(before, x, y, v)
        ||| after == before && exists|x: EdgeModel<P, C>, y: EdgeModel<P, C>|
            #[trigger] corner_in(before, x, y, v) && (x.id == y.id || concat.ensures(
                (&x.curve, x.forward, &y.curve, y.forward),
                None,
            ))
        ||| exists|x: EdgeModel<P, C>, y: EdgeModel<P, C>, n: EdgeModel<P, C>, k: int|
            #[trigger] fuse_stopped(concat, before, after, v, base, x, y, n, k)
    }
}

/// Whether the two handles, one after the other, pass through the vertex
/// along the two edges.
fn pair_at<P, C>(a: &Edge<P, C>, b: &Edge<P, C>, v: u64, p: u64, q: u64) -> (r: bool)
    ensures
        r == is_corner_pair(a@, b@, v, p, q),
{
    a.back().id() == v && b.front().id() == v && ((a.id() == p && b.id() == q) || (a.id() == q
        && b.id() == p))
}

/// The wire with the passages through `v` fused.
fn fuse_wire<P, C>(es: &Vec<Edge<P, C>>, v: u64, p: u64, q: u64, n: &Edge<P, C>) -> (out: Vec<
    Edge<P, C>,
>)
    ensures
        edge_views(out@) == wire_fused(edge_views(es@), v, p, q, n@),
{
    let ghost w0 = edge_views(es@);
    let len = es.len();
    // The wire, begun one edge later if a passage lies over its seam.
    let mut turned: Vec<Edge<P, C>> = Vec::new();
    if len >= 2 && pair_at(&es[len - 1], &es[0], v, p, q) {
        let mut k: usize = 1;
        while k < len
            invariant
                len == es@.len(),
                1 <= k <= len,
                w0 == edge_views(es@),
                edge_views(turned@) == w0.subrange(1, k as int),
            decreases len - k,
        {
            let ghost before = edge_views(turned@);
            turned.push(es[k].clone());
            assert(edge_views(turned@) =~= before.push(w0[k as int]));
            assert(edge_views(turned@) =~= w0.subrange(1, k + 1));
            k += 1;
        }
        let ghost before = edge_views(turned@);
        turned.push(es[0].clone());
        assert(edge_views(turned@) =~= before.push(w0[0]));
    } else {
        let mut k: usize = 0;
        while k < len
            invariant
                len == es@.len(),
                k <= len,
                w0 == edge_views(es@),
                edge_views(turned@) == w0.subrange(0, k as int),
            decreases len - k,
        {
            let ghost before = edge_views(turned@);
            turned.push(es[k].clone());
            assert(edge_views(turned@) =~= before.push(w0[k as int]));
            assert(edge_views(turned@) =~= w0.subrange(0, k + 1));
            k += 1;
        }
        assert(w0.subrange(0, len as int) =~= w0);
    }
    let ghost w = edge_views(turned@);
    assert(w == seam_turned(w0, v, p, q));
    let mut out: Vec<Edge<P, C>> = Vec::new();
    let mut i: usize = 0;
    while i < turned.len()
        invariant
            i <= turned@.len(),
            w == edge_views(turned@),
            fuse_from(w, v, p, q, n@, 0) == edge_views(out@) + fuse_from(w, v, p, q, n@, i as int),
        decreases turned@.len() - i,
    {
        let ghost before = edge_views(out@);
        assert(w[i as int] == turned@[i as int]@);
        if i + 1 < turned.len() && pair_at(&turned[i], &turned[i + 1], v, p, q) {
            assert(w[i + 1] == turned@[i + 1]@);
            if turned[i].id() == p {
                out.push(n.clone());
            } else {
                out.push(n.inverse());
            }
            assert(edge_views(out@) =~= before.push(fused_pair(w[i as int], p, n@)));
            assert(before + (seq![fused_pair(w[i as int], p, n@)] + fuse_from(
                w,
                v,
                p,
                q,
                n@,
                i + 2,
            )) =~= edge_views(out@) + fuse_from(w, v, p, q, n@, i + 2));
            i += 2;
        } else {
            if i + 1 < turned.len() {
                assert(w[i + 1] == turned@[i + 1]@);
            }
            out.push(turned[i].clone());
            assert(edge_views(out@) =~= before.push(w[i as int]));
            assert(before + (seq![w[i as int]] + fuse_from(w, v, p, q, n@, i + 1)) =~= edge_views(
                out@,
            ) + fuse_from(w, v, p, q, n@, i + 1));
            i += 1;
        }
    }
    assert(edge_views(out@) + Seq::<EdgeModel<P, C>>::empty() =~= edge_views(out@));
    out
}

/// Whether no edge of the wires is `p` or `q`, and none starts or ends at
/// `v`.
fn is_rid_of<P, C>(wires: &Vec<Vec<Edge<P, C>>>, v: u64, p: u64, q: u64) -> (r: bool)
    ensures
        r == rid_of(wires_of(wires@), v, p, q),
{
    let ghost b = wires_of(wires@);
    let mut w: usize = 0;
    while w < wires.len()
        invariant
            w <= wires@.len(),
            b == wires_of(wires@),
            forall|u: int, k: int|
                0 <= u < w && 0 <= k < b[u].len() ==> (#[trigger] b[u][k]).id != p && b[u][k].id
                    != q && b[u][k].start.id != v && b[u][k].end.id != v,
        decreases wires@.len() - w,
    {
        let es = &wires[w];
        assert(b[w as int] == edge_views(es@));
        let mut k: usize = 0;
        while k < es.len()
            invariant
                k <= es@.len(),
                w < wires@.len(),
                b == wires_of(wires@),
                b[w as int] == edge_views(es@),
                forall|i: int|
                    0 <= i < k ==> (#[trigger] b[w as int][i]).id != p && b[w as int][i].id != q
                        && b[w as int][i].start.id != v && b[w as int][i].end.id != v,
            decreases es@.len() - k,
        {
            let e = &es[k];
            assert(b[w as int][k as int] == e@);
            if e.id() == p || e.id() == q || e.absolute_front().id() == v
                || e.absolute_back().id() == v {
                return false;
            }
            k += 1;
        }
        w += 1;
    }
    true
}

/// The faces with the passages through `v` fused, face by face, up to the
/// first face that the fusion does not fit: that face and those after it are
/// left as they are.
fn fuse_faces_partly<P, C, S>(
    faces: &Vec<Face<P, C, S>>,
    v: u64,
    p: u64,
    q: u64,
    n: &Edge<P, C>,
) -> (res: (Vec<Face<P, C, S>>, bool))
    ensures
        res.1 <==> fuse_fits(face_views(faces@), v, p, q, n@),
        res.1 ==> face_views(res.0@) == faces_fused(face_views(faces@), v, p, q, n@),
        !res.1 ==> exists|k: int|
            #[trigger] fuse_stops_at(face_views(faces@), v, p, q, n@, k) && face_views(res.0@)
                == partly_fused(face_views(faces@), v, p, q, n@, k),
{
    let ghost s = face_views(faces@);
    let mut out: Vec<Face<P, C, S>> = Vec::new();
    let mut f: usize = 0;
    while f < faces.len()
        invariant
            f <= faces@.len(),
            s == face_views(faces@),
            out@.len() == f,
            forall|g: int|
                0 <= g < f ==> all_loops(#[trigger] wires_fused(s[g].boundaries, v, p, q, n@))
                    && rid_of(wires_fused(s[g].boundaries, v, p, q, n@), v, p, q),
            forall|g: int|
                0 <= g < f ==> (#[trigger] out@[g])@ == (FaceModel {
                    boundaries: wires_fused(s[g].boundaries, v, p, q, n@),
                    ..s[g]
                }),
        decreases faces@.len() - f,
    {
        let face = &faces[f];
        let ws = face.absolute_boundaries();
        let ghost b = s[f as int].boundaries;
        assert(s[f as int] == face@);
        let mut wires: Vec<Vec<Edge<P, C>>> = Vec::new();
        let mut w: usize = 0;
        while w < ws.len()
            invariant
                w <= ws@.len(),
                wire_views(ws@) == b,
                wires@.len() == w,
                forall|u: int|
                    0 <= u < w ==> edge_views((#[trigger] wires@[u])@) == wire_fused(
                        b[u],
                        v,
                        p,
                        q,
                        n@,
                    ),
            decreases ws@.len() - w,
        {
            let es = ws[w].edges();
            assert(wire_views(ws@)[w as int] == ws@[w as int]@);
            assert(edge_views(es@) =~= b[w as int]);
            let fused = fuse_wire(es, v, p, q, n);
            wires.push(fused);
            w += 1;
        }
        assert(wires_of(wires@) =~= wires_fused(b, v, p, q, n@));
        let made = if is_rid_of(&wires, v, p, q) {
            reface(face, wires)
        } else {
            None
        };
        match made {
            Some(g) => {
                out.push(g);
            },
            None => {
                let ghost k = f as int;
                assert(fuse_stops_at(s, v, p, q, n@, k));
                let mut r: usize = f;
                while r < faces.len()
                    invariant
                        f <= r <= faces@.len(),
                        k == f,
                        s == face_views(faces@),
                        out@.len() == r,
                        forall|g: int|
                            0 <= g < k ==> (#[trigger] out@[g])@ == (FaceModel {
                                boundaries: wires_fused(s[g].boundaries, v, p, q, n@),
                                ..s[g]
                            }),
                        forall|g: int| k <= g < r ==> (#[trigger] out@[g])@ == s[g],
                    decreases faces@.len() - r,
                {
                    let ghost done = out@;
                    out.push(faces[r].clone());
                    assert(s[r as int] == faces@[r as int]@);
                    assert forall|g: int| 0 <= g < r implies #[trigger] out@[g] == done[g] by {}
                    r += 1;
                }
                assert(face_views(out@) =~= partly_fused(s, v, p, q, n@, k));
                return (out, false);
            },
        }
        f += 1;
    }
    assert(face_views(out@) =~= faces_fused(s, v, p, q, n@));
    (out, true)
}

/// The first corner at the vertex `v` in the boundaries of the faces: the
/// handle that ends there and the one that follows it.
fn find_corner<P, C, S>(faces: &Vec<Face<P, C, S>>, v: u64) -> (res: Option<(Edge<P, C>, Edge<P, C>)>)
    ensures
        res matches Some(xy) ==> corner_in(face_views(faces@), xy.0@, xy.1@, v),
        res is None ==> forall|x: EdgeModel<P, C>, y: EdgeModel<P, C>|
            !#[trigger] corner_in(face_views(faces@), x, y, v),
{
    let ghost s = face_views(faces@);
    let mut f: usize = 0;
    while f < faces.len()
        invariant
            f <= faces@.len(),
            s == face_views(faces@),
            forall|g: int, w: int, k: int|
                0 <= g < f && 0 <= w < s[g].boundaries.len() && 0 <= k < s[g].boundaries[w].len()
                    ==> (#[trigger] s[g].boundaries[w][k]).back().id != v,
        decreases faces@.len() - f,
    {
        let ws = faces[f].absolute_boundaries();
        let ghost b = s[f as int].boundaries;
        assert(s[f as int] == faces@[f as int]@);
        let mut w: usize = 0;
        while w < ws.len()
            invariant
                w <= ws@.len(),
                f < faces@.len(),
                s == face_views(faces@),
                b == s[f as int].boundaries,
                wire_views(ws@) == b,
                forall|u: int, k: int|
                    0 <= u < w && 0 <= k < b[u].len() ==> (#[trigger] b[u][k]).back().id != v,
            decreases ws@.len() - w,
        {
            let es = ws[w].edges();
            assert(wire_views(ws@)[w as int] == ws@[w as int]@);
            let len = es.len();
            let mut k: usize = 0;
            while k < len
                invariant
                    k <= len,
                    len == es@.len(),
                    w < ws@.len(),
                    f < faces@.len(),
                    s == face_views(faces@),
                    b == s[f as int].boundaries,
                    b.len() == ws@.len(),
                    es@.len() == b[w as int].len(),
                    forall|i: int| 0 <= i < es@.len() ==> (#[trigger] es@[i])@ == b[w as int][i],
                    forall|i: int| 0 <= i < k ==> (#[trigger] b[w as int][i]).back().id != v,
                decreases len - k,
            {
                if es[k].back().id() == v {
                    let nxt = if k + 1 < len {
                        k + 1
                    } else {
                        0
                    };
                    assert(s[f as int].boundaries[w as int][k as int] == es@[k as int]@);
                    assert(s[f as int].boundaries[w as int][nxt as int] == es@[nxt as int]@);
                    return Some((es[k].clone(), es[nxt].clone()));
                }
                k += 1;
            }
            w += 1;
        }
        f += 1;
    }
    proof {
        assert forall|x: EdgeModel<P, C>, y: EdgeModel<P, C>| !#[trigger] corner_in(s, x, y, v) by {
            if corner_in(s, x, y, v) {
                let (g, w, k) = choose|g: int, w: int, k: int|
                    0 <= g < s.len() && 0 <= w < s[g].boundaries.len() && 0 <= k
                        < s[g].boundaries[w].len() && #[trigger] s[g].boundaries[w][k] == x
                        && s[g].boundaries[w][next_in(k, s[g].boundaries[w].len() as int)] == y
                        && x.back().id == v;
                assert(s[g].boundaries[w][k].back().id != v);
            }
        }
    }
    None
}

impl<P, C, S> Shell<P, C, S> {
    /// Removes the vertex `vertex_id` by making one edge of the two that
    /// meet in it: `concat` makes one curve of their curves, and in every
    /// boundary of every face each passage through the vertex along the two
    /// edges gives way to the new edge, in the direction of the passage.
    /// Where no boundary passes through the vertex, the same edge comes and
    /// goes, or `concat` gives nothing, the shell is left as it is and
    /// `false` is returned. Where in a face a boundary would not be a closed
    /// simple chain afterwards, or one of the two edges or the vertex would
    /// remain (as when more than two edges meet in it), the fusion stops at
    /// that face: the faces before it stay fused, the shell is no longer fit
    /// for use, and `false` is returned.
    pub fn remove_vertex_by_concat_edges<F: Fn(&C, bool, &C, bool) -> Option<C>>(
        &mut self,
        ids: &mut IdSource,
        vertex_id: u64,
        concat: &F,
    ) -> (done: bool)
        requires
            old(ids).remaining() >= 1,
            forall|c: C, a: bool, d: C, b: bool| concat.requires((&c, a, &d, b)),
        ensures
            old(ids).issued() <= final(ids).issued() <= old(ids).issued() + 1,
            fuse_outcome(*concat, old(self)@, final(self)@, vertex_id, old(ids).issued(), done),
    {
        let (x, y) = match find_corner(self.faces(), vertex_id) {
            Some(xy) => xy,
            None => { return false; },
        };
        if x.id() == y.id() {
            return false;
        }
        let curve = match concat(x.curve(), x.orientation(), y.curve(), y.orientation()) {
            Some(c) => c,
            None => { return false; },
        };
        let n = Edge::new_unchecked(ids, x.front(), y.back(), curve);
        assert(is_fusion(*concat, x@, y@, n@, old(ids).issued()));
        let ghost before = self@;
        let (faces, done) = fuse_faces_partly(self.faces(), vertex_id, x.id(), y.id(), &n);
        *self = Shell::from_faces(faces);
        proof {
            if !done {
                let k = choose|k: int|
                    #[trigger] fuse_stops_at(before, vertex_id, x@.id, y@.id, n@, k) && self@
                        == partly_fused(before, vertex_id, x@.id, y@.id, n@, k);
                assert(fuse_stopped(
                    *concat,
                    before,
                    self@,
                    vertex_id,
                    old(ids).issued(),
                    x@,
                    y@,
                    n@,
                    k,
                ));
            }
        }
        done
    }
}

/// In some boundary of some shell the handle `y` follows the handle `x`,
/// and `x` ends at the vertex `v`.
pub open spec fn solid_corner<P, C, S>(
    b: Seq<Seq<FaceModel<P, C, S>>>,
    x: EdgeModel<P, C>,
    y: EdgeModel<P, C>,
    v: u64,
) -> bool {
    exists|i: int| 0 <= i < b.len() && #[trigger] corner_in(b[i], x, y, v)
}

/// The shells, each with the passages through `v` fused.
pub open spec fn shells_fused<P, C, S>(
    b: Seq<Seq<FaceModel<P, C, S>>>,
    v: u64,
    p: u64,
    q: u64,
    n: EdgeModel<P, C>,
) -> Seq<Seq<FaceModel<P, C, S>>> {
    Seq::new(b.len(), |i: int| faces_fused(b[i], v, p, q, n))
}

/// The shells with the passages through `v` fused in the shells before
/// shell `i` and in the faces of shell `i` before face `k`, and all else as
/// it is.
pub open spec fn shells_partly_fused<P, C, S>(
    b: Seq<Seq<FaceModel<P, C, S>>>,
    v: u64,
    p: u64,
    q: u64,
    n: EdgeModel<P, C>,
    i: int,
    k: int,
) -> Seq<Seq<FaceModel<P, C, S>>> {
    Seq::new(
        b.len(),
        |j: int|
            if j < i {
                faces_fused(b[j], v, p, q, n)
            } else if j == i {
                partly_fused(b[i], v, p, q, n, k)
            } else {
                b[j]
            },
    )
}

/// The fusion of the handles `x` and `y` at the vertex `v` into the edge
/// `n` stopped in shell `i` at face `k`: the shells before it and its faces
/// before that face are fused, and all else is as it was.
pub open spec fn solid_fuse_stopped<P, C, S, F: Fn(&C, bool, &C, bool) -> Option<C>>(
    concat: F,
    before: Seq<Seq<FaceModel<P, C, S>>>,
    after: Seq<Seq<FaceModel<P, C, S>>>,
    v: u64,
    base: nat,
    x: EdgeModel<P, C>,
    y: EdgeModel<P, C>,
    n: EdgeModel<P, C>,
    i: int,
    k: int,
) -> bool {
    &&& solid_corner(before, x, y, v)
    &&& x.id != y.id
    &&& is_fusion(concat, x, y, n, base)
    &&& 0 <= i < before.len()
    &&& forall|j: int| 0 <= j < i ==> fuse_fits(#[trigger] before[j], v, x.id, y.id, n)
    &&& fuse_stops_at(before[i], v, x.id, y.id, n, k)
    &&& after == shells_partly_fused(before, v, x.id, y.id, n, i, k)
}

/// The passages through `v` are fused into the edge `n` in every shell, and
/// the fusion fits every face, but the shells `after` cannot all bound a
/// solid.
pub open spec fn solid_fuse_unfit<P, C, S, F: Fn(&C, bool, &C, bool) -> Option<C>>(
    concat: F,
    before: Seq<Seq<FaceModel<P, C, S>>>,
    after: Seq<Seq<FaceModel<P, C, S>>>,
    v: u64,
    base: nat,
    x: EdgeModel<P, C>,
    y: EdgeModel<P, C>,
    n: EdgeModel<P, C>,
) -> bool {
    &&& solid_corner(before, x, y, v)
    &&& x.id != y.id
    &&& is_fusion(concat, x, y, n, base)
    &&& forall|j: int| 0 <= j < before.len() ==> fuse_fits(#[trigger] before[j], v, x.id, y.id, n)
    &&& after == shells_fused(before, v, x.id, y.id, n)
    &&& !all_boundaries(after)
}

/// After the fusion every boundary of every shell is still a closed
/// simple chain, the two edges and the vertex are gone, and every shell can
/// still bound a solid.
pub open spec fn solid_fuse_fits<P, C, S>(
    b: Seq<Seq<FaceModel<P, C, S>>>,
    v: u64,
    p: u64,
    q: u64,
    n: EdgeModel<P, C>,
) -> bool {
    &&& forall|i: int| 0 <= i < b.len() ==> fuse_fits(#[trigger] b[i], v, p, q, n)
    &&& all_boundaries(shells_fused(b, v, p, q, n))
}

/// What `remove_vertex_by_concat_edges` answers for a solid with the shells
/// `before`. The solid with the passages through `v` fused, along the two
/// different edges of a corner at `v`, in every shell, where that fits.
/// Otherwise the shells as the fusion left them: as they were, where there
/// is no corner at `v`, or at one the same edge comes and goes, or `concat`
/// can fail on one; fused up to the first face that the fusion does not fit;
/// or fused throughout, where they can then no longer bound a solid.
pub open spec fn solid_fuse_outcome<P, C, S, F: Fn(&C, bool, &C, bool) -> Option<C>>(
    concat: F,
    before: Seq<Seq<FaceModel<P, C, S>>>,
    res: Result<Solid<P, C, S>, Vec<Shell<P, C, S>>>,
    v: u64,
    base: nat,
) -> bool {
    match res {
        Ok(solid) => exists|x: EdgeModel<P, C>, y: EdgeModel<P, C>, n: EdgeModel<P, C>|
            {
                &&& solid_corner(before, x, y, v)
                &&& x.id != y.id
                &&& #[trigger] is_fusion(concat, x, y, n, base)
                &&& solid_fuse_fits(before, v, x.id, y.id, n)
                &&& solid@ == shells_fused(before, v, x.id, y.id, n)
            },
        Err(shells) => {
            ||| shell_views(shells@) == before && forall|x: EdgeModel<P, C>, y: EdgeModel<P, C>|
                !#[trigger] solid_corner(before, x, y, v)
            ||| shell_views(shells@) == before && exists|x: EdgeModel<P, C>, y: EdgeModel<P, C>|
                #[trigger] solid_corner(before, x, y, v) && (x.id == y.id || concat.ensures(
                    (&x.curve, x.forward, &y.curve, y.forward),
                    None,
                ))
            ||| exists|x: EdgeModel<P, C>, y: EdgeModel<P, C>, n: EdgeModel<P, C>, i: int, k: int|
                #[trigger] solid_fuse_stopped(
                    concat,
                    before,
                    shell_views(shells@),
                    v,
                    base,
                    x,
                    y,
                    n,
                    i,
                    k,
                )
            ||| exists|x: EdgeModel<P, C>, y: EdgeModel<P, C>, n: EdgeModel<P, C>|
                #[trigger] solid_fuse_unfit(concat, before, shell_views(shells@), v, base, x, y, n)
        },
    }
}

impl<P, C, S> Solid<P, C, S> {
    /// Removes the vertex `vertex_id` by making one edge of the two that
    /// meet in it, in every shell: `concat` makes one curve of the curves of
    /// the two handles at the first corner at the vertex, and every passage
    /// through the vertex along the two edges gives way to the new edge.
    /// Where that fits in every shell and every shell can still bound a
    /// solid, the answer is the solid. A solid cannot hold shells that are
    /// fused in part, so the solid is given up for the fusion: where it
    /// fails, the answer is the shells as it left them, those before the
    /// failure fused, and they are no longer fit for use.
    pub fn remove_vertex_by_concat_edges<F: Fn(&C, bool, &C, bool) -> Option<C>>(
        self,
        ids: &mut IdSource,
        vertex_id: u64,
        concat: &F,
    ) -> (res: Result<Solid<P, C, S>, Vec<Shell<P, C, S>>>)
        requires
            old(ids).remaining() >= 1,
            forall|c: C, a: bool, d: C, b: bool| concat.requires((&c, a, &d, b)),
        ensures
            old(ids).issued() <= final(ids).issued() <= old(ids).issued() + 1,
            solid_fuse_outcome(*concat, self@, res, vertex_id, old(ids).issued()),
    {
        let ghost before = self@;
        let mut found: Option<(Edge<P, C>, Edge<P, C>)> = None;
        let ghost mut at: int = 0;
        let mut i: usize = 0;
        while i < self.boundaries().len() && found.is_none()
            invariant
                self@ == before,
                i <= before.len(),
                ids.issued() == old(ids).issued(),
                found matches Some(xy) ==> 0 <= at < before.len() && corner_in(
                    before[at],
                    xy.0@,
                    xy.1@,
                    vertex_id,
                ),
                found is None ==> forall|j: int, x: EdgeModel<P, C>, y: EdgeModel<P, C>|
                    0 <= j < i ==> !#[trigger] corner_in(before[j], x, y, vertex_id),
            decreases before.len() - i,
        {
            let shells = self.boundaries();
            assert(shell_views(shells@)[i as int] == shells@[i as int]@);
            found = find_corner(shells[i].faces(), vertex_id);
            proof {
                at = i as int;
            }
            i += 1;
        }
        let (x, y) = match found {
            Some(xy) => xy,
            None => {
                proof {
                    assert forall|x: EdgeModel<P, C>, y: EdgeModel<P, C>| !#[trigger] solid_corner(
                        before,
                        x,
                        y,
                        vertex_id,
                    ) by {
                        if solid_corner(before, x, y, vertex_id) {
                            let j = choose|j: int|
                                0 <= j < before.len() && #[trigger] corner_in(
                                    before[j],
                                    x,
                                    y,
                                    vertex_id,
                                );
                        }
                    }
                }
                return Err(self.into_boundaries());
            },
        };
        assert(solid_corner(before, x@, y@, vertex_id)) by {
            assert(corner_in(before[at], x@, y@, vertex_id));
        }
        if x.id() == y.id() {
            return Err(self.into_boundaries());
        }
        let curve = match concat(x.curve(), x.orientation(), y.curve(), y.orientation()) {
            Some(c) => c,
            None => { return Err(self.into_boundaries()); },
        };
        let n = Edge::new_unchecked(ids, x.front(), y.back(), curve);
        assert(is_fusion(*concat, x@, y@, n@, old(ids).issued()));
        let shells = self.into_boundaries();
        let len = shells.len();
        let mut out: Vec<Shell<P, C, S>> = Vec::new();
        let mut i: usize = 0;
        while i < len
            invariant
                self@ == before,
                len == shells@.len(),
                shell_views(shells@) == before,
                i <= len,
                ids.issued() == old(ids).issued() + 1,
                solid_corner(before, x@, y@, vertex_id),
                x@.id != y@.id,
                is_fusion(*concat, x@, y@, n@, old(ids).issued()),
                out@.len() == i,
                forall|j: int|
                    0 <= j < i ==> (#[trigger] out@[j])@ == faces_fused(
                        before[j],
                        vertex_id,
                        x@.id,
                        y@.id,
                        n@,
                    ),
                forall|j: int|
                    0 <= j < i ==> fuse_fits(#[trigger] before[j], vertex_id, x@.id, y@.id, n@),
            decreases len - i,
        {
            assert(shell_views(shells@)[i as int] == shells@[i as int]@);
            let (faces, done) = fuse_faces_partly(shells[i].faces(), vertex_id, x.id(), y.id(), &n);
            out.push(Shell::from_faces(faces));
            if !done {
                let ghost k = choose|k: int|
                    #[trigger] fuse_stops_at(before[i as int], vertex_id, x@.id, y@.id, n@, k)
                        && out@[i as int]@ == partly_fused(
                        before[i as int],
                        vertex_id,
                        x@.id,
                        y@.id,
                        n@,
                        k,
                    );
                let mut r: usize = i + 1;
                while r < len
                    invariant
                        len == shells@.len(),
                        shell_views(shells@) == before,
                        i < r <= len,
                        out@.len() == r,
                        forall|j: int|
                            0 <= j < i ==> (#[trigger] out@[j])@ == faces_fused(
                                before[j],
                                vertex_id,
                                x@.id,
                                y@.id,
                                n@,
                            ),
                        out@[i as int]@ == partly_fused(
                            before[i as int],
                            vertex_id,
                            x@.id,
                            y@.id,
                            n@,
                            k,
                        ),
                        forall|j: int| i < j < r ==> (#[trigger] out@[j])@ == before[j],
                    decreases len - r,
                {
                    let ghost prior = out@;
                    out.push(shells[r].clone());
                    assert(shell_views(shells@)[r as int] == shells@[r as int]@);
                    assert forall|j: int| 0 <= j < r implies #[trigger] out@[j] == prior[j] by {}
                    r += 1;
                }
                proof {
                    assert(shell_views(out@) =~= shells_partly_fused(
                        before,
                        vertex_id,
                        x@.id,
                        y@.id,
                        n@,
                        i as int,
                        k,
                    ));
                    assert(solid_fuse_stopped(
                        *concat,
                        before,
                        shell_views(out@),
                        vertex_id,
                        old(ids).issued(),
                        x@,
                        y@,
                        n@,
                        i as int,
                        k,
                    ));
                }
                return Err(out);
            }
            i += 1;
        }
        assert(shell_views(out@) =~= shells_fused(before, vertex_id, x@.id, y@.id, n@));
        match check_boundaries(&out) {
            Some(_) => {
                proof {
                    assert(solid_fuse_unfit(
                        *concat,
                        before,
                        shell_views(out@),
                        vertex_id,
                        old(ids).issued(),
                        x@,
                        y@,
                        n@,
                    ));
                }
                Err(out)
            },
            None => Ok(Solid::new(out)),
        }
    }
}

} // verus!
