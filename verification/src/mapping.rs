//! Copies of topology with new identities, in which what was shared stays
//! shared.
use std::collections::HashMap;
use vstd::prelude::*;
use crate::edge::{Edge, EdgeModel};
use crate::face::{all_rings, is_loop, is_ring, wire_views, Face, FaceModel};
use crate::ident::IdSource;
use crate::likeness::{alike, lemma_alike_fate};
use crate::shell::{face_views, faces_uses, uses_of, wire_uses, wires_uses, Shell, Use};
use crate::solid::{all_boundaries, is_boundary, shell_views, Solid};
use crate::vertex::{Vertex, VertexModel};
use crate::wire::{is_chain, Wire};

verus! {

broadcast use vstd::std_specs::hash::group_hash_axioms;

/// Which new vertex stands for each old vertex, and which new edge for each
/// old edge, by the identities of the old ones. The new edges are recorded
/// running along their curves.
pub struct Tables<Q, D> {
    pub vertex: Map<u64, VertexModel<Q>>,
    pub edge: Map<u64, EdgeModel<Q, D>>,
}

/// Handles of one edge have the same ends.
pub open spec fn coherent<P, C>(scope: spec_fn(EdgeModel<P, C>) -> bool) -> bool {
    forall|x: EdgeModel<P, C>, y: EdgeModel<P, C>|
        #![trigger scope(x), scope(y)]
        scope(x) && scope(y) && x.id == y.id ==> x.start.id == y.start.id && x.end.id == y.end.id
}

/// The tables hold only new identities, no new identity twice, and each
/// entry is the image of something in `scope`: the point of a new vertex is
/// related by `vrel` to the point of a handle of the old one, the curve of a
/// new edge by `crel` to the curve of a handle of the old one, and the ends
/// of a new edge stand for the ends of the old one.
pub open spec fn tables_ok<P, C, Q, D>(
    t: Tables<Q, D>,
    scope: spec_fn(EdgeModel<P, C>) -> bool,
    vrel: spec_fn(P, Q) -> bool,
    crel: spec_fn(C, D) -> bool,
    base: nat,
    now: nat,
) -> bool {
    &&& forall|id: u64| #[trigger]
        t.vertex.contains_key(id) ==> base <= t.vertex[id].id < now && exists|x: EdgeModel<P, C>|
            #[trigger] scope(x) && ((x.start.id == id && vrel(x.start.point, t.vertex[id].point))
                || (x.end.id == id && vrel(x.end.point, t.vertex[id].point)))
    &&& forall|a: u64, b: u64|
        #![trigger t.vertex.contains_key(a), t.vertex.contains_key(b)]
        t.vertex.contains_key(a) && t.vertex.contains_key(b) && a != b ==> t.vertex[a].id
            != t.vertex[b].id
    &&& forall|id: u64| #[trigger]
        t.edge.contains_key(id) ==> t.edge[id].forward && base <= t.edge[id].id < now && exists|
            x: EdgeModel<P, C>,
        |
            #[trigger] scope(x) && x.id == id && crel(x.curve, t.edge[id].curve)
                && t.vertex.contains_key(x.start.id) && t.vertex.contains_key(x.end.id)
                && t.edge[id].start == t.vertex[x.start.id] && t.edge[id].end
                == t.vertex[x.end.id]
    &&& forall|a: u64, b: u64|
        #![trigger t.edge.contains_key(a), t.edge.contains_key(b)]
        t.edge.contains_key(a) && t.edge.contains_key(b) && a != b ==> t.edge[a].id
            != t.edge[b].id
}

/// `y` is what the tables make of `x`: the new edge for the identity of
/// `x`, between the new vertices for its ends, in the direction of `x`.
pub open spec fn edge_fits<P, C, Q, D>(x: EdgeModel<P, C>, y: EdgeModel<Q, D>, t: Tables<Q, D>) -> bool {
    &&& t.edge.contains_key(x.id)
    &&& t.vertex.contains_key(x.start.id)
    &&& t.vertex.contains_key(x.end.id)
    &&& y == (EdgeModel { forward: x.forward, ..t.edge[x.id] })
    &&& y.start == t.vertex[x.start.id]
    &&& y.end == t.vertex[x.end.id]
}

/// Edge by edge, `ys` is what the tables make of `xs`.
pub open spec fn wire_fits<P, C, Q, D>(
    xs: Seq<EdgeModel<P, C>>,
    ys: Seq<EdgeModel<Q, D>>,
    t: Tables<Q, D>,
) -> bool {
    &&& ys.len() == xs.len()
    &&& forall|k: int| 0 <= k < xs.len() ==> edge_fits(#[trigger] xs[k], ys[k], t)
}

/// Every entry of `old` is an entry of `new`.
pub open spec fn grows<Q, D>(old: Tables<Q, D>, new: Tables<Q, D>) -> bool {
    &&& forall|id: u64| #[trigger]
        old.vertex.contains_key(id) ==> new.vertex.contains_key(id) && new.vertex[id]
            == old.vertex[id]
    &&& forall|id: u64| #[trigger]
        old.edge.contains_key(id) ==> new.edge.contains_key(id) && new.edge[id] == old.edge[id]
}

/// Some point or curve in `scope` has no image.
pub open spec fn fails_in<P, C>(
    scope: spec_fn(EdgeModel<P, C>) -> bool,
    vfail: spec_fn(P) -> bool,
    cfail: spec_fn(C) -> bool,
) -> bool {
    exists|x: EdgeModel<P, C>| #[trigger]
        scope(x) && (vfail(x.start.point) || vfail(x.end.point) || cfail(x.curve))
}

/// `y` is what the tables make of `x`: wire by wire what they make of its
/// boundaries, seen from the same side, on a surface related to that of `x`
/// by `srel`.
pub open spec fn face_fits<P, C, S, Q, D, T>(
    x: FaceModel<P, C, S>,
    y: FaceModel<Q, D, T>,
    t: Tables<Q, D>,
    srel: spec_fn(S, T) -> bool,
) -> bool {
    &&& y.forward == x.forward
    &&& srel(x.surface, y.surface)
    &&& y.boundaries.len() == x.boundaries.len()
    &&& forall|w: int|
        0 <= w < x.boundaries.len() ==> wire_fits(#[trigger] x.boundaries[w], y.boundaries[w], t)
}

/// Face by face, `ys` is what the tables make of `xs`.
pub open spec fn shell_fits<P, C, S, Q, D, T>(
    xs: Seq<FaceModel<P, C, S>>,
    ys: Seq<FaceModel<Q, D, T>>,
    t: Tables<Q, D>,
    srel: spec_fn(S, T) -> bool,
) -> bool {
    &&& ys.len() == xs.len()
    &&& forall|f: int| 0 <= f < xs.len() ==> face_fits(#[trigger] xs[f], ys[f], t, srel)
}

/// The faces have identities from `base` up to `now`, each its own.
pub open spec fn faces_fresh<Q, D, T>(ys: Seq<FaceModel<Q, D, T>>, base: nat, now: nat) -> bool {
    &&& forall|f: int| 0 <= f < ys.len() ==> base <= (#[trigger] ys[f]).id < now
    &&& forall|f: int, g: int|
        0 <= f < g < ys.len() ==> (#[trigger] ys[f]).id != (#[trigger] ys[g]).id
}

/// The edge handles of a wire.
pub open spec fn wire_scope<P, C>(w: Seq<EdgeModel<P, C>>) -> spec_fn(EdgeModel<P, C>) -> bool {
    |x: EdgeModel<P, C>| exists|k: int| 0 <= k < w.len() && #[trigger] w[k] == x
}

/// The edge handles of the wires.
pub open spec fn wires_scope<P, C>(b: Seq<Seq<EdgeModel<P, C>>>) -> spec_fn(EdgeModel<P, C>) -> bool {
    |x: EdgeModel<P, C>|
        exists|w: int, k: int| 0 <= w < b.len() && 0 <= k < b[w].len() && #[trigger] b[w][k] == x
}

/// The edge handles of the boundaries of the faces.
pub open spec fn shell_scope<P, C, S>(s: Seq<FaceModel<P, C, S>>) -> spec_fn(
    EdgeModel<P, C>,
) -> bool {
    |x: EdgeModel<P, C>|
        exists|f: int, w: int, k: int|
            0 <= f < s.len() && 0 <= w < s[f].boundaries.len() && 0 <= k
                < s[f].boundaries[w].len() && #[trigger] s[f].boundaries[w][k] == x
}

/// Three identities for each edge of the first `n` wires.
pub open spec fn wires_cost<P, C>(b: Seq<Seq<EdgeModel<P, C>>>, n: nat) -> nat
    decreases n,
{
    if n == 0 {
        0
    } else {
        wires_cost(b, (n - 1) as nat) + 3 * b[n - 1].len()
    }
}

/// One identity for the face and three for each edge of its boundaries:
/// as many as a copy of the face can need.
pub open spec fn face_cost<P, C, S>(f: FaceModel<P, C, S>) -> nat {
    1 + wires_cost(f.boundaries, f.boundaries.len())
}

/// As many identities as copies of the first `n` faces can need.
pub open spec fn faces_cost<P, C, S>(s: Seq<FaceModel<P, C, S>>, n: nat) -> nat
    decreases n,
{
    if n == 0 {
        0
    } else {
        faces_cost(s, (n - 1) as nat) + face_cost(s[n - 1])
    }
}

/// The cost of the first wires does not exceed the cost of more.
pub proof fn lemma_wires_cost_mono<P, C>(b: Seq<Seq<EdgeModel<P, C>>>, m: nat, n: nat)
    requires
        m <= n,
    ensures
        wires_cost(b, m) <= wires_cost(b, n),
    decreases n,
{
    if m < n {
        lemma_wires_cost_mono(b, m, (n - 1) as nat);
    }
}

/// The cost of the first faces does not exceed the cost of more.
pub proof fn lemma_faces_cost_mono<P, C, S>(s: Seq<FaceModel<P, C, S>>, m: nat, n: nat)
    requires
        m <= n,
    ensures
        faces_cost(s, m) <= faces_cost(s, n),
    decreases n,
{
    if m < n {
        lemma_faces_cost_mono(s, m, (n - 1) as nat);
    }
}

/// What the tables make of a closed chain is a closed chain.
pub proof fn lemma_fits_ring<P, C, Q, D>(
    xs: Seq<EdgeModel<P, C>>,
    ys: Seq<EdgeModel<Q, D>>,
    t: Tables<Q, D>,
)
    requires
        wire_fits(xs, ys, t),
        is_ring(xs),
    ensures
        is_ring(ys),
{
    assert forall|i: int| 0 <= i < ys.len() - 1 implies (#[trigger] ys[i]).back().id == ys[i
        + 1].front().id by {
        assert(edge_fits(xs[i], ys[i], t));
        assert(edge_fits(xs[i + 1], ys[i + 1], t));
        assert(xs[i].back().id == xs[i + 1].front().id);
    }
    let n = xs.len() as int;
    assert(edge_fits(xs[0], ys[0], t));
    assert(edge_fits(xs[n - 1], ys[n - 1], t));
}

/// What the tables make of a closed simple chain is a closed simple chain.
pub proof fn lemma_fits_loop<P, C, Q, D>(
    xs: Seq<EdgeModel<P, C>>,
    ys: Seq<EdgeModel<Q, D>>,
    t: Tables<Q, D>,
)
    requires
        wire_fits(xs, ys, t),
        is_loop(xs),
        forall|a: u64, b: u64|
            #![trigger t.vertex.contains_key(a), t.vertex.contains_key(b)]
            t.vertex.contains_key(a) && t.vertex.contains_key(b) && a != b ==> t.vertex[a].id
                != t.vertex[b].id,
    ensures
        is_loop(ys),
{
    assert forall|i: int| 0 <= i < ys.len() - 1 implies (#[trigger] ys[i]).back().id == ys[i
        + 1].front().id by {
        assert(edge_fits(xs[i], ys[i], t));
        assert(edge_fits(xs[i + 1], ys[i + 1], t));
        assert(xs[i].back().id == xs[i + 1].front().id);
    }
    let n = xs.len() as int;
    assert(edge_fits(xs[0], ys[0], t));
    assert(edge_fits(xs[n - 1], ys[n - 1], t));
    assert forall|i: int, j: int| 0 <= i < j < ys.len() implies (#[trigger] ys[i]).front().id != (
    #[trigger] ys[j]).front().id by {
        assert(edge_fits(xs[i], ys[i], t));
        assert(edge_fits(xs[j], ys[j], t));
        assert(xs[i].front().id != xs[j].front().id);
        let a = xs[i].front().id;
        let b = xs[j].front().id;
        assert(t.vertex.contains_key(a) && t.vertex.contains_key(b));
    }
}

/// The new vertices and edges made so far in one copy, by the identities
/// of the old ones.
pub(crate) struct Atlas<Q, D> {
    vertices: HashMap<u64, Vertex<Q>>,
    edges: HashMap<u64, Edge<Q, D>>,
}

impl<Q, D> Atlas<Q, D> {
    /// The tables that the atlas holds.
    pub(crate) closed spec fn tables(&self) -> Tables<Q, D> {
        Tables {
            vertex: Map::new(
                |id: u64| self.vertices@.contains_key(id),
                |id: u64| self.vertices@[id]@,
            ),
            edge: Map::new(|id: u64| self.edges@.contains_key(id), |id: u64| self.edges@[id]@),
        }
    }

    /// An atlas without entries.
    pub(crate) fn new() -> (atlas: Atlas<Q, D>)
        ensures
            atlas.tables().vertex.dom() == Set::<u64>::empty(),
            atlas.tables().edge.dom() == Set::<u64>::empty(),
    {
        let atlas = Atlas { vertices: HashMap::new(), edges: HashMap::new() };
        assert(atlas.tables().vertex.dom() =~= Set::<u64>::empty());
        assert(atlas.tables().edge.dom() =~= Set::<u64>::empty());
        atlas
    }

    /// The new vertex for `v`: the one made before for its identity, or
    /// else a new one, if its point has an image.
    pub(crate) fn vertex<P, C, F: Fn(&P) -> Option<Q>>(
        &mut self,
        ids: &mut IdSource,
        v: &Vertex<P>,
        point_mapping: &F,
        Ghost(scope): Ghost<spec_fn(EdgeModel<P, C>) -> bool>,
        Ghost(vrel): Ghost<spec_fn(P, Q) -> bool>,
        Ghost(crel): Ghost<spec_fn(C, D) -> bool>,
        Ghost(base): Ghost<nat>,
        Ghost(x): Ghost<EdgeModel<P, C>>,
    ) -> (out: Option<Vertex<Q>>)
        requires
            tables_ok(old(self).tables(), scope, vrel, crel, base, old(ids).issued()),
            scope(x),
            x.start == v@ || x.end == v@,
            point_mapping.requires((&v@.point,)),
            forall|p: P, q: Q| point_mapping.ensures((&p,), Some(q)) ==> vrel(p, q),
            old(ids).remaining() >= 1,
            base <= old(ids).issued(),
        ensures
            old(ids).issued() <= final(ids).issued() <= old(ids).issued() + 1,
            match out {
                Some(o) => {
                    &&& tables_ok(final(self).tables(), scope, vrel, crel, base, final(ids).issued())
                    &&& grows(old(self).tables(), final(self).tables())
                    &&& final(self).tables().vertex.contains_key(v@.id)
                    &&& o@ == final(self).tables().vertex[v@.id]
                    &&& forall|id: u64| #[trigger]
                        final(self).tables().vertex.contains_key(id) ==> id == v@.id || old(
                            self,
                        ).tables().vertex.contains_key(id)
                    &&& final(self).tables().edge == old(self).tables().edge
                },
                None => point_mapping.ensures((&v@.point,), None::<Q>),
            },
    {
        let id = v.id();
        let found = match self.vertices.get(&id) {
            Some(w) => Some(w.clone()),
            None => None,
        };
        match found {
            Some(w) => {
                assert(self.tables().vertex[id] == w@);
                Some(w)
            },
            None => {
                match v.try_mapped(ids, point_mapping) {
                    Some(w) => {
                        let ghost before = self.tables();
                        self.vertices.insert(id, w.clone());
                        proof {
                            let t = self.tables();
                            assert(t.edge =~= before.edge);
                            assert(t.vertex =~= before.vertex.insert(id, w@));
                            assert forall|k: u64| #[trigger] t.vertex.contains_key(k) implies base
                                <= t.vertex[k].id < ids.issued() && exists|y: EdgeModel<P, C>|
                                #[trigger] scope(y) && ((y.start.id == k && vrel(
                                    y.start.point,
                                    t.vertex[k].point,
                                )) || (y.end.id == k && vrel(y.end.point, t.vertex[k].point))) by {
                                if k == id {
                                    assert(scope(x));
                                } else {
                                    assert(before.vertex.contains_key(k));
                                }
                            }
                            assert forall|k: u64| #[trigger] t.edge.contains_key(k) implies t.edge[k].forward
                                && base <= t.edge[k].id < ids.issued() && exists|y: EdgeModel<P, C>|
                                #[trigger] scope(y) && y.id == k && crel(y.curve, t.edge[k].curve)
                                    && t.vertex.contains_key(y.start.id) && t.vertex.contains_key(
                                    y.end.id,
                                ) && t.edge[k].start == t.vertex[y.start.id] && t.edge[k].end
                                    == t.vertex[y.end.id] by {
                                assert(before.edge.contains_key(k));
                                let y = choose|y: EdgeModel<P, C>|
                                    #[trigger] scope(y) && y.id == k && crel(
                                        y.curve,
                                        before.edge[k].curve,
                                    ) && before.vertex.contains_key(y.start.id)
                                        && before.vertex.contains_key(y.end.id)
                                        && before.edge[k].start == before.vertex[y.start.id]
                                        && before.edge[k].end == before.vertex[y.end.id];
                                assert(scope(y));
                            }
                            assert forall|a: u64, b: u64|
                                #![trigger t.vertex.contains_key(a), t.vertex.contains_key(b)]
                                t.vertex.contains_key(a) && t.vertex.contains_key(b) && a
                                    != b implies t.vertex[a].id != t.vertex[b].id by {
                                if a != id {
                                    assert(before.vertex.contains_key(a));
                                }
                                if b != id {
                                    assert(before.vertex.contains_key(b));
                                }
                            }
                        }
                        Some(w)
                    },
                    None => None,
                }
            },
        }
    }

    /// The new edge for `e`, in the direction of `e`: the one made before
    /// for its identity, or else a new one between the new vertices for its
    /// ends, if its curve and the points of its ends have images.
    pub(crate) fn edge<P, C, FP: Fn(&P) -> Option<Q>, FC: Fn(&C) -> Option<D>>(
        &mut self,
        ids: &mut IdSource,
        e: &Edge<P, C>,
        point_mapping: &FP,
        curve_mapping: &FC,
        Ghost(scope): Ghost<spec_fn(EdgeModel<P, C>) -> bool>,
        Ghost(vrel): Ghost<spec_fn(P, Q) -> bool>,
        Ghost(crel): Ghost<spec_fn(C, D) -> bool>,
        Ghost(base): Ghost<nat>,
    ) -> (out: Option<Edge<Q, D>>)
        requires
            tables_ok(old(self).tables(), scope, vrel, crel, base, old(ids).issued()),
            scope(e@),
            coherent(scope),
            point_mapping.requires((&e@.start.point,)),
            point_mapping.requires((&e@.end.point,)),
            curve_mapping.requires((&e@.curve,)),
            forall|p: P, q: Q| point_mapping.ensures((&p,), Some(q)) ==> vrel(p, q),
            forall|c: C, d: D| curve_mapping.ensures((&c,), Some(d)) ==> crel(c, d),
            old(ids).remaining() >= 3,
            base <= old(ids).issued(),
        ensures
            old(ids).issued() <= final(ids).issued() <= old(ids).issued() + 3,
            match out {
                Some(o) => {
                    &&& tables_ok(final(self).tables(), scope, vrel, crel, base, final(ids).issued())
                    &&& grows(old(self).tables(), final(self).tables())
                    &&& edge_fits(e@, o@, final(self).tables())
                },
                None => point_mapping.ensures((&e@.start.point,), None::<Q>)
                    || point_mapping.ensures((&e@.end.point,), None::<Q>) || curve_mapping.ensures(
                    (&e@.curve,),
                    None::<D>,
                ),
            },
    {
        let id = e.id();
        let found = match self.edges.get(&id) {
            Some(m) => Some(
                if e.orientation() {
                    m.clone()
                } else {
                    m.inverse()
                },
            ),
            None => None,
        };
        match found {
            Some(o) => {
                proof {
                    let t = self.tables();
                    assert(t.edge.contains_key(id));
                    let x = choose|x: EdgeModel<P, C>|
                        #[trigger] scope(x) && x.id == id && crel(x.curve, t.edge[id].curve)
                            && t.vertex.contains_key(x.start.id) && t.vertex.contains_key(x.end.id)
                            && t.edge[id].start == t.vertex[x.start.id] && t.edge[id].end
                            == t.vertex[x.end.id];
                    assert(scope(x) && scope(e@));
                }
                Some(o)
            },
            None => {
                let ghost t0 = self.tables();
                let v0 = match self.vertex::<P, C, FP>(
                    ids,
                    e.absolute_front(),
                    point_mapping,
                    Ghost(scope),
                    Ghost(vrel),
                    Ghost(crel),
                    Ghost(base),
                    Ghost(e@),
                ) {
                    Some(v) => v,
                    None => { return None; },
                };
                let ghost t1 = self.tables();
                let v1 = match self.vertex::<P, C, FP>(
                    ids,
                    e.absolute_back(),
                    point_mapping,
                    Ghost(scope),
                    Ghost(vrel),
                    Ghost(crel),
                    Ghost(base),
                    Ghost(e@),
                ) {
                    Some(v) => v,
                    None => { return None; },
                };
                let ghost t2 = self.tables();
                let ghost mid = ids.issued();
                match e.try_mapped_between(ids, &v0, &v1, curve_mapping) {
                    Some(m) => {
                        self.edges.insert(id, m.clone());
                        proof {
                            let t = self.tables();
                            assert(t.vertex =~= t2.vertex);
                            assert(t.edge =~= t2.edge.insert(id, m@));
                            assert(t1.vertex.contains_key(e@.start.id));
                            assert(t2.vertex.contains_key(e@.start.id));
                            assert forall|k: u64| #[trigger] t.vertex.contains_key(k) implies base
                                <= t.vertex[k].id < ids.issued() && exists|y: EdgeModel<P, C>|
                                #[trigger] scope(y) && ((y.start.id == k && vrel(
                                    y.start.point,
                                    t.vertex[k].point,
                                )) || (y.end.id == k && vrel(y.end.point, t.vertex[k].point))) by {
                                assert(t2.vertex.contains_key(k));
                            }
                            assert forall|k: u64| #[trigger] t.edge.contains_key(k) implies t.edge[k].forward
                                && base <= t.edge[k].id < ids.issued() && exists|y: EdgeModel<P, C>|
                                #[trigger] scope(y) && y.id == k && crel(y.curve, t.edge[k].curve)
                                    && t.vertex.contains_key(y.start.id) && t.vertex.contains_key(
                                    y.end.id,
                                ) && t.edge[k].start == t.vertex[y.start.id] && t.edge[k].end
                                    == t.vertex[y.end.id] by {
                                if k == id {
                                    assert(scope(e@));
                                } else {
                                    assert(t2.edge.contains_key(k));
                                    let y = choose|y: EdgeModel<P, C>|
                                        #[trigger] scope(y) && y.id == k && crel(
                                            y.curve,
                                            t2.edge[k].curve,
                                        ) && t2.vertex.contains_key(y.start.id)
                                            && t2.vertex.contains_key(y.end.id) && t2.edge[k].start
                                            == t2.vertex[y.start.id] && t2.edge[k].end
                                            == t2.vertex[y.end.id];
                                    assert(scope(y));
                                }
                            }
                            assert forall|a: u64, b: u64|
                                #![trigger t.edge.contains_key(a), t.edge.contains_key(b)]
                                t.edge.contains_key(a) && t.edge.contains_key(b) && a
                                    != b implies t.edge[a].id != t.edge[b].id by {
                                if a != id {
                                    assert(t2.edge.contains_key(a));
                                }
                                if b != id {
                                    assert(t2.edge.contains_key(b));
                                }
                            }
                            assert forall|a: u64, b: u64|
                                #![trigger t.vertex.contains_key(a), t.vertex.contains_key(b)]
                                t.vertex.contains_key(a) && t.vertex.contains_key(b) && a
                                    != b implies t.vertex[a].id != t.vertex[b].id by {
                                assert(t2.vertex.contains_key(a) && t2.vertex.contains_key(b));
                            }
                        }
                        Some(
                            if e.orientation() {
                                m
                            } else {
                                m.inverse()
                            },
                        )
                    },
                    None => None,
                }
            },
        }
    }

    /// The new wire for `w`, edge by edge, if every curve and point of it
    /// has an image.
    pub(crate) fn wire<P, C, FP: Fn(&P) -> Option<Q>, FC: Fn(&C) -> Option<D>>(
        &mut self,
        ids: &mut IdSource,
        w: &Wire<P, C>,
        point_mapping: &FP,
        curve_mapping: &FC,
        Ghost(scope): Ghost<spec_fn(EdgeModel<P, C>) -> bool>,
        Ghost(vrel): Ghost<spec_fn(P, Q) -> bool>,
        Ghost(crel): Ghost<spec_fn(C, D) -> bool>,
        Ghost(base): Ghost<nat>,
    ) -> (out: Option<Wire<Q, D>>)
        requires
            tables_ok(old(self).tables(), scope, vrel, crel, base, old(ids).issued()),
            forall|k: int| 0 <= k < w@.len() ==> scope(#[trigger] w@[k]),
            coherent(scope),
            forall|x: EdgeModel<P, C>| #[trigger]
                scope(x) ==> point_mapping.requires((&x.start.point,)) && point_mapping.requires(
                    (&x.end.point,),
                ) && curve_mapping.requires((&x.curve,)),
            forall|p: P, q: Q| point_mapping.ensures((&p,), Some(q)) ==> vrel(p, q),
            forall|c: C, d: D| curve_mapping.ensures((&c,), Some(d)) ==> crel(c, d),
            old(ids).remaining() >= 3 * w@.len(),
            base <= old(ids).issued(),
        ensures
            old(ids).issued() <= final(ids).issued() <= old(ids).issued() + 3 * w@.len(),
            match out {
                Some(o) => {
                    &&& tables_ok(final(self).tables(), scope, vrel, crel, base, final(ids).issued())
                    &&& grows(old(self).tables(), final(self).tables())
                    &&& wire_fits(w@, o@, final(self).tables())
                },
                None => fails_in(
                    scope,
                    |p: P| point_mapping.ensures((&p,), None::<Q>),
                    |c: C| curve_mapping.ensures((&c,), None::<D>),
                ),
            },
    {
        let es = w.edges();
        let n = es.len();
        let mut out: Vec<Edge<Q, D>> = Vec::new();
        let mut k: usize = 0;
        while k < n
            invariant
                n == es@.len(),
                n == w@.len(),
                k <= n,
                forall|i: int| 0 <= i < n ==> (#[trigger] es@[i])@ == w@[i],
                forall|i: int| 0 <= i < n ==> scope(#[trigger] w@[i]),
                coherent(scope),
                forall|x: EdgeModel<P, C>| #[trigger]
                    scope(x) ==> point_mapping.requires((&x.start.point,))
                        && point_mapping.requires((&x.end.point,)) && curve_mapping.requires(
                        (&x.curve,),
                    ),
                forall|p: P, q: Q| point_mapping.ensures((&p,), Some(q)) ==> vrel(p, q),
                forall|c: C, d: D| curve_mapping.ensures((&c,), Some(d)) ==> crel(c, d),
                old(ids).remaining() >= 3 * n,
                base <= old(ids).issued(),
                old(ids).issued() <= ids.issued() <= old(ids).issued() + 3 * k,
                tables_ok(self.tables(), scope, vrel, crel, base, ids.issued()),
                grows(old(self).tables(), self.tables()),
                out@.len() == k,
                forall|i: int| 0 <= i < k ==> edge_fits(w@[i], (#[trigger] out@[i])@, self.tables()),
            decreases n - k,
        {
            let ghost t0 = self.tables();
            assert(scope(w@[k as int]));
            match self.edge(
                ids,
                &es[k],
                point_mapping,
                curve_mapping,
                Ghost(scope),
                Ghost(vrel),
                Ghost(crel),
                Ghost(base),
            ) {
                Some(o) => {
                    out.push(o);
                    proof {
                        let t = self.tables();
                        assert forall|i: int| 0 <= i < k + 1 implies edge_fits(
                            w@[i],
                            (#[trigger] out@[i])@,
                            t,
                        ) by {
                            if i < k {
                                assert(edge_fits(w@[i], out@[i]@, t0));
                                assert(t0.edge.contains_key(w@[i].id));
                                assert(t0.vertex.contains_key(w@[i].start.id));
                                assert(t0.vertex.contains_key(w@[i].end.id));
                            }
                        }
                        assert forall|id: u64| #[trigger]
                            old(self).tables().vertex.contains_key(id) implies t.vertex.contains_key(
                            id,
                        ) && t.vertex[id] == old(self).tables().vertex[id] by {
                            assert(t0.vertex.contains_key(id));
                        }
                        assert forall|id: u64| #[trigger]
                            old(self).tables().edge.contains_key(id) implies t.edge.contains_key(id)
                            && t.edge[id] == old(self).tables().edge[id] by {
                            assert(t0.edge.contains_key(id));
                        }
                    }
                },
                None => {
                    proof {
                        let x = w@[k as int];
                        let vfail = |p: P| point_mapping.ensures((&p,), None::<Q>);
                        let cfail = |c: C| curve_mapping.ensures((&c,), None::<D>);
                        assert(scope(x) && (vfail(x.start.point) || vfail(x.end.point) || cfail(
                            x.curve,
                        )));
                    }
                    return None;
                },
            }
            k += 1;
        }
        proof {
            let t = self.tables();
            let ys = Seq::new(out@.len(), |k: int| out@[k]@);
            assert forall|i: int| 0 <= i < ys.len() - 1 implies (#[trigger] ys[i]).back().id == ys[i
                + 1].front().id by {
                assert(edge_fits(w@[i], out@[i]@, t));
                assert(edge_fits(w@[i + 1], out@[i + 1]@, t));
                assert(w@[i].back().id == w@[i + 1].front().id);
            }
            assert(is_chain(ys));
        }
        let res = Wire::from_chain(out);
        proof {
            assert forall|i: int| 0 <= i < w@.len() implies edge_fits(
                #[trigger] w@[i],
                res@[i],
                self.tables(),
            ) by {
                assert(res@[i] == out@[i]@);
            }
        }
        Some(res)
    }

    /// The new face for `f`: a face with an identity of its own, bounded by
    /// the new wires for the boundaries of `f`, seen from the same side, if
    /// its surface and every curve and point of it have images.
    pub(crate) fn face<
        P,
        C,
        S,
        T,
        FP: Fn(&P) -> Option<Q>,
        FC: Fn(&C) -> Option<D>,
        FS: Fn(&S) -> Option<T>,
    >(
        &mut self,
        ids: &mut IdSource,
        f: &Face<P, C, S>,
        point_mapping: &FP,
        curve_mapping: &FC,
        surface_mapping: &FS,
        Ghost(scope): Ghost<spec_fn(EdgeModel<P, C>) -> bool>,
        Ghost(vrel): Ghost<spec_fn(P, Q) -> bool>,
        Ghost(crel): Ghost<spec_fn(C, D) -> bool>,
        Ghost(srel): Ghost<spec_fn(S, T) -> bool>,
        Ghost(base): Ghost<nat>,
    ) -> (out: Option<Face<Q, D, T>>)
        requires
            tables_ok(old(self).tables(), scope, vrel, crel, base, old(ids).issued()),
            forall|w: int, k: int|
                0 <= w < f@.boundaries.len() && 0 <= k < f@.boundaries[w].len() ==> scope(
                    #[trigger] f@.boundaries[w][k],
                ),
            coherent(scope),
            forall|x: EdgeModel<P, C>| #[trigger]
                scope(x) ==> point_mapping.requires((&x.start.point,)) && point_mapping.requires(
                    (&x.end.point,),
                ) && curve_mapping.requires((&x.curve,)),
            surface_mapping.requires((&f@.surface,)),
            forall|p: P, q: Q| point_mapping.ensures((&p,), Some(q)) ==> vrel(p, q),
            forall|c: C, d: D| curve_mapping.ensures((&c,), Some(d)) ==> crel(c, d),
            forall|s: S, u: T| surface_mapping.ensures((&s,), Some(u)) ==> srel(s, u),
            old(ids).remaining() >= face_cost(f@),
            base <= old(ids).issued(),
        ensures
            old(ids).issued() <= final(ids).issued() <= old(ids).issued() + face_cost(f@),
            match out {
                Some(o) => {
                    &&& tables_ok(final(self).tables(), scope, vrel, crel, base, final(ids).issued())
                    &&& grows(old(self).tables(), final(self).tables())
                    &&& face_fits(f@, o@, final(self).tables(), srel)
                    &&& old(ids).issued() <= o@.id < final(ids).issued()
                },
                None => fails_in(
                    scope,
                    |p: P| point_mapping.ensures((&p,), None::<Q>),
                    |c: C| curve_mapping.ensures((&c,), None::<D>),
                ) || surface_mapping.ensures((&f@.surface,), None::<T>),
            },
    {
        let ws = f.absolute_boundaries();
        let n = ws.len();
        let ghost b = f@.boundaries;
        let mut out: Vec<Wire<Q, D>> = Vec::new();
        let mut w: usize = 0;
        while w < n
            invariant
                n == ws@.len(),
                b == f@.boundaries,
                wire_views(ws@) == b,
                all_rings(b),
                w <= n,
                forall|w: int, k: int|
                    0 <= w < b.len() && 0 <= k < b[w].len() ==> scope(#[trigger] b[w][k]),
                coherent(scope),
                forall|x: EdgeModel<P, C>| #[trigger]
                    scope(x) ==> point_mapping.requires((&x.start.point,))
                        && point_mapping.requires((&x.end.point,)) && curve_mapping.requires(
                        (&x.curve,),
                    ),
                forall|p: P, q: Q| point_mapping.ensures((&p,), Some(q)) ==> vrel(p, q),
                forall|c: C, d: D| curve_mapping.ensures((&c,), Some(d)) ==> crel(c, d),
                old(ids).remaining() >= 1 + wires_cost(b, n as nat),
                base <= old(ids).issued(),
                old(ids).issued() <= ids.issued() <= old(ids).issued() + wires_cost(b, w as nat),
                tables_ok(self.tables(), scope, vrel, crel, base, ids.issued()),
                grows(old(self).tables(), self.tables()),
                out@.len() == w,
                forall|i: int| 0 <= i < w ==> wire_fits(b[i], (#[trigger] out@[i])@, self.tables()),
            decreases n - w,
        {
            let ghost t0 = self.tables();
            proof {
                lemma_wires_cost_mono(b, (w + 1) as nat, n as nat);
                assert(wire_views(ws@)[w as int] == ws@[w as int]@);
                assert forall|k: int| 0 <= k < ws@[w as int]@.len() implies scope(
                    #[trigger] ws@[w as int]@[k],
                ) by {
                    assert(scope(b[w as int][k]));
                }
            }
            match self.wire(
                ids,
                &ws[w],
                point_mapping,
                curve_mapping,
                Ghost(scope),
                Ghost(vrel),
                Ghost(crel),
                Ghost(base),
            ) {
                Some(o) => {
                    out.push(o);
                    proof {
                        let t = self.tables();
                        assert forall|i: int| 0 <= i < w + 1 implies wire_fits(
                            b[i],
                            (#[trigger] out@[i])@,
                            t,
                        ) by {
                            if i < w {
                                lemma_fits_grows(b[i], out@[i]@, t0, t);
                            }
                        }
                        lemma_grows_trans(old(self).tables(), t0, t);
                    }
                },
                None => {
                    return None;
                },
            }
            w += 1;
        }
        match surface_mapping(f.surface()) {
            Some(surface) => {
                proof {
                    let t = self.tables();
                    assert forall|i: int| 0 <= i < out@.len() implies is_ring(
                        #[trigger] wire_views(out@)[i],
                    ) by {
                        assert(wire_fits(b[i], out@[i]@, t));
                        assert(is_ring(b[i]));
                        lemma_fits_ring(b[i], out@[i]@, t);
                    }
                }
                let mut face = Face::new_unchecked(ids, out, surface);
                if !f.orientation() {
                    face.invert();
                }
                proof {
                    let t = self.tables();
                    assert forall|i: int| 0 <= i < b.len() implies wire_fits(
                        #[trigger] b[i],
                        face@.boundaries[i],
                        t,
                    ) by {
                        assert(face@.boundaries[i] == out@[i]@);
                    }
                }
                Some(face)
            },
            None => None,
        }
    }

    /// The new shell for `shell`: face by face the new faces for its
    /// faces, if every surface, curve and point of it has an image.
    pub(crate) fn shell<
        P,
        C,
        S,
        T,
        FP: Fn(&P) -> Option<Q>,
        FC: Fn(&C) -> Option<D>,
        FS: Fn(&S) -> Option<T>,
    >(
        &mut self,
        ids: &mut IdSource,
        shell: &Shell<P, C, S>,
        point_mapping: &FP,
        curve_mapping: &FC,
        surface_mapping: &FS,
        Ghost(scope): Ghost<spec_fn(EdgeModel<P, C>) -> bool>,
        Ghost(vrel): Ghost<spec_fn(P, Q) -> bool>,
        Ghost(crel): Ghost<spec_fn(C, D) -> bool>,
        Ghost(srel): Ghost<spec_fn(S, T) -> bool>,
        Ghost(base): Ghost<nat>,
    ) -> (out: Option<Shell<Q, D, T>>)
        requires
            tables_ok(old(self).tables(), scope, vrel, crel, base, old(ids).issued()),
            forall|x: EdgeModel<P, C>| #[trigger] shell_scope(shell@)(x) ==> scope(x),
            coherent(scope),
            forall|x: EdgeModel<P, C>| #[trigger]
                scope(x) ==> point_mapping.requires((&x.start.point,)) && point_mapping.requires(
                    (&x.end.point,),
                ) && curve_mapping.requires((&x.curve,)),
            forall|f: int|
                0 <= f < shell@.len() ==> surface_mapping.requires((&(#[trigger] shell@[f]).surface,)),
            forall|p: P, q: Q| point_mapping.ensures((&p,), Some(q)) ==> vrel(p, q),
            forall|c: C, d: D| curve_mapping.ensures((&c,), Some(d)) ==> crel(c, d),
            forall|s: S, u: T| surface_mapping.ensures((&s,), Some(u)) ==> srel(s, u),
            old(ids).remaining() >= faces_cost(shell@, shell@.len()),
            base <= old(ids).issued(),
        ensures
            old(ids).issued() <= final(ids).issued() <= old(ids).issued() + faces_cost(
                shell@,
                shell@.len(),
            ),
            match out {
                Some(o) => {
                    &&& tables_ok(final(self).tables(), scope, vrel, crel, base, final(ids).issued())
                    &&& grows(old(self).tables(), final(self).tables())
                    &&& shell_fits(shell@, o@, final(self).tables(), srel)
                    &&& faces_fresh(o@, old(ids).issued(), final(ids).issued())
                },
                None => fails_in(
                    scope,
                    |p: P| point_mapping.ensures((&p,), None::<Q>),
                    |c: C| curve_mapping.ensures((&c,), None::<D>),
                ) || exists|f: int|
                    0 <= f < shell@.len() && surface_mapping.ensures(
                        (&(#[trigger] shell@[f]).surface,),
                        None::<T>,
                    ),
            },
    {
        let ghost xs = shell@;
        let ghost first = ids.issued();
        let ghost t_in = self.tables();
        let faces = shell.faces();
        let n = faces.len();
        let mut out: Vec<Face<Q, D, T>> = Vec::new();
        let mut f: usize = 0;
        while f < n
            invariant
                n == faces@.len(),
                xs == shell@,
                face_views(faces@) == xs,
                f <= n,
                forall|x: EdgeModel<P, C>| #[trigger] shell_scope(xs)(x) ==> scope(x),
                coherent(scope),
                forall|x: EdgeModel<P, C>| #[trigger]
                    scope(x) ==> point_mapping.requires((&x.start.point,))
                        && point_mapping.requires((&x.end.point,)) && curve_mapping.requires(
                        (&x.curve,),
                    ),
                forall|f: int|
                    0 <= f < xs.len() ==> surface_mapping.requires((&(#[trigger] xs[f]).surface,)),
                forall|p: P, q: Q| point_mapping.ensures((&p,), Some(q)) ==> vrel(p, q),
                forall|c: C, d: D| curve_mapping.ensures((&c,), Some(d)) ==> crel(c, d),
                forall|s: S, u: T| surface_mapping.ensures((&s,), Some(u)) ==> srel(s, u),
                first == old(ids).issued(),
                t_in == old(self).tables(),
                base <= first,
                old(ids).remaining() >= faces_cost(xs, n as nat),
                first <= ids.issued() <= first + faces_cost(xs, f as nat),
                tables_ok(self.tables(), scope, vrel, crel, base, ids.issued()),
                grows(t_in, self.tables()),
                out@.len() == f,
                forall|i: int|
                    0 <= i < f ==> face_fits(xs[i], (#[trigger] out@[i])@, self.tables(), srel),
                faces_fresh(face_views(out@), first, ids.issued()),
            decreases n - f,
        {
            let ghost t0 = self.tables();
            let ghost done = face_views(out@);
            proof {
                lemma_faces_cost_mono(xs, (f + 1) as nat, n as nat);
                assert(face_views(faces@)[f as int] == faces@[f as int]@);
                assert forall|w: int, k: int|
                    0 <= w < xs[f as int].boundaries.len() && 0 <= k
                        < xs[f as int].boundaries[w].len() implies scope(
                    #[trigger] xs[f as int].boundaries[w][k],
                ) by {
                    assert(shell_scope(xs)(xs[f as int].boundaries[w][k]));
                }
            }
            match self.face(
                ids,
                &faces[f],
                point_mapping,
                curve_mapping,
                surface_mapping,
                Ghost(scope),
                Ghost(vrel),
                Ghost(crel),
                Ghost(srel),
                Ghost(base),
            ) {
                Some(o) => {
                    out.push(o);
                    proof {
                        let t = self.tables();
                        lemma_grows_trans(t_in, t0, t);
                        assert forall|i: int| 0 <= i < f + 1 implies face_fits(
                            xs[i],
                            (#[trigger] out@[i])@,
                            t,
                            srel,
                        ) by {
                            if i < f {
                                lemma_face_fits_grows(xs[i], out@[i]@, t0, t, srel);
                            }
                        }
                        let now = face_views(out@);
                        assert forall|i: int| 0 <= i < now.len() implies first <= (
                        #[trigger] now[i]).id < ids.issued() by {
                            if i < f {
                                assert(now[i] == done[i]);
                            }
                        }
                        assert forall|i: int, j: int| 0 <= i < j < now.len() implies (
                        #[trigger] now[i]).id != (#[trigger] now[j]).id by {
                            assert(now[i] == done[i]);
                            if j < f {
                                assert(now[j] == done[j]);
                            }
                        }
                    }
                },
                None => {
                    return None;
                },
            }
            f += 1;
        }
        let res = Shell::from_faces(out);
        proof {
            let t = self.tables();
            assert forall|i: int| 0 <= i < xs.len() implies face_fits(
                #[trigger] xs[i],
                res@[i],
                t,
                srel,
            ) by {
                assert(res@[i] == out@[i]@);
            }
            assert(shell_fits(xs, res@, t, srel));
        }
        Some(res)
    }
}

/// What fits old tables fits tables that have grown from them.
pub proof fn lemma_fits_grows<P, C, Q, D>(
    xs: Seq<EdgeModel<P, C>>,
    ys: Seq<EdgeModel<Q, D>>,
    t0: Tables<Q, D>,
    t: Tables<Q, D>,
)
    requires
        wire_fits(xs, ys, t0),
        grows(t0, t),
    ensures
        wire_fits(xs, ys, t),
{
    assert forall|k: int| 0 <= k < xs.len() implies edge_fits(#[trigger] xs[k], ys[k], t) by {
        assert(edge_fits(xs[k], ys[k], t0));
        assert(t0.edge.contains_key(xs[k].id));
        assert(t0.vertex.contains_key(xs[k].start.id));
        assert(t0.vertex.contains_key(xs[k].end.id));
    }
}

/// Tables that have grown from tables that have grown from others have
/// grown from those.
pub proof fn lemma_grows_trans<Q, D>(a: Tables<Q, D>, b: Tables<Q, D>, c: Tables<Q, D>)
    requires
        grows(a, b),
        grows(b, c),
    ensures
        grows(a, c),
{
    assert forall|id: u64| #[trigger] a.vertex.contains_key(id) implies c.vertex.contains_key(id)
        && c.vertex[id] == a.vertex[id] by {
        assert(b.vertex.contains_key(id));
    }
    assert forall|id: u64| #[trigger] a.edge.contains_key(id) implies c.edge.contains_key(id)
        && c.edge[id] == a.edge[id] by {
        assert(b.edge.contains_key(id));
    }
}

/// Tables that are in order under relations are in order under relations
/// that hold wherever those do.
pub proof fn lemma_tables_mono<P, C, Q, D>(
    t: Tables<Q, D>,
    scope: spec_fn(EdgeModel<P, C>) -> bool,
    vrel: spec_fn(P, Q) -> bool,
    crel: spec_fn(C, D) -> bool,
    vwide: spec_fn(P, Q) -> bool,
    cwide: spec_fn(C, D) -> bool,
    base: nat,
    now: nat,
)
    requires
        tables_ok(t, scope, vrel, crel, base, now),
        forall|p: P, q: Q| #[trigger] vrel(p, q) ==> vwide(p, q),
        forall|c: C, d: D| #[trigger] crel(c, d) ==> cwide(c, d),
    ensures
        tables_ok(t, scope, vwide, cwide, base, now),
{
    assert forall|id: u64| #[trigger] t.vertex.contains_key(id) implies base <= t.vertex[id].id
        < now && exists|x: EdgeModel<P, C>|
        #[trigger] scope(x) && ((x.start.id == id && vwide(x.start.point, t.vertex[id].point)) || (
        x.end.id == id && vwide(x.end.point, t.vertex[id].point))) by {
        let x = choose|x: EdgeModel<P, C>|
            #[trigger] scope(x) && ((x.start.id == id && vrel(x.start.point, t.vertex[id].point))
                || (x.end.id == id && vrel(x.end.point, t.vertex[id].point)));
        assert(scope(x));
    }
    assert forall|id: u64| #[trigger] t.edge.contains_key(id) implies t.edge[id].forward && base
        <= t.edge[id].id < now && exists|x: EdgeModel<P, C>|
        #[trigger] scope(x) && x.id == id && cwide(x.curve, t.edge[id].curve)
            && t.vertex.contains_key(x.start.id) && t.vertex.contains_key(x.end.id)
            && t.edge[id].start == t.vertex[x.start.id] && t.edge[id].end == t.vertex[x.end.id] by {
        let x = choose|x: EdgeModel<P, C>|
            #[trigger] scope(x) && x.id == id && crel(x.curve, t.edge[id].curve)
                && t.vertex.contains_key(x.start.id) && t.vertex.contains_key(x.end.id)
                && t.edge[id].start == t.vertex[x.start.id] && t.edge[id].end
                == t.vertex[x.end.id];
        assert(scope(x));
    }
}

/// `ys` is a copy of the shell `xs` with identities from `base` up to
/// `now`: there are tables under which `ys` is face by face what becomes of
/// `xs`. All that `xs` shares, `ys` shares, and nothing else.
pub open spec fn is_shell_copy<P, C, S, Q, D, T>(
    xs: Seq<FaceModel<P, C, S>>,
    ys: Seq<FaceModel<Q, D, T>>,
    vrel: spec_fn(P, Q) -> bool,
    crel: spec_fn(C, D) -> bool,
    srel: spec_fn(S, T) -> bool,
    base: nat,
    now: nat,
) -> bool {
    &&& faces_fresh(ys, base, now)
    &&& exists|t: Tables<Q, D>| #[trigger]
        shell_fits(xs, ys, t, srel) && tables_ok(t, shell_scope(xs), vrel, crel, base, now)
}

/// `y` is a copy of the face `x` with identities from `base` up to `now`.
pub open spec fn is_face_copy<P, C, S, Q, D, T>(
    x: FaceModel<P, C, S>,
    y: FaceModel<Q, D, T>,
    vrel: spec_fn(P, Q) -> bool,
    crel: spec_fn(C, D) -> bool,
    srel: spec_fn(S, T) -> bool,
    base: nat,
    now: nat,
) -> bool {
    &&& base <= y.id < now
    &&& exists|t: Tables<Q, D>| #[trigger]
        face_fits(x, y, t, srel) && tables_ok(t, wires_scope(x.boundaries), vrel, crel, base, now)
}

/// `ys` is a copy of the wire `xs` with identities from `base` up to `now`.
pub open spec fn is_wire_copy<P, C, Q, D>(
    xs: Seq<EdgeModel<P, C>>,
    ys: Seq<EdgeModel<Q, D>>,
    vrel: spec_fn(P, Q) -> bool,
    crel: spec_fn(C, D) -> bool,
    base: nat,
    now: nat,
) -> bool {
    exists|t: Tables<Q, D>| #[trigger]
        wire_fits(xs, ys, t) && tables_ok(t, wire_scope(xs), vrel, crel, base, now)
}

impl<P, C> Wire<P, C> {
    /// A copy of the wire with new identities, whose points and curves are
    /// the images of this one's; `None` if one of them has no image. An
    /// edge or a vertex that the wire passes several times is copied once.
    pub fn try_mapped<Q, D, FP: Fn(&P) -> Option<Q>, FC: Fn(&C) -> Option<D>>(
        &self,
        ids: &mut IdSource,
        point_mapping: &FP,
        curve_mapping: &FC,
    ) -> (res: Option<Wire<Q, D>>)
        requires
            coherent(wire_scope(self@)),
            forall|k: int|
                0 <= k < self@.len() ==> point_mapping.requires((&(#[trigger] self@[k]).start.point,))
                    && point_mapping.requires((&self@[k].end.point,)) && curve_mapping.requires(
                    (&self@[k].curve,),
                ),
            old(ids).remaining() >= 3 * self@.len(),
        ensures
            old(ids).issued() <= final(ids).issued() <= old(ids).issued() + 3 * self@.len(),
            match res {
                Some(r) => is_wire_copy(
                    self@,
                    r@,
                    |p: P, q: Q| point_mapping.ensures((&p,), Some(q)),
                    |c: C, d: D| curve_mapping.ensures((&c,), Some(d)),
                    old(ids).issued(),
                    final(ids).issued(),
                ),
                None => fails_in(
                    wire_scope(self@),
                    |p: P| point_mapping.ensures((&p,), None::<Q>),
                    |c: C| curve_mapping.ensures((&c,), None::<D>),
                ),
            },
    {
        let ghost scope = wire_scope(self@);
        let ghost vrel = |p: P, q: Q| point_mapping.ensures((&p,), Some(q));
        let ghost crel = |c: C, d: D| curve_mapping.ensures((&c,), Some(d));
        let ghost base = ids.issued();
        let mut atlas: Atlas<Q, D> = Atlas::new();
        proof {
            assert forall|k: int| 0 <= k < self@.len() implies scope(#[trigger] self@[k]) by {}
        }
        let res = atlas.wire(
            ids,
            self,
            point_mapping,
            curve_mapping,
            Ghost(scope),
            Ghost(vrel),
            Ghost(crel),
            Ghost(base),
        );
        proof {
            if res is Some {
                assert(wire_fits(self@, res->Some_0@, atlas.tables()));
            }
        }
        res
    }

    /// A copy of the wire with new identities, whose points and curves are
    /// the images of this one's. An edge or a vertex that the wire passes
    /// several times is copied once.
    pub fn mapped<Q, D, FP: Fn(&P) -> Q, FC: Fn(&C) -> D>(
        &self,
        ids: &mut IdSource,
        point_mapping: &FP,
        curve_mapping: &FC,
    ) -> (res: Wire<Q, D>)
        requires
            coherent(wire_scope(self@)),
            forall|k: int|
                0 <= k < self@.len() ==> point_mapping.requires((&(#[trigger] self@[k]).start.point,))
                    && point_mapping.requires((&self@[k].end.point,)) && curve_mapping.requires(
                    (&self@[k].curve,),
                ),
            old(ids).remaining() >= 3 * self@.len(),
        ensures
            old(ids).issued() <= final(ids).issued() <= old(ids).issued() + 3 * self@.len(),
            is_wire_copy(
                self@,
                res@,
                |p: P, q: Q| point_mapping.ensures((&p,), q),
                |c: C, d: D| curve_mapping.ensures((&c,), d),
                old(ids).issued(),
                final(ids).issued(),
            ),
    {
        let fp = |p: &P| -> (r: Option<Q>)
            requires
                point_mapping.requires((p,)),
            ensures
                r is Some && point_mapping.ensures((p,), r->Some_0),
            { Some(point_mapping(p)) };
        let fc = |c: &C| -> (r: Option<D>)
            requires
                curve_mapping.requires((c,)),
            ensures
                r is Some && curve_mapping.ensures((c,), r->Some_0),
            { Some(curve_mapping(c)) };
        let ghost base = ids.issued();
        match self.try_mapped(ids, &fp, &fc) {
            Some(r) => {
                proof {
                    let t = choose|t: Tables<Q, D>| #[trigger]
                        wire_fits(self@, r@, t) && tables_ok(
                            t,
                            wire_scope(self@),
                            |p: P, q: Q| fp.ensures((&p,), Some(q)),
                            |c: C, d: D| fc.ensures((&c,), Some(d)),
                            base,
                            ids.issued(),
                        );
                    lemma_tables_mono(
                        t,
                        wire_scope(self@),
                        |p: P, q: Q| fp.ensures((&p,), Some(q)),
                        |c: C, d: D| fc.ensures((&c,), Some(d)),
                        |p: P, q: Q| point_mapping.ensures((&p,), q),
                        |c: C, d: D| curve_mapping.ensures((&c,), d),
                        base,
                        ids.issued(),
                    );
                    assert(wire_fits(self@, r@, t));
                }
                r
            },
            None => {
                proof {
                    let x = choose|x: EdgeModel<P, C>| #[trigger]
                        wire_scope(self@)(x) && (fp.ensures((&x.start.point,), None::<Q>)
                            || fp.ensures((&x.end.point,), None::<Q>) || fc.ensures(
                            (&x.curve,),
                            None::<D>,
                        ));
                    assert(false);
                }
                vstd::pervasive::unreached()
            },
        }
    }
}

/// A face that fits old tables fits tables that have grown from them.
pub proof fn lemma_face_fits_grows<P, C, S, Q, D, T>(
    x: FaceModel<P, C, S>,
    y: FaceModel<Q, D, T>,
    t0: Tables<Q, D>,
    t: Tables<Q, D>,
    srel: spec_fn(S, T) -> bool,
)
    requires
        face_fits(x, y, t0, srel),
        grows(t0, t),
    ensures
        face_fits(x, y, t, srel),
{
    assert forall|w: int| 0 <= w < x.boundaries.len() implies wire_fits(
        #[trigger] x.boundaries[w],
        y.boundaries[w],
        t,
    ) by {
        lemma_fits_grows(x.boundaries[w], y.boundaries[w], t0, t);
    }
}

/// Some point, curve or surface of the shell has no image.
pub open spec fn shell_fails<P, C, S>(
    xs: Seq<FaceModel<P, C, S>>,
    vfail: spec_fn(P) -> bool,
    cfail: spec_fn(C) -> bool,
    sfail: spec_fn(S) -> bool,
) -> bool {
    fails_in(shell_scope(xs), vfail, cfail) || exists|f: int|
        0 <= f < xs.len() && sfail((#[trigger] xs[f]).surface)
}

impl<P, C, S> Face<P, C, S> {
    /// A copy of the face with new identities, whose points, curves and
    /// surface are the images of this one's; `None` if one of them has no
    /// image. An edge or a vertex that the boundaries pass several times is
    /// copied once.
    pub fn try_mapped<
        Q,
        D,
        T,
        FP: Fn(&P) -> Option<Q>,
        FC: Fn(&C) -> Option<D>,
        FS: Fn(&S) -> Option<T>,
    >(
        &self,
        ids: &mut IdSource,
        point_mapping: &FP,
        curve_mapping: &FC,
        surface_mapping: &FS,
    ) -> (res: Option<Face<Q, D, T>>)
        requires
            coherent(wires_scope(self@.boundaries)),
            forall|x: EdgeModel<P, C>| #[trigger]
                wires_scope(self@.boundaries)(x) ==> point_mapping.requires((&x.start.point,))
                    && point_mapping.requires((&x.end.point,)) && curve_mapping.requires(
                    (&x.curve,),
                ),
            surface_mapping.requires((&self@.surface,)),
            old(ids).remaining() >= face_cost(self@),
        ensures
            old(ids).issued() <= final(ids).issued() <= old(ids).issued() + face_cost(self@),
            match res {
                Some(r) => is_face_copy(
                    self@,
                    r@,
                    |p: P, q: Q| point_mapping.ensures((&p,), Some(q)),
                    |c: C, d: D| curve_mapping.ensures((&c,), Some(d)),
                    |s: S, u: T| surface_mapping.ensures((&s,), Some(u)),
                    old(ids).issued(),
                    final(ids).issued(),
                ),
                None => fails_in(
                    wires_scope(self@.boundaries),
                    |p: P| point_mapping.ensures((&p,), None::<Q>),
                    |c: C| curve_mapping.ensures((&c,), None::<D>),
                ) || surface_mapping.ensures((&self@.surface,), None::<T>),
            },
    {
        let ghost scope = wires_scope(self@.boundaries);
        let ghost vrel = |p: P, q: Q| point_mapping.ensures((&p,), Some(q));
        let ghost crel = |c: C, d: D| curve_mapping.ensures((&c,), Some(d));
        let ghost srel = |s: S, u: T| surface_mapping.ensures((&s,), Some(u));
        let ghost base = ids.issued();
        let mut atlas: Atlas<Q, D> = Atlas::new();
        let res = atlas.face(
            ids,
            self,
            point_mapping,
            curve_mapping,
            surface_mapping,
            Ghost(scope),
            Ghost(vrel),
            Ghost(crel),
            Ghost(srel),
            Ghost(base),
        );
        proof {
            if res is Some {
                assert(face_fits(self@, res->Some_0@, atlas.tables(), srel));
            }
        }
        res
    }

    /// A copy of the face with new identities, whose points, curves and
    /// surface are the images of this one's. An edge or a vertex that the
    /// boundaries pass several times is copied once.
    pub fn mapped<Q, D, T, FP: Fn(&P) -> Q, FC: Fn(&C) -> D, FS: Fn(&S) -> T>(
        &self,
        ids: &mut IdSource,
        point_mapping: &FP,
        curve_mapping: &FC,
        surface_mapping: &FS,
    ) -> (res: Face<Q, D, T>)
        requires
            coherent(wires_scope(self@.boundaries)),
            forall|x: EdgeModel<P, C>| #[trigger]
                wires_scope(self@.boundaries)(x) ==> point_mapping.requires((&x.start.point,))
                    && point_mapping.requires((&x.end.point,)) && curve_mapping.requires(
                    (&x.curve,),
                ),
            surface_mapping.requires((&self@.surface,)),
            old(ids).remaining() >= face_cost(self@),
        ensures
            old(ids).issued() <= final(ids).issued() <= old(ids).issued() + face_cost(self@),
            is_face_copy(
                self@,
                res@,
                |p: P, q: Q| point_mapping.ensures((&p,), q),
                |c: C, d: D| curve_mapping.ensures((&c,), d),
                |s: S, u: T| surface_mapping.ensures((&s,), u),
                old(ids).issued(),
                final(ids).issued(),
            ),
    {
        let fp = |p: &P| -> (r: Option<Q>)
            requires
                point_mapping.requires((p,)),
            ensures
                r is Some && point_mapping.ensures((p,), r->Some_0),
            { Some(point_mapping(p)) };
        let fc = |c: &C| -> (r: Option<D>)
            requires
                curve_mapping.requires((c,)),
            ensures
                r is Some && curve_mapping.ensures((c,), r->Some_0),
            { Some(curve_mapping(c)) };
        let fs = |s: &S| -> (r: Option<T>)
            requires
                surface_mapping.requires((s,)),
            ensures
                r is Some && surface_mapping.ensures((s,), r->Some_0),
            { Some(surface_mapping(s)) };
        let ghost base = ids.issued();
        match self.try_mapped(ids, &fp, &fc, &fs) {
            Some(r) => {
                proof {
                    let srel = |s: S, u: T| fs.ensures((&s,), Some(u));
                    let t = choose|t: Tables<Q, D>| #[trigger]
                        face_fits(self@, r@, t, srel) && tables_ok(
                            t,
                            wires_scope(self@.boundaries),
                            |p: P, q: Q| fp.ensures((&p,), Some(q)),
                            |c: C, d: D| fc.ensures((&c,), Some(d)),
                            base,
                            ids.issued(),
                        );
                    lemma_tables_mono(
                        t,
                        wires_scope(self@.boundaries),
                        |p: P, q: Q| fp.ensures((&p,), Some(q)),
                        |c: C, d: D| fc.ensures((&c,), Some(d)),
                        |p: P, q: Q| point_mapping.ensures((&p,), q),
                        |c: C, d: D| curve_mapping.ensures((&c,), d),
                        base,
                        ids.issued(),
                    );
                    assert(face_fits(self@, r@, t, |s: S, u: T| surface_mapping.ensures((&s,), u)));
                }
                r
            },
            None => {
                proof {
                    if !fs.ensures((&self@.surface,), None::<T>) {
                        let x = choose|x: EdgeModel<P, C>| #[trigger]
                            wires_scope(self@.boundaries)(x) && (fp.ensures(
                                (&x.start.point,),
                                None::<Q>,
                            ) || fp.ensures((&x.end.point,), None::<Q>) || fc.ensures(
                                (&x.curve,),
                                None::<D>,
                            ));
                    }
                    assert(false);
                }
                vstd::pervasive::unreached()
            },
        }
    }
}

impl<P, C, S> Shell<P, C, S> {
    /// A copy of the shell with new identities, whose points, curves and
    /// surfaces are the images of this one's; `None` if one of them has no
    /// image. An edge or a vertex that several boundaries pass is copied
    /// once, so what the faces share in the shell their copies share in the
    /// result. Each face is copied for itself.
    pub fn try_mapped<
        Q,
        D,
        T,
        FP: Fn(&P) -> Option<Q>,
        FC: Fn(&C) -> Option<D>,
        FS: Fn(&S) -> Option<T>,
    >(
        &self,
        ids: &mut IdSource,
        point_mapping: &FP,
        curve_mapping: &FC,
        surface_mapping: &FS,
    ) -> (res: Option<Shell<Q, D, T>>)
        requires
            coherent(shell_scope(self@)),
            forall|x: EdgeModel<P, C>| #[trigger]
                shell_scope(self@)(x) ==> point_mapping.requires((&x.start.point,))
                    && point_mapping.requires((&x.end.point,)) && curve_mapping.requires(
                    (&x.curve,),
                ),
            forall|f: int|
                0 <= f < self@.len() ==> surface_mapping.requires((&(#[trigger] self@[f]).surface,)),
            old(ids).remaining() >= faces_cost(self@, self@.len()),
        ensures
            old(ids).issued() <= final(ids).issued() <= old(ids).issued() + faces_cost(
                self@,
                self@.len(),
            ),
            match res {
                Some(r) => is_shell_copy(
                    self@,
                    r@,
                    |p: P, q: Q| point_mapping.ensures((&p,), Some(q)),
                    |c: C, d: D| curve_mapping.ensures((&c,), Some(d)),
                    |s: S, u: T| surface_mapping.ensures((&s,), Some(u)),
                    old(ids).issued(),
                    final(ids).issued(),
                ),
                None => shell_fails(
                    self@,
                    |p: P| point_mapping.ensures((&p,), None::<Q>),
                    |c: C| curve_mapping.ensures((&c,), None::<D>),
                    |s: S| surface_mapping.ensures((&s,), None::<T>),
                ),
            },
    {
        let ghost vrel = |p: P, q: Q| point_mapping.ensures((&p,), Some(q));
        let ghost crel = |c: C, d: D| curve_mapping.ensures((&c,), Some(d));
        let ghost srel = |s: S, u: T| surface_mapping.ensures((&s,), Some(u));
        let ghost base = ids.issued();
        let mut atlas: Atlas<Q, D> = Atlas::new();
        let res = atlas.shell(
            ids,
            self,
            point_mapping,
            curve_mapping,
            surface_mapping,
            Ghost(shell_scope(self@)),
            Ghost(vrel),
            Ghost(crel),
            Ghost(srel),
            Ghost(base),
        );
        proof {
            if res is None {
                let sfail = |s: S| surface_mapping.ensures((&s,), None::<T>);
                if exists|f: int|
                    0 <= f < self@.len() && surface_mapping.ensures(
                        (&(#[trigger] self@[f]).surface,),
                        None::<T>,
                    ) {
                    let f = choose|f: int|
                        0 <= f < self@.len() && surface_mapping.ensures(
                            (&(#[trigger] self@[f]).surface,),
                            None::<T>,
                        );
                    assert(sfail(self@[f].surface));
                }
            }
        }
        res
    }

    /// A copy of the shell with new identities, whose points, curves and
    /// surfaces are the images of this one's. An edge or a vertex that
    /// several boundaries pass is copied once, so what the faces share in
    /// the shell their copies share in the result. Each face is copied for
    /// itself.
    pub fn mapped<Q, D, T, FP: Fn(&P) -> Q, FC: Fn(&C) -> D, FS: Fn(&S) -> T>(
        &self,
        ids: &mut IdSource,
        point_mapping: &FP,
        curve_mapping: &FC,
        surface_mapping: &FS,
    ) -> (res: Shell<Q, D, T>)
        requires
            coherent(shell_scope(self@)),
            forall|x: EdgeModel<P, C>| #[trigger]
                shell_scope(self@)(x) ==> point_mapping.requires((&x.start.point,))
                    && point_mapping.requires((&x.end.point,)) && curve_mapping.requires(
                    (&x.curve,),
                ),
            forall|f: int|
                0 <= f < self@.len() ==> surface_mapping.requires((&(#[trigger] self@[f]).surface,)),
            old(ids).remaining() >= faces_cost(self@, self@.len()),
        ensures
            old(ids).issued() <= final(ids).issued() <= old(ids).issued() + faces_cost(
                self@,
                self@.len(),
            ),
            is_shell_copy(
                self@,
                res@,
                |p: P, q: Q| point_mapping.ensures((&p,), q),
                |c: C, d: D| curve_mapping.ensures((&c,), d),
                |s: S, u: T| surface_mapping.ensures((&s,), u),
                old(ids).issued(),
                final(ids).issued(),
            ),
    {
        let fp = |p: &P| -> (r: Option<Q>)
            requires
                point_mapping.requires((p,)),
            ensures
                r is Some && point_mapping.ensures((p,), r->Some_0),
            { Some(point_mapping(p)) };
        let fc = |c: &C| -> (r: Option<D>)
            requires
                curve_mapping.requires((c,)),
            ensures
                r is Some && curve_mapping.ensures((c,), r->Some_0),
            { Some(curve_mapping(c)) };
        let fs = |s: &S| -> (r: Option<T>)
            requires
                surface_mapping.requires((s,)),
            ensures
                r is Some && surface_mapping.ensures((s,), r->Some_0),
            { Some(surface_mapping(s)) };
        let ghost base = ids.issued();
        match self.try_mapped(ids, &fp, &fc, &fs) {
            Some(r) => {
                proof {
                    let srel = |s: S, u: T| fs.ensures((&s,), Some(u));
                    let swide = |s: S, u: T| surface_mapping.ensures((&s,), u);
                    let t = choose|t: Tables<Q, D>| #[trigger]
                        shell_fits(self@, r@, t, srel) && tables_ok(
                            t,
                            shell_scope(self@),
                            |p: P, q: Q| fp.ensures((&p,), Some(q)),
                            |c: C, d: D| fc.ensures((&c,), Some(d)),
                            base,
                            ids.issued(),
                        );
                    lemma_tables_mono(
                        t,
                        shell_scope(self@),
                        |p: P, q: Q| fp.ensures((&p,), Some(q)),
                        |c: C, d: D| fc.ensures((&c,), Some(d)),
                        |p: P, q: Q| point_mapping.ensures((&p,), q),
                        |c: C, d: D| curve_mapping.ensures((&c,), d),
                        base,
                        ids.issued(),
                    );
                    assert forall|f: int| 0 <= f < self@.len() implies face_fits(
                        #[trigger] self@[f],
                        r@[f],
                        t,
                        swide,
                    ) by {
                        assert(face_fits(self@[f], r@[f], t, srel));
                    }
                    assert(shell_fits(self@, r@, t, swide));
                }
                r
            },
            None => {
                proof {
                    let sfail = |s: S| fs.ensures((&s,), None::<T>);
                    if exists|f: int| 0 <= f < self@.len() && sfail((#[trigger] self@[f]).surface) {
                        let f = choose|f: int|
                            0 <= f < self@.len() && sfail((#[trigger] self@[f]).surface);
                        assert(fs.ensures((&self@[f].surface,), None::<T>));
                    } else {
                        let x = choose|x: EdgeModel<P, C>| #[trigger]
                            shell_scope(self@)(x) && (fp.ensures((&x.start.point,), None::<Q>)
                                || fp.ensures((&x.end.point,), None::<Q>) || fc.ensures(
                                (&x.curve,),
                                None::<D>,
                            ));
                    }
                    assert(false);
                }
                vstd::pervasive::unreached()
            },
        }
    }
}

/// No two old identities have the same new one.
pub open spec fn one_to_one<Q, D>(t: Tables<Q, D>) -> bool {
    &&& forall|a: u64, b: u64|
        #![trigger t.vertex.contains_key(a), t.vertex.contains_key(b)]
        t.vertex.contains_key(a) && t.vertex.contains_key(b) && a != b ==> t.vertex[a].id
            != t.vertex[b].id
    &&& forall|a: u64, b: u64|
        #![trigger t.edge.contains_key(a), t.edge.contains_key(b)]
        t.edge.contains_key(a) && t.edge.contains_key(b) && a != b ==> t.edge[a].id
            != t.edge[b].id
}

/// Passage by passage, `b` is `a` with the identities that the tables give.
pub open spec fn renamed<Q, D>(a: Seq<Use>, b: Seq<Use>, t: Tables<Q, D>) -> bool {
    &&& a.len() == b.len()
    &&& forall|i: int|
        0 <= i < a.len() ==> {
            &&& (#[trigger] a[i]).forward == b[i].forward
            &&& a[i].face == b[i].face
            &&& t.edge.contains_key(a[i].edge)
            &&& b[i].edge == t.edge[a[i].edge].id
            &&& t.edge.contains_key(a[i].after)
            &&& b[i].after == t.edge[a[i].after].id
            &&& t.vertex.contains_key(a[i].corner)
            &&& b[i].corner == t.vertex[a[i].corner].id
        }
}

proof fn lemma_renamed_concat<Q, D>(
    a1: Seq<Use>,
    b1: Seq<Use>,
    a2: Seq<Use>,
    b2: Seq<Use>,
    t: Tables<Q, D>,
)
    requires
        renamed(a1, b1, t),
        renamed(a2, b2, t),
    ensures
        renamed(a1 + a2, b1 + b2, t),
{
    let a = a1 + a2;
    let b = b1 + b2;
    assert forall|i: int| 0 <= i < a.len() implies {
        &&& (#[trigger] a[i]).forward == b[i].forward
        &&& a[i].face == b[i].face
        &&& t.edge.contains_key(a[i].edge)
        &&& b[i].edge == t.edge[a[i].edge].id
        &&& t.edge.contains_key(a[i].after)
        &&& b[i].after == t.edge[a[i].after].id
        &&& t.vertex.contains_key(a[i].corner)
        &&& b[i].corner == t.vertex[a[i].corner].id
    } by {
        if i < a1.len() {
            assert(a[i] == a1[i] && b[i] == b1[i]);
        } else {
            let j = i - a1.len();
            assert(a[i] == a2[j] && b[i] == b2[j]);
        }
    }
}

proof fn lemma_wire_renamed<P, C, Q, D>(
    xw: Seq<EdgeModel<P, C>>,
    yw: Seq<EdgeModel<Q, D>>,
    t: Tables<Q, D>,
    face: int,
    forward: bool,
)
    requires
        wire_fits(xw, yw, t),
    ensures
        renamed(wire_uses(xw, face, forward), wire_uses(yw, face, forward), t),
{
    let a = wire_uses(xw, face, forward);
    let b = wire_uses(yw, face, forward);
    assert forall|i: int| 0 <= i < a.len() implies {
        &&& (#[trigger] a[i]).forward == b[i].forward
        &&& a[i].face == b[i].face
        &&& t.edge.contains_key(a[i].edge)
        &&& b[i].edge == t.edge[a[i].edge].id
        &&& t.edge.contains_key(a[i].after)
        &&& b[i].after == t.edge[a[i].after].id
        &&& t.vertex.contains_key(a[i].corner)
        &&& b[i].corner == t.vertex[a[i].corner].id
    } by {
        let n = crate::shell::next_in(i, xw.len() as int);
        assert(edge_fits(xw[i], yw[i], t));
        assert(edge_fits(xw[n], yw[n], t));
    }
}

proof fn lemma_wires_renamed<P, C, Q, D>(
    xb: Seq<Seq<EdgeModel<P, C>>>,
    yb: Seq<Seq<EdgeModel<Q, D>>>,
    t: Tables<Q, D>,
    face: int,
    forward: bool,
    n: nat,
)
    requires
        xb.len() == yb.len(),
        n <= xb.len(),
        forall|w: int| 0 <= w < xb.len() ==> wire_fits(#[trigger] xb[w], yb[w], t),
    ensures
        renamed(wires_uses(xb, face, forward, n), wires_uses(yb, face, forward, n), t),
    decreases n,
{
    if n > 0 {
        lemma_wires_renamed(xb, yb, t, face, forward, (n - 1) as nat);
        assert(wire_fits(xb[n - 1], yb[n - 1], t));
        lemma_wire_renamed(xb[n - 1], yb[n - 1], t, face, forward);
        lemma_renamed_concat(
            wires_uses(xb, face, forward, (n - 1) as nat),
            wires_uses(yb, face, forward, (n - 1) as nat),
            wire_uses(xb[n - 1], face, forward),
            wire_uses(yb[n - 1], face, forward),
            t,
        );
    }
}

proof fn lemma_faces_renamed<P, C, S, Q, D, T>(
    xs: Seq<FaceModel<P, C, S>>,
    ys: Seq<FaceModel<Q, D, T>>,
    t: Tables<Q, D>,
    srel: spec_fn(S, T) -> bool,
    n: nat,
)
    requires
        shell_fits(xs, ys, t, srel),
        n <= xs.len(),
    ensures
        renamed(faces_uses(xs, n), faces_uses(ys, n), t),
    decreases n,
{
    if n > 0 {
        lemma_faces_renamed(xs, ys, t, srel, (n - 1) as nat);
        assert(face_fits(xs[n - 1], ys[n - 1], t, srel));
        lemma_wires_renamed(
            xs[n - 1].boundaries,
            ys[n - 1].boundaries,
            t,
            n - 1,
            xs[n - 1].forward,
            xs[n - 1].boundaries.len(),
        );
        lemma_renamed_concat(
            faces_uses(xs, (n - 1) as nat),
            faces_uses(ys, (n - 1) as nat),
            wires_uses(xs[n - 1].boundaries, n - 1, xs[n - 1].forward, xs[n - 1].boundaries.len()),
            wires_uses(ys[n - 1].boundaries, n - 1, ys[n - 1].forward, ys[n - 1].boundaries.len()),
            t,
        );
    }
}

/// A copy shares exactly what the shell shares: handles of one edge of
/// the shell become handles of one edge of the copy, handles of
/// different edges become handles of different edges, and so for the
/// vertices. The passages of the two shells are alike.
pub proof fn lemma_copy_alike<P, C, S, Q, D, T>(
    xs: Seq<FaceModel<P, C, S>>,
    ys: Seq<FaceModel<Q, D, T>>,
    t: Tables<Q, D>,
    srel: spec_fn(S, T) -> bool,
)
    requires
        shell_fits(xs, ys, t, srel),
        one_to_one(t),
    ensures
        xs.len() == ys.len(),
        alike(uses_of(xs), uses_of(ys)),
{
    lemma_faces_renamed(xs, ys, t, srel, xs.len());
    let a = uses_of(xs);
    let b = uses_of(ys);
    assert forall|i: int, j: int| 0 <= i < a.len() && 0 <= j < a.len() implies {
        &&& ((#[trigger] a[i]).edge == (#[trigger] a[j]).edge) == (b[i].edge == b[j].edge)
        &&& (a[i].edge == a[j].after) == (b[i].edge == b[j].after)
        &&& (a[i].after == a[j].after) == (b[i].after == b[j].after)
        &&& (a[i].corner == a[j].corner) == (b[i].corner == b[j].corner)
    } by {
        assert(t.edge.contains_key(a[i].edge) && t.edge.contains_key(a[j].edge));
        assert(t.edge.contains_key(a[i].after) && t.edge.contains_key(a[j].after));
        assert(t.vertex.contains_key(a[i].corner) && t.vertex.contains_key(a[j].corner));
    }
}

/// A copy of a shell that can bound a solid can bound a solid.
pub proof fn lemma_copy_boundary<P, C, S, Q, D, T>(
    xs: Seq<FaceModel<P, C, S>>,
    ys: Seq<FaceModel<Q, D, T>>,
    vrel: spec_fn(P, Q) -> bool,
    crel: spec_fn(C, D) -> bool,
    srel: spec_fn(S, T) -> bool,
    base: nat,
    now: nat,
)
    requires
        is_shell_copy(xs, ys, vrel, crel, srel, base, now),
    ensures
        xs.len() == ys.len(),
        alike(uses_of(xs), uses_of(ys)),
        is_boundary(xs) == is_boundary(ys),
{
    let t = choose|t: Tables<Q, D>| #[trigger]
        shell_fits(xs, ys, t, srel) && tables_ok(t, shell_scope(xs), vrel, crel, base, now);
    lemma_copy_alike(xs, ys, t, srel);
    lemma_alike_fate(xs, ys);
}

/// As many identities as copies of the first `n` shells can need.
pub open spec fn shells_cost<P, C, S>(b: Seq<Seq<FaceModel<P, C, S>>>, n: nat) -> nat
    decreases n,
{
    if n == 0 {
        0
    } else {
        shells_cost(b, (n - 1) as nat) + faces_cost(b[n - 1], b[n - 1].len())
    }
}

/// The cost of the first shells does not exceed the cost of more.
pub proof fn lemma_shells_cost_mono<P, C, S>(b: Seq<Seq<FaceModel<P, C, S>>>, m: nat, n: nat)
    requires
        m <= n,
    ensures
        shells_cost(b, m) <= shells_cost(b, n),
    decreases n,
{
    if m < n {
        lemma_shells_cost_mono(b, m, (n - 1) as nat);
    }
}

/// The edge handles of the boundaries of the faces of the shells.
pub open spec fn solid_scope<P, C, S>(b: Seq<Seq<FaceModel<P, C, S>>>) -> spec_fn(
    EdgeModel<P, C>,
) -> bool {
    |x: EdgeModel<P, C>| exists|i: int| 0 <= i < b.len() && #[trigger] shell_scope(b[i])(x)
}

/// The faces of the shells have identities from `base` up to `now`, each
/// its own.
pub open spec fn shells_fresh<Q, D, T>(ys: Seq<Seq<FaceModel<Q, D, T>>>, base: nat, now: nat) -> bool {
    &&& forall|i: int, f: int|
        0 <= i < ys.len() && 0 <= f < ys[i].len() ==> base <= (#[trigger] ys[i][f]).id < now
    &&& forall|i: int, f: int, j: int, g: int|
        0 <= i < ys.len() && 0 <= f < ys[i].len() && 0 <= j < ys.len() && 0 <= g < ys[j].len() && (i
            != j || f != g) ==> (#[trigger] ys[i][f]).id != (#[trigger] ys[j][g]).id
}

/// Shell by shell, `ys` is what the tables make of `xs`.
pub open spec fn solid_fits<P, C, S, Q, D, T>(
    xs: Seq<Seq<FaceModel<P, C, S>>>,
    ys: Seq<Seq<FaceModel<Q, D, T>>>,
    t: Tables<Q, D>,
    srel: spec_fn(S, T) -> bool,
) -> bool {
    &&& ys.len() == xs.len()
    &&& forall|i: int| 0 <= i < xs.len() ==> shell_fits(#[trigger] xs[i], ys[i], t, srel)
}

/// `ys` is a copy of the shells `xs` with identities from `base` up to
/// `now`: there are tables, the same for all the shells, under which `ys`
/// is shell by shell what becomes of `xs`. All that the faces of `xs`
/// share, in one shell or in two, those of `ys` share, and nothing else.
pub open spec fn is_solid_copy<P, C, S, Q, D, T>(
    xs: Seq<Seq<FaceModel<P, C, S>>>,
    ys: Seq<Seq<FaceModel<Q, D, T>>>,
    vrel: spec_fn(P, Q) -> bool,
    crel: spec_fn(C, D) -> bool,
    srel: spec_fn(S, T) -> bool,
    base: nat,
    now: nat,
) -> bool {
    &&& shells_fresh(ys, base, now)
    &&& exists|t: Tables<Q, D>| #[trigger]
        solid_fits(xs, ys, t, srel) && tables_ok(t, solid_scope(xs), vrel, crel, base, now)
}

/// What fits old tables fits tables that have grown from them.
pub proof fn lemma_shell_fits_grows<P, C, S, Q, D, T>(
    xs: Seq<FaceModel<P, C, S>>,
    ys: Seq<FaceModel<Q, D, T>>,
    t0: Tables<Q, D>,
    t: Tables<Q, D>,
    srel: spec_fn(S, T) -> bool,
)
    requires
        shell_fits(xs, ys, t0, srel),
        grows(t0, t),
    ensures
        shell_fits(xs, ys, t, srel),
{
    assert forall|f: int| 0 <= f < xs.len() implies face_fits(#[trigger] xs[f], ys[f], t, srel) by {
        lemma_face_fits_grows(xs[f], ys[f], t0, t, srel);
    }
}

/// Some point, curve or surface of some shell has no image.
pub open spec fn solid_fails<P, C, S>(
    xs: Seq<Seq<FaceModel<P, C, S>>>,
    vfail: spec_fn(P) -> bool,
    cfail: spec_fn(C) -> bool,
    sfail: spec_fn(S) -> bool,
) -> bool {
    exists|i: int| 0 <= i < xs.len() && shell_fails(#[trigger] xs[i], vfail, cfail, sfail)
}

impl<P, C, S> Solid<P, C, S> {
    /// A copy of the solid with new identities, whose points, curves and
    /// surfaces are the images of this one's; `None` if one of them has no
    /// image. An edge or a vertex that several boundaries pass, of one
    /// shell or of two, is copied once, so what the faces share in the
    /// solid their copies share in the result. Each face is copied for
    /// itself.
    pub fn try_mapped<
        Q,
        D,
        T,
        FP: Fn(&P) -> Option<Q>,
        FC: Fn(&C) -> Option<D>,
        FS: Fn(&S) -> Option<T>,
    >(
        &self,
        ids: &mut IdSource,
        point_mapping: &FP,
        curve_mapping: &FC,
        surface_mapping: &FS,
    ) -> (res: Option<Solid<Q, D, T>>)
        requires
            coherent(solid_scope(self@)),
            forall|x: EdgeModel<P, C>| #[trigger]
                solid_scope(self@)(x) ==> point_mapping.requires((&x.start.point,))
                    && point_mapping.requires((&x.end.point,)) && curve_mapping.requires(
                    (&x.curve,),
                ),
            forall|i: int, f: int|
                0 <= i < self@.len() && 0 <= f < self@[i].len() ==> surface_mapping.requires(
                    (&(#[trigger] self@[i][f]).surface,),
                ),
            old(ids).remaining() >= shells_cost(self@, self@.len()),
        ensures
            old(ids).issued() <= final(ids).issued() <= old(ids).issued() + shells_cost(
                self@,
                self@.len(),
            ),
            match res {
                Some(r) => is_solid_copy(
                    self@,
                    r@,
                    |p: P, q: Q| point_mapping.ensures((&p,), Some(q)),
                    |c: C, d: D| curve_mapping.ensures((&c,), Some(d)),
                    |s: S, u: T| surface_mapping.ensures((&s,), Some(u)),
                    old(ids).issued(),
                    final(ids).issued(),
                ),
                None => solid_fails(
                    self@,
                    |p: P| point_mapping.ensures((&p,), None::<Q>),
                    |c: C| curve_mapping.ensures((&c,), None::<D>),
                    |s: S| surface_mapping.ensures((&s,), None::<T>),
                ),
            },
    {
        let ghost xs = self@;
        let ghost scope = solid_scope(xs);
        let ghost vrel = |p: P, q: Q| point_mapping.ensures((&p,), Some(q));
        let ghost crel = |c: C, d: D| curve_mapping.ensures((&c,), Some(d));
        let ghost srel = |s: S, u: T| surface_mapping.ensures((&s,), Some(u));
        let ghost base = ids.issued();
        let mut atlas: Atlas<Q, D> = Atlas::new();
        let shells = self.boundaries();
        let n = shells.len();
        let mut out: Vec<Shell<Q, D, T>> = Vec::new();
        let mut i: usize = 0;
        while i < n
            invariant
                n == shells@.len(),
                xs == self@,
                shell_views(shells@) == xs,
                all_boundaries(xs),
                i <= n,
                scope == solid_scope(xs),
                coherent(scope),
                forall|x: EdgeModel<P, C>| #[trigger]
                    scope(x) ==> point_mapping.requires((&x.start.point,))
                        && point_mapping.requires((&x.end.point,)) && curve_mapping.requires(
                        (&x.curve,),
                    ),
                forall|i: int, f: int|
                    0 <= i < xs.len() && 0 <= f < xs[i].len() ==> surface_mapping.requires(
                        (&(#[trigger] xs[i][f]).surface,),
                    ),
                vrel == (|p: P, q: Q| point_mapping.ensures((&p,), Some(q))),
                crel == (|c: C, d: D| curve_mapping.ensures((&c,), Some(d))),
                srel == (|s: S, u: T| surface_mapping.ensures((&s,), Some(u))),
                base == old(ids).issued(),
                old(ids).remaining() >= shells_cost(xs, n as nat),
                base <= ids.issued() <= base + shells_cost(xs, i as nat),
                tables_ok(atlas.tables(), scope, vrel, crel, base, ids.issued()),
                out@.len() == i,
                forall|k: int|
                    0 <= k < i ==> shell_fits(xs[k], (#[trigger] out@[k])@, atlas.tables(), srel),
                shells_fresh(shell_views(out@), base, ids.issued()),
            decreases n - i,
        {
            let ghost t0 = atlas.tables();
            let ghost mid = ids.issued();
            let ghost done = shell_views(out@);
            proof {
                lemma_shells_cost_mono(xs, (i + 1) as nat, n as nat);
                assert(shell_views(shells@)[i as int] == shells@[i as int]@);
                assert forall|x: EdgeModel<P, C>| #[trigger]
                    shell_scope(xs[i as int])(x) implies scope(x) by {}
                assert forall|f: int| 0 <= f < xs[i as int].len() implies surface_mapping.requires(
                    (&(#[trigger] xs[i as int][f]).surface,),
                ) by {}
            }
            match atlas.shell(
                ids,
                &shells[i],
                point_mapping,
                curve_mapping,
                surface_mapping,
                Ghost(scope),
                Ghost(vrel),
                Ghost(crel),
                Ghost(srel),
                Ghost(base),
            ) {
                Some(o) => {
                    out.push(o);
                    proof {
                        let t = atlas.tables();
                        assert forall|k: int| 0 <= k < i + 1 implies shell_fits(
                            xs[k],
                            (#[trigger] out@[k])@,
                            t,
                            srel,
                        ) by {
                            if k < i {
                                lemma_shell_fits_grows(xs[k], out@[k]@, t0, t, srel);
                            }
                        }
                        let now = shell_views(out@);
                        assert forall|k: int| 0 <= k < i implies #[trigger] now[k] == done[k] by {}
                        assert(faces_fresh(now[i as int], mid, ids.issued()));
                        assert forall|k: int, f: int|
                            0 <= k < now.len() && 0 <= f < now[k].len() implies base <= (
                        #[trigger] now[k][f]).id < ids.issued() by {
                            if k < i {
                                assert(now[k] == done[k]);
                                assert(base <= done[k][f].id < mid);
                            }
                        }
                        assert forall|k: int, f: int, j: int, g: int|
                            0 <= k < now.len() && 0 <= f < now[k].len() && 0 <= j < now.len() && 0
                                <= g < now[j].len() && (k != j || f != g) implies (
                        #[trigger] now[k][f]).id != (#[trigger] now[j][g]).id by {
                            if k < i {
                                assert(now[k] == done[k]);
                                assert(base <= done[k][f].id < mid);
                            }
                            if j < i {
                                assert(now[j] == done[j]);
                                assert(base <= done[j][g].id < mid);
                            }
                            if k < i && j < i {
                                assert(done[k][f].id != done[j][g].id);
                            }
                        }
                    }
                },
                None => {
                    proof {
                        let vfail = |p: P| point_mapping.ensures((&p,), None::<Q>);
                        let cfail = |c: C| curve_mapping.ensures((&c,), None::<D>);
                        let sfail = |s: S| surface_mapping.ensures((&s,), None::<T>);
                        let here = xs[i as int];
                        if exists|f: int|
                            0 <= f < here.len() && surface_mapping.ensures(
                                (&(#[trigger] here[f]).surface,),
                                None::<T>,
                            ) {
                            let f = choose|f: int|
                                0 <= f < here.len() && surface_mapping.ensures(
                                    (&(#[trigger] here[f]).surface,),
                                    None::<T>,
                                );
                            assert(sfail(here[f].surface));
                            assert(shell_fails(here, vfail, cfail, sfail));
                        } else {
                            let x = choose|x: EdgeModel<P, C>| #[trigger]
                                scope(x) && (point_mapping.ensures((&x.start.point,), None::<Q>)
                                    || point_mapping.ensures((&x.end.point,), None::<Q>)
                                    || curve_mapping.ensures((&x.curve,), None::<D>));
                            let j = choose|j: int|
                                0 <= j < xs.len() && #[trigger] shell_scope(xs[j])(x);
                            assert(vfail(x.start.point) || vfail(x.end.point) || cfail(x.curve));
                            assert(fails_in(shell_scope(xs[j]), vfail, cfail));
                            assert(shell_fails(xs[j], vfail, cfail, sfail));
                        }
                        assert(solid_fails(xs, vfail, cfail, sfail));
                    }
                    return None;
                },
            }
            i += 1;
        }
        proof {
            let t = atlas.tables();
            assert forall|k: int| 0 <= k < out@.len() implies is_boundary(
                #[trigger] shell_views(out@)[k],
            ) by {
                assert(is_boundary(xs[k]));
                lemma_copy_alike(xs[k], out@[k]@, t, srel);
                lemma_alike_fate(xs[k], out@[k]@);
            }
        }
        let res = Solid::new(out);
        proof {
            let t = atlas.tables();
            assert forall|k: int| 0 <= k < xs.len() implies shell_fits(
                #[trigger] xs[k],
                res@[k],
                t,
                srel,
            ) by {
                assert(res@[k] == out@[k]@);
            }
            assert(solid_fits(xs, res@, t, srel));
        }
        Some(res)
    }

    /// A copy of the solid with new identities, whose points, curves and
    /// surfaces are the images of this one's. An edge or a vertex that
    /// several boundaries pass, of one shell or of two, is copied once, so
    /// what the faces share in the solid their copies share in the result.
    /// Each face is copied for itself.
    pub fn mapped<Q, D, T, FP: Fn(&P) -> Q, FC: Fn(&C) -> D, FS: Fn(&S) -> T>(
        &self,
        ids: &mut IdSource,
        point_mapping: &FP,
        curve_mapping: &FC,
        surface_mapping: &FS,
    ) -> (res: Solid<Q, D, T>)
        requires
            coherent(solid_scope(self@)),
            forall|x: EdgeModel<P, C>| #[trigger]
                solid_scope(self@)(x) ==> point_mapping.requires((&x.start.point,))
                    && point_mapping.requires((&x.end.point,)) && curve_mapping.requires(
                    (&x.curve,),
                ),
            forall|i: int, f: int|
                0 <= i < self@.len() && 0 <= f < self@[i].len() ==> surface_mapping.requires(
                    (&(#[trigger] self@[i][f]).surface,),
                ),
            old(ids).remaining() >= shells_cost(self@, self@.len()),
        ensures
            old(ids).issued() <= final(ids).issued() <= old(ids).issued() + shells_cost(
                self@,
                self@.len(),
            ),
            is_solid_copy(
                self@,
                res@,
                |p: P, q: Q| point_mapping.ensures((&p,), q),
                |c: C, d: D| curve_mapping.ensures((&c,), d),
                |s: S, u: T| surface_mapping.ensures((&s,), u),
                old(ids).issued(),
                final(ids).issued(),
            ),
    {
        let fp = |p: &P| -> (r: Option<Q>)
            requires
                point_mapping.requires((p,)),
            ensures
                r is Some && point_mapping.ensures((p,), r->Some_0),
            { Some(point_mapping(p)) };
        let fc = |c: &C| -> (r: Option<D>)
            requires
                curve_mapping.requires((c,)),
            ensures
                r is Some && curve_mapping.ensures((c,), r->Some_0),
            { Some(curve_mapping(c)) };
        let fs = |s: &S| -> (r: Option<T>)
            requires
                surface_mapping.requires((s,)),
            ensures
                r is Some && surface_mapping.ensures((s,), r->Some_0),
            { Some(surface_mapping(s)) };
        let ghost base = ids.issued();
        match self.try_mapped(ids, &fp, &fc, &fs) {
            Some(r) => {
                proof {
                    let srel = |s: S, u: T| fs.ensures((&s,), Some(u));
                    let swide = |s: S, u: T| surface_mapping.ensures((&s,), u);
                    let t = choose|t: Tables<Q, D>| #[trigger]
                        solid_fits(self@, r@, t, srel) && tables_ok(
                            t,
                            solid_scope(self@),
                            |p: P, q: Q| fp.ensures((&p,), Some(q)),
                            |c: C, d: D| fc.ensures((&c,), Some(d)),
                            base,
                            ids.issued(),
                        );
                    lemma_tables_mono(
                        t,
                        solid_scope(self@),
                        |p: P, q: Q| fp.ensures((&p,), Some(q)),
                        |c: C, d: D| fc.ensures((&c,), Some(d)),
                        |p: P, q: Q| point_mapping.ensures((&p,), q),
                        |c: C, d: D| curve_mapping.ensures((&c,), d),
                        base,
                        ids.issued(),
                    );
                    assert forall|i: int| 0 <= i < self@.len() implies shell_fits(
                        #[trigger] self@[i],
                        r@[i],
                        t,
                        swide,
                    ) by {
                        assert(shell_fits(self@[i], r@[i], t, srel));
                        assert forall|f: int| 0 <= f < self@[i].len() implies face_fits(
                            #[trigger] self@[i][f],
                            r@[i][f],
                            t,
                            swide,
                        ) by {
                            assert(face_fits(self@[i][f], r@[i][f], t, srel));
                        }
                    }
                    assert(solid_fits(self@, r@, t, swide));
                }
                r
            },
            None => {
                proof {
                    let vfail = |p: P| fp.ensures((&p,), None::<Q>);
                    let cfail = |c: C| fc.ensures((&c,), None::<D>);
                    let sfail = |s: S| fs.ensures((&s,), None::<T>);
                    let i = choose|i: int|
                        0 <= i < self@.len() && shell_fails(#[trigger] self@[i], vfail, cfail, sfail);
                    if exists|f: int| 0 <= f < self@[i].len() && sfail((#[trigger] self@[i][f]).surface) {
                        let f = choose|f: int|
                            0 <= f < self@[i].len() && sfail((#[trigger] self@[i][f]).surface);
                        assert(fs.ensures((&self@[i][f].surface,), None::<T>));
                    } else {
                        let x = choose|x: EdgeModel<P, C>| #[trigger]
                            shell_scope(self@[i])(x) && (vfail(x.start.point) || vfail(x.end.point)
                                || cfail(x.curve));
                        assert(solid_scope(self@)(x));
                    }
                    assert(false);
                }
                vstd::pervasive::unreached()
            },
        }
    }
}

} // verus!
