//! Sweeps of shells: each component of the shell is swept by its free
//! boundary.
use vstd::prelude::*;
use crate::boundary::{
    chain_with_places, free_edges, is_split, passes, picked_from, split_ok, views,
};
use crate::edge::{Edge, EdgeModel};
use crate::errors::Error;
use crate::face::FaceModel;
use crate::graph::joined;
use crate::ident::IdSource;
use crate::face::wire_views;
use crate::mapping::{
    coherent, edge_fits, face_fits, faces_cost, is_shell_copy, shell_fits, shell_scope, tables_ok,
    wire_fits, wire_scope, wires_cost, Tables,
};
use crate::shell::{
    concat, edge_views, face_edges, face_rel, faces_edges, members, roots, uses_of, Shell,
};
use crate::sweep::{inverse_faces, is_band, lemma_fits_inverse};
use crate::sweep_face::{bands_between, bands_ready};
use crate::wire::is_chain;
use crate::solid::{shell_views, Solid};
use crate::sweep::{
    face_rings_ok, is_wire_ring, rings_cost, solid_of,
};
use crate::wire::Wire;

verus! {

/// Every item of the first `n` sequences joined comes from one of them.
pub proof fn lemma_concat_from<A>(ss: Seq<Seq<A>>, n: nat, i: int)
    requires
        n <= ss.len(),
        0 <= i < concat(ss, n).len(),
    ensures
        exists|a: int, b: int|
            0 <= a < n && 0 <= b < ss[a].len() && #[trigger] ss[a][b] == concat(ss, n)[i],
    decreases n,
{
    if n > 0 {
        let before = concat(ss, (n - 1) as nat);
        if i < before.len() {
            lemma_concat_from(ss, (n - 1) as nat, i);
            let (a, b) = choose|a: int, b: int|
                0 <= a < n - 1 && 0 <= b < ss[a].len() && #[trigger] ss[a][b] == before[i];
            assert(ss[a][b] == concat(ss, n)[i]);
        } else {
            let b = i - before.len();
            assert(ss[n - 1][b] == concat(ss, n)[i]);
        }
    }
}

/// Every item of one of the first `n` sequences is among them joined.
pub proof fn lemma_concat_has<A>(ss: Seq<Seq<A>>, n: nat, a: int, b: int)
    requires
        n <= ss.len(),
        0 <= a < n,
        0 <= b < ss[a].len(),
    ensures
        exists|i: int| 0 <= i < concat(ss, n).len() && #[trigger] concat(ss, n)[i] == ss[a][b],
    decreases n,
{
    let before = concat(ss, (n - 1) as nat);
    if a < n - 1 {
        lemma_concat_has(ss, (n - 1) as nat, a, b);
        let i = choose|i: int| 0 <= i < before.len() && #[trigger] before[i] == ss[a][b];
        assert(concat(ss, n)[i] == ss[a][b]);
    } else {
        assert(concat(ss, n)[before.len() + b] == ss[a][b]);
    }
}

/// The edges of the faces, face by face, as sequences.
pub open spec fn pieces<P, C, S>(s: Seq<FaceModel<P, C, S>>) -> Seq<Seq<EdgeModel<P, C>>> {
    Seq::new(s.len(), |f: int| face_edges(s[f]))
}

/// Every face of a component is a face of the shell, and a component has
/// no more edges than the shell.
pub proof fn lemma_members<P, C, S>(
    s: Seq<FaceModel<P, C, S>>,
    rel: spec_fn(int, int) -> bool,
    root: int,
    n: nat,
)
    requires
        n <= s.len(),
    ensures
        members(s, rel, root, n).len() <= n,
        forall|i: int|
            0 <= i < members(s, rel, root, n).len() ==> exists|j: int|
                0 <= j < n && #[trigger] s[j] == (#[trigger] members(s, rel, root, n)[i]),
        faces_edges(members(s, rel, root, n)).len() <= concat(pieces(s), n).len(),
    decreases n,
{
    if n > 0 {
        lemma_members(s, rel, root, (n - 1) as nat);
        let m0 = members(s, rel, root, (n - 1) as nat);
        let m = members(s, rel, root, n);
        assert forall|i: int| 0 <= i < m.len() implies exists|j: int|
            0 <= j < n && #[trigger] s[j] == (#[trigger] m[i]) by {
            if i < m0.len() {
                let j = choose|j: int| 0 <= j < n - 1 && #[trigger] s[j] == m0[i];
                assert(s[j] == m[i]);
            } else {
                assert(s[n - 1] == m[i]);
            }
        }
        if joined(rel, root, n - 1) {
            assert(m == m0.push(s[n - 1]));
            assert(pieces(m) =~= pieces(m0).push(face_edges(s[n - 1])));
            crate::sweep::lemma_concat_push(pieces(m0), face_edges(s[n - 1]));
        }
    } else {
        assert(faces_edges(members(s, rel, root, 0)).len() == 0);
    }
}

/// Every edge of faces that are faces of a shell is an edge of the shell.
pub proof fn lemma_part_edges<P, C, S>(s: Seq<FaceModel<P, C, S>>, part: Seq<FaceModel<P, C, S>>)
    requires
        forall|i: int|
            0 <= i < part.len() ==> exists|j: int| 0 <= j < s.len() && #[trigger] s[j] == (
            #[trigger] part[i]),
    ensures
        forall|k: int|
            0 <= k < faces_edges(part).len() ==> wire_scope(faces_edges(s))(
                #[trigger] faces_edges(part)[k],
            ),
{
    assert forall|k: int| 0 <= k < faces_edges(part).len() implies wire_scope(faces_edges(s))(
        #[trigger] faces_edges(part)[k],
    ) by {
        lemma_concat_from(pieces(part), part.len(), k);
        let (a, b) = choose|a: int, b: int|
            0 <= a < part.len() && 0 <= b < pieces(part)[a].len() && #[trigger] pieces(part)[a][b]
                == concat(pieces(part), part.len())[k];
        let j = choose|j: int| 0 <= j < s.len() && #[trigger] s[j] == part[a];
        assert(pieces(s)[j] == pieces(part)[a]);
        lemma_concat_has(pieces(s), s.len(), j, b);
    }
}

/// Every free edge is one of the edges, and there are no more free edges
/// than edges.
pub proof fn lemma_free<P, C>(es: Seq<EdgeModel<P, C>>, n: nat)
    requires
        n <= es.len(),
    ensures
        free_edges(es, n).len() <= n,
        forall|i: int|
            0 <= i < free_edges(es, n).len() ==> wire_scope(es)(#[trigger] free_edges(es, n)[i]),
    decreases n,
{
    if n > 0 {
        lemma_free(es, (n - 1) as nat);
        let f0 = free_edges(es, (n - 1) as nat);
        let f = free_edges(es, n);
        assert forall|i: int| 0 <= i < f.len() implies wire_scope(es)(#[trigger] f[i]) by {
            if i < f0.len() {
                assert(f[i] == f0[i]);
            } else {
                assert(es[n - 1] == f[i]);
            }
        }
    }
}

/// There are no more components than faces.
pub proof fn lemma_roots(rel: spec_fn(int, int) -> bool, n: nat)
    ensures
        roots(rel, n).len() <= n,
    decreases n,
{
    if n > 0 {
        lemma_roots(rel, (n - 1) as nat);
    }
}

/// What holds of the edges of a shell holds of the edges of a wire that is
/// made of them.
pub proof fn lemma_wire_of_edges<P, C>(es: Seq<EdgeModel<P, C>>, w: Seq<EdgeModel<P, C>>)
    requires
        forall|k: int| 0 <= k < w.len() ==> wire_scope(es)(#[trigger] w[k]),
        coherent(wire_scope(es)),
    ensures
        coherent(wire_scope(w)),
{
    let scope = wire_scope(w);
    let wide = wire_scope(es);
    assert forall|x: EdgeModel<P, C>, y: EdgeModel<P, C>|
        #![trigger scope(x), scope(y)]
        scope(x) && scope(y) && x.id == y.id implies x.start.id == y.start.id && x.end.id
        == y.end.id by {
        let j = choose|j: int| 0 <= j < w.len() && #[trigger] w[j] == x;
        let k = choose|k: int| 0 <= k < w.len() && #[trigger] w[k] == y;
        assert(wide(w[j]) && wide(w[k]));
    }
}

/// The rings round the first wires of a splitting cost six identities for
/// each of their edges and each step.
proof fn lemma_split_cost<P, C>(
    free: Seq<EdgeModel<P, C>>,
    wires: Seq<Seq<EdgeModel<P, C>>>,
    order: Seq<int>,
    cuts: Seq<int>,
    d: int,
    n: nat,
)
    requires
        split_ok(free, wires, order, cuts),
        n <= wires.len(),
        d >= 0,
    ensures
        rings_cost(wires, d, n) == 6 * cuts[n as int] * d,
        0 <= cuts[n as int] <= free.len(),
    decreases n,
{
    if n > 0 {
        lemma_split_cost(free, wires, order, cuts, d, (n - 1) as nat);
        assert(0 <= cuts[n - 1] < cuts[n - 1 + 1] <= order.len());
        assert(wires[n - 1].len() == cuts[n - 1 + 1] - cuts[n - 1]);
        let a = cuts[n - 1];
        let b = cuts[n as int];
        assert(6 * a * d + 6 * (b - a) * d == 6 * b * d) by (nonlinear_arith);
    } else {
        assert(6 * 0 * d == 0) by (nonlinear_arith);
    }
}

/// `res` is what becomes of a component when it is swept round in `d`
/// steps: what `Solid::try_new` answers to the rings of the wires of its
/// free boundary.
pub open spec fn is_component_ring<P, C, S>(
    part: Seq<FaceModel<P, C, S>>,
    res: Result<Solid<P, C, S>, Error>,
    d: int,
    vrel: spec_fn(P, P) -> bool,
    crel: spec_fn(C, C) -> bool,
    prel: spec_fn(P, P, C) -> bool,
    srel: spec_fn(C, C, S) -> bool,
    base: nat,
) -> bool {
    exists|wires: Seq<Seq<EdgeModel<P, C>>>, rings: Seq<Seq<FaceModel<P, C, S>>>, marks: Seq<nat>|
        #[trigger] face_rings_ok(wires, true, rings, marks, d, vrel, crel, prel, srel) && is_split(
            free_edges(faces_edges(part), faces_edges(part).len()),
            wires,
        ) && marks[0] == base && solid_of(res, rings)
}

/// `res` is what becomes of a component when it is swept round in `d`
/// steps, with identities from some number between `low` and `high` on.
pub open spec fn is_component_ring_within<P, C, S>(
    part: Seq<FaceModel<P, C, S>>,
    res: Result<Solid<P, C, S>, Error>,
    d: int,
    vrel: spec_fn(P, P) -> bool,
    crel: spec_fn(C, C) -> bool,
    prel: spec_fn(P, P, C) -> bool,
    srel: spec_fn(C, C, S) -> bool,
    low: nat,
    high: nat,
) -> bool {
    exists|base: nat|
        low <= base <= high && #[trigger] is_component_ring(
            part,
            res,
            d,
            vrel,
            crel,
            prel,
            srel,
            base,
        )
}

/// Sweeps one component round.
fn sweep_part<P, C, S, FP: Fn(&P) -> P, FC: Fn(&C) -> C, CP: Fn(&P, &P) -> C, CE: Fn(&C, &C) -> S>(
    part: &Shell<P, C, S>,
    ids: &mut IdSource,
    point_mapping: &FP,
    curve_mapping: &FC,
    connect_points: &CP,
    connect_curves: &CE,
    division: usize,
    Ghost(es): Ghost<Seq<EdgeModel<P, C>>>,
) -> (res: Result<Solid<P, C, S>, Error>)
    requires
        division >= 1,
        forall|k: int|
            0 <= k < faces_edges(part@).len() ==> wire_scope(es)(#[trigger] faces_edges(part@)[k]),
        coherent(wire_scope(es)),
        forall|p: P| point_mapping.requires((&p,)),
        forall|c: C| curve_mapping.requires((&c,)),
        forall|a: P, b: P| connect_points.requires((&a, &b)),
        forall|c: C, d: C| connect_curves.requires((&c, &d)),
        old(ids).remaining() >= 6 * faces_edges(part@).len() * division,
    ensures
        old(ids).issued() <= final(ids).issued() <= old(ids).issued() + 6 * faces_edges(part@).len()
            * division,
        is_component_ring(
            part@,
            res,
            division as int,
            |p: P, q: P| point_mapping.ensures((&p,), q),
            |c: C, d: C| curve_mapping.ensures((&c,), d),
            |a: P, b: P, c: C| connect_points.ensures((&a, &b), c),
            |c: C, d: C, s: S| connect_curves.ensures((&c, &d), s),
            old(ids).issued(),
        ),
{
    let ghost vrel = |p: P, q: P| point_mapping.ensures((&p,), q);
    let ghost crel = |c: C, d: C| curve_mapping.ensures((&c,), d);
    let ghost prel = |a: P, b: P, c: C| connect_points.ensures((&a, &b), c);
    let ghost srel = |c: C, d: C, s: S| connect_curves.ensures((&c, &d), s);
    let ghost base = ids.issued();
    let ghost d = division as int;
    let ghost all = faces_edges(part@);
    let ghost free = free_edges(all, all.len());
    let ws = part.extract_boundaries();
    let ghost b = views(ws@);
    let ghost (order, cuts) = choose|order: Seq<int>, cuts: Seq<int>| #[trigger]
        split_ok(free, b, order, cuts);
    let n = ws.len();
    let ghost total = 6 * all.len() * d;
    proof {
        lemma_free(all, all.len());
        lemma_split_cost(free, b, order, cuts, d, n as nat);
        assert(6 * cuts[n as int] * d <= 6 * all.len() * d) by (nonlinear_arith)
            requires
                0 <= cuts[n as int] <= all.len(),
                d >= 0,
        ;
        assert forall|w: int, k: int| 0 <= w < b.len() && 0 <= k < b[w].len() implies wire_scope(
            es,
        )(#[trigger] b[w][k]) by {
            assert(0 <= cuts[w] < cuts[w + 1] <= order.len());
            assert(b[w] == Seq::new(
                (cuts[w + 1] - cuts[w]) as nat,
                |i: int| free[order[cuts[w] + i]],
            ));
            let i = order[cuts[w] + k];
            assert(0 <= i < free.len());
            assert(wire_scope(all)(free[i]));
            let j = choose|j: int| 0 <= j < all.len() && #[trigger] all[j] == free[i];
            assert(wire_scope(es)(all[j]));
        }
    }
    let ghost mut marks: Seq<nat> = seq![base];
    let mut shells: Vec<Shell<P, C, S>> = Vec::new();
    let mut w: usize = 0;
    while w < n
        invariant
            division >= 1,
            d == division,
            n == ws@.len(),
            b == views(ws@),
            w <= n,
            base == old(ids).issued(),
            total == 6 * all.len() * d,
            old(ids).remaining() >= total,
            rings_cost(b, d, n as nat) <= total,
            base <= ids.issued() <= base + rings_cost(b, d, w as nat),
            forall|w: int, k: int|
                0 <= w < b.len() && 0 <= k < b[w].len() ==> wire_scope(es)(#[trigger] b[w][k]),
            coherent(wire_scope(es)),
            forall|p: P| point_mapping.requires((&p,)),
            forall|c: C| curve_mapping.requires((&c,)),
            forall|a: P, b: P| connect_points.requires((&a, &b)),
            forall|c: C, d: C| connect_curves.requires((&c, &d)),
            vrel == (|p: P, q: P| point_mapping.ensures((&p,), q)),
            crel == (|c: C, d: C| curve_mapping.ensures((&c,), d)),
            prel == (|a: P, b: P, c: C| connect_points.ensures((&a, &b), c)),
            srel == (|c: C, d: C, s: S| connect_curves.ensures((&c, &d), s)),
            shells@.len() == w,
            marks.len() == w + 1,
            marks[0] == base,
            marks[w as int] == ids.issued(),
            forall|k: int|
                0 <= k < w ==> is_wire_ring(
                    b[k],
                    (#[trigger] shells@[k])@,
                    d,
                    vrel,
                    crel,
                    prel,
                    srel,
                    marks[k],
                    marks[k + 1],
                ),
        decreases n - w,
    {
        proof {
            crate::sweep::lemma_rings_cost_mono(b, d, (w + 1) as nat, n as nat);
            crate::sweep::lemma_rings_cost_mono(b, d, w as nat, w as nat);
            assert(b[w as int] == ws@[w as int]@);
            assert forall|k: int| 0 <= k < b[w as int].len() implies wire_scope(es)(
                #[trigger] b[w as int][k],
            ) by {}
            lemma_wire_of_edges(es, b[w as int]);
        }
        let shell = ws[w].closed_sweep(
            ids,
            point_mapping,
            curve_mapping,
            connect_points,
            connect_curves,
            division,
        );
        let ghost done = shells@;
        let ghost old_marks = marks;
        shells.push(shell);
        proof {
            marks = marks.push(ids.issued());
            assert forall|k: int| 0 <= k < w + 1 implies is_wire_ring(
                b[k],
                (#[trigger] shells@[k])@,
                d,
                vrel,
                crel,
                prel,
                srel,
                marks[k],
                marks[k + 1],
            ) by {
                if k < w {
                    assert(shells@[k] == done[k]);
                    assert(marks[k] == old_marks[k]);
                    assert(marks[k + 1] == old_marks[k + 1]);
                }
            }
        }
        w += 1;
    }
    let ghost rings = shell_views(shells@);
    proof {
        assert forall|k: int| 0 <= k < b.len() implies is_wire_ring(
            b[k],
            #[trigger] rings[k],
            d,
            vrel,
            crel,
            prel,
            srel,
            marks[k],
            marks[k + 1],
        ) by {
            assert(rings[k] == shells@[k]@);
        }
        assert(face_rings_ok(b, true, rings, marks, d, vrel, crel, prel, srel));
        assert(is_split(free, b));
    }
    let res = Solid::try_new(shells);
    proof {
        assert(solid_of(res, rings));
    }
    res
}

impl<P, C, S> Shell<P, C, S> {
    /// The solids that the shell sweeps when it is carried round in
    /// `division` steps, one for each of its components, in their order:
    /// each wire of the free boundary of the component sweeps a ring, and
    /// the rings are the shells of the solid, if they can bound one.
    /// Otherwise the fault of the first that cannot.
    pub fn closed_sweep<FP: Fn(&P) -> P, FC: Fn(&C) -> C, CP: Fn(&P, &P) -> C, CE: Fn(&C, &C) -> S>(
        &self,
        ids: &mut IdSource,
        point_mapping: &FP,
        curve_mapping: &FC,
        connect_points: &CP,
        connect_curves: &CE,
        division: usize,
    ) -> (res: Vec<Result<Solid<P, C, S>, Error>>)
        requires
            division >= 1,
            coherent(wire_scope(faces_edges(self@))),
            forall|p: P| point_mapping.requires((&p,)),
            forall|c: C| curve_mapping.requires((&c,)),
            forall|a: P, b: P| connect_points.requires((&a, &b)),
            forall|c: C, d: C| connect_curves.requires((&c, &d)),
            old(ids).remaining() >= 6 * faces_edges(self@).len() * division * self@.len(),
        ensures
            old(ids).issued() <= final(ids).issued(),
            res@.len() == roots(face_rel(uses_of(self@)), self@.len()).len(),
            forall|c: int|
                0 <= c < res@.len() ==> is_component_ring_within(
                    members(
                        self@,
                        face_rel(uses_of(self@)),
                        roots(face_rel(uses_of(self@)), self@.len())[c],
                        self@.len(),
                    ),
                    #[trigger] res@[c],
                    division as int,
                    |p: P, q: P| point_mapping.ensures((&p,), q),
                    |c: C, d: C| curve_mapping.ensures((&c,), d),
                    |a: P, b: P, c: C| connect_points.ensures((&a, &b), c),
                    |c: C, d: C, s: S| connect_curves.ensures((&c, &d), s),
                    old(ids).issued(),
                    final(ids).issued(),
                ),
    {
        let ghost vrel = |p: P, q: P| point_mapping.ensures((&p,), q);
        let ghost crel = |c: C, d: C| curve_mapping.ensures((&c,), d);
        let ghost prel = |a: P, b: P, c: C| connect_points.ensures((&a, &b), c);
        let ghost srel = |c: C, d: C, s: S| connect_curves.ensures((&c, &d), s);
        let ghost start = ids.issued();
        let ghost d = division as int;
        let ghost s = self@;
        let ghost rel = face_rel(uses_of(s));
        let ghost es = faces_edges(s);
        let ghost rs = roots(rel, s.len());
        let parts = self.connected_components();
        let n = parts.len();
        let ghost each = 6 * es.len() * d;
        proof {
            lemma_roots(rel, s.len());
            assert(each >= 0) by (nonlinear_arith)
                requires
                    each == 6 * es.len() * d,
                    d >= 0,
                    es.len() >= 0,
            ;
            assert(each * n <= each * s.len()) by (nonlinear_arith)
                requires
                    each >= 0,
                    n <= s.len(),
            ;
            assert(6 * es.len() * d * s.len() == each * s.len());
        }
        let mut res: Vec<Result<Solid<P, C, S>, Error>> = Vec::new();
        let mut c: usize = 0;
        while c < n
            invariant
                division >= 1,
                d == division,
                s == self@,
                rel == face_rel(uses_of(s)),
                es == faces_edges(s),
                rs == roots(rel, s.len()),
                n == parts@.len(),
                n == rs.len(),
                c <= n,
                forall|c: int| 0 <= c < n ==> (#[trigger] parts@[c])@ == members(s, rel, rs[c], s.len()),
                start == old(ids).issued(),
                each == 6 * es.len() * d,
                each >= 0,
                old(ids).remaining() >= each * n,
                start <= ids.issued() <= start + each * c,
                coherent(wire_scope(es)),
                forall|p: P| point_mapping.requires((&p,)),
                forall|c: C| curve_mapping.requires((&c,)),
                forall|a: P, b: P| connect_points.requires((&a, &b)),
                forall|c: C, d: C| connect_curves.requires((&c, &d)),
                vrel == (|p: P, q: P| point_mapping.ensures((&p,), q)),
                crel == (|c: C, d: C| curve_mapping.ensures((&c,), d)),
                prel == (|a: P, b: P, c: C| connect_points.ensures((&a, &b), c)),
                srel == (|c: C, d: C, s: S| connect_curves.ensures((&c, &d), s)),
                res@.len() == c,
                forall|k: int|
                    0 <= k < c ==> is_component_ring_within(
                        members(s, rel, rs[k], s.len()),
                        #[trigger] res@[k],
                        d,
                        vrel,
                        crel,
                        prel,
                        srel,
                        start,
                        ids.issued(),
                    ),
            decreases n - c,
        {
            let part = &parts[c];
            let ghost here = ids.issued();
            proof {
                lemma_members(s, rel, rs[c as int], s.len());
                lemma_part_edges(s, part@);
                assert(concat(pieces(s), s.len()) == es);
                assert(6 * faces_edges(part@).len() * d <= each) by (nonlinear_arith)
                    requires
                        0 <= faces_edges(part@).len() <= es.len(),
                        d >= 0,
                        each == 6 * es.len() * d,
                ;
                assert(each * c + each <= each * n) by (nonlinear_arith)
                    requires
                        c + 1 <= n,
                        each >= 0,
                ;
                assert(each * (c + 1) == each * c + each) by (nonlinear_arith);
            }
            let one = sweep_part(
                part,
                ids,
                point_mapping,
                curve_mapping,
                connect_points,
                connect_curves,
                division,
                Ghost(es),
            );
            let ghost done = res@;
            res.push(one);
            proof {
                assert forall|k: int| 0 <= k < c + 1 implies is_component_ring_within(
                    members(s, rel, rs[k], s.len()),
                    #[trigger] res@[k],
                    d,
                    vrel,
                    crel,
                    prel,
                    srel,
                    start,
                    ids.issued(),
                ) by {
                    if k < c {
                        assert(res@[k] == done[k]);
                        assert(is_component_ring_within(
                            members(s, rel, rs[k], s.len()),
                            done[k],
                            d,
                            vrel,
                            crel,
                            prel,
                            srel,
                            start,
                            here,
                        ));
                        let base = choose|base: nat|
                            start <= base <= here && #[trigger] is_component_ring(
                                members(s, rel, rs[k], s.len()),
                                done[k],
                                d,
                                vrel,
                                crel,
                                prel,
                                srel,
                                base,
                            );
                        assert(is_component_ring(
                            members(s, rel, rs[k], s.len()),
                            res@[k],
                            d,
                            vrel,
                            crel,
                            prel,
                            srel,
                            base,
                        ));
                    } else {
                        assert(is_component_ring(
                            members(s, rel, rs[k], s.len()),
                            res@[k],
                            d,
                            vrel,
                            crel,
                            prel,
                            srel,
                            here,
                        ));
                    }
                }
            }
            c += 1;
        }
        res
    }
}

/// Where wire by wire the wires fit the tables, they fit them joined.
pub proof fn lemma_concat_fits<P, C, Q, D>(
    xb: Seq<Seq<EdgeModel<P, C>>>,
    yb: Seq<Seq<EdgeModel<Q, D>>>,
    t: Tables<Q, D>,
    n: nat,
)
    requires
        n <= xb.len(),
        n <= yb.len(),
        forall|w: int| 0 <= w < n ==> wire_fits(#[trigger] xb[w], yb[w], t),
    ensures
        wire_fits(concat(xb, n), concat(yb, n), t),
    decreases n,
{
    if n > 0 {
        lemma_concat_fits(xb, yb, t, (n - 1) as nat);
        let x0 = concat(xb, (n - 1) as nat);
        let y0 = concat(yb, (n - 1) as nat);
        assert(wire_fits(xb[n - 1], yb[n - 1], t));
        let x = concat(xb, n);
        let y = concat(yb, n);
        assert forall|k: int| 0 <= k < x.len() implies edge_fits(#[trigger] x[k], y[k], t) by {
            if k < x0.len() {
                assert(edge_fits(x0[k], y0[k], t));
            } else {
                let i = k - x0.len();
                assert(edge_fits(xb[n - 1][i], yb[n - 1][i], t));
            }
        }
    }
}

/// The edges of a copy of a shell, as its faces see them, are at each
/// place what the tables make of the edge of the shell at that place.
pub proof fn lemma_edges_fit<P, C, S, Q, D, T>(
    xs: Seq<FaceModel<P, C, S>>,
    ys: Seq<FaceModel<Q, D, T>>,
    t: Tables<Q, D>,
    srel: spec_fn(S, T) -> bool,
)
    requires
        shell_fits(xs, ys, t, srel),
    ensures
        wire_fits(faces_edges(xs), faces_edges(ys), t),
{
    assert forall|f: int| 0 <= f < xs.len() implies wire_fits(
        #[trigger] pieces(xs)[f],
        pieces(ys)[f],
        t,
    ) by {
        assert(face_fits(xs[f], ys[f], t, srel));
        let xb = xs[f].oriented_boundaries();
        let yb = ys[f].oriented_boundaries();
        assert forall|w: int| 0 <= w < xb.len() implies wire_fits(#[trigger] xb[w], yb[w], t) by {
            assert(wire_fits(xs[f].boundaries[w], ys[f].boundaries[w], t));
            if !xs[f].forward {
                lemma_fits_inverse(xs[f].boundaries[w], ys[f].boundaries[w], t);
            }
        }
        lemma_concat_fits(xb, yb, t, xb.len());
    }
    lemma_concat_fits(pieces(xs), pieces(ys), t, xs.len());
}

/// A component costs no more to copy than the shell, and handles of one
/// edge in it have the same ends if those in the shell have.
pub proof fn lemma_members_cost<P, C, S>(
    s: Seq<FaceModel<P, C, S>>,
    rel: spec_fn(int, int) -> bool,
    root: int,
    n: nat,
)
    requires
        n <= s.len(),
    ensures
        faces_cost(members(s, rel, root, n), members(s, rel, root, n).len()) <= faces_cost(s, n),
    decreases n,
{
    if n > 0 {
        lemma_members_cost(s, rel, root, (n - 1) as nat);
        let m0 = members(s, rel, root, (n - 1) as nat);
        if joined(rel, root, n - 1) {
            lemma_cost_prefix(m0.push(s[n - 1]), m0, m0.len());
        }
    }
}

/// The cost of the first faces depends on those faces alone.
pub proof fn lemma_cost_prefix<P, C, S>(
    a: Seq<FaceModel<P, C, S>>,
    b: Seq<FaceModel<P, C, S>>,
    n: nat,
)
    requires
        n <= a.len(),
        n <= b.len(),
        forall|i: int| 0 <= i < n ==> a[i] == b[i],
    ensures
        faces_cost(a, n) == faces_cost(b, n),
    decreases n,
{
    if n > 0 {
        lemma_cost_prefix(a, b, (n - 1) as nat);
    }
}

/// Handles of one edge in faces that are faces of a shell have the same
/// ends if those in the shell have.
pub proof fn lemma_part_coherent<P, C, S>(s: Seq<FaceModel<P, C, S>>, part: Seq<FaceModel<P, C, S>>)
    requires
        forall|i: int|
            0 <= i < part.len() ==> exists|j: int| 0 <= j < s.len() && #[trigger] s[j] == (
            #[trigger] part[i]),
        coherent(shell_scope(s)),
    ensures
        coherent(shell_scope(part)),
{
    let small = shell_scope(part);
    let wide = shell_scope(s);
    assert forall|x: EdgeModel<P, C>| #[trigger] small(x) implies wide(x) by {
        let (f, w, k) = choose|f: int, w: int, k: int|
            0 <= f < part.len() && 0 <= w < part[f].boundaries.len() && 0 <= k
                < part[f].boundaries[w].len() && #[trigger] part[f].boundaries[w][k] == x;
        let j = choose|j: int| 0 <= j < s.len() && #[trigger] s[j] == part[f];
        assert(s[j].boundaries[w][k] == x);
    }
    assert forall|x: EdgeModel<P, C>, y: EdgeModel<P, C>|
        #![trigger small(x), small(y)]
        small(x) && small(y) && x.id == y.id implies x.start.id == y.start.id && x.end.id
        == y.end.id by {
        assert(wide(x) && wide(y));
    }
}

/// The wires of a splitting cost three identities for each of their edges.
proof fn lemma_split_bands<P, C>(
    free: Seq<EdgeModel<P, C>>,
    wires: Seq<Seq<EdgeModel<P, C>>>,
    order: Seq<int>,
    cuts: Seq<int>,
    n: nat,
)
    requires
        split_ok(free, wires, order, cuts),
        n <= wires.len(),
    ensures
        wires_cost(wires, n) == 3 * cuts[n as int],
        0 <= cuts[n as int] <= free.len(),
    decreases n,
{
    if n > 0 {
        lemma_split_bands(free, wires, order, cuts, (n - 1) as nat);
        assert(0 <= cuts[n - 1] < cuts[n - 1 + 1] <= order.len());
        assert(wires[n - 1].len() == cuts[n - 1 + 1] - cuts[n - 1]);
    }
}

/// `b` is the edge of the copy `top` at a place at which `a` is the edge
/// of `part`.
pub open spec fn counterpart<P, C, S>(
    part: Seq<FaceModel<P, C, S>>,
    top: Seq<FaceModel<P, C, S>>,
    a: EdgeModel<P, C>,
    b: EdgeModel<P, C>,
) -> bool {
    exists|k: int|
        0 <= k < faces_edges(part).len() && k < faces_edges(top).len() && #[trigger] faces_edges(
            part,
        )[k] == a && faces_edges(top)[k] == b
}

/// `shell` is what becomes of a component when it is swept: its faces from
/// their other side, then band by band the faces between the wires of its
/// free boundary and their counterparts in the copy `top`, and at last the
/// faces of the copy.
pub open spec fn part_sweep_ok<P, C, S>(
    part: Seq<FaceModel<P, C, S>>,
    top: Seq<FaceModel<P, C, S>>,
    lower: Seq<Seq<EdgeModel<P, C>>>,
    upper: Seq<Seq<EdgeModel<P, C>>>,
    bands: Seq<Seq<FaceModel<P, C, S>>>,
    marks: Seq<nat>,
    shell: Seq<FaceModel<P, C, S>>,
    vrel: spec_fn(P, P) -> bool,
    crel: spec_fn(C, C) -> bool,
    frel: spec_fn(S, S) -> bool,
    prel: spec_fn(P, P, C) -> bool,
    srel: spec_fn(C, C, S) -> bool,
    base: nat,
) -> bool {
    &&& marks.len() == lower.len() + 1
    &&& is_shell_copy(part, top, vrel, crel, frel, base, marks[0])
    &&& is_split(free_edges(faces_edges(part), faces_edges(part).len()), lower)
    &&& upper.len() == lower.len()
    &&& bands.len() == lower.len()
    &&& forall|j: int| 0 <= j < lower.len() ==> (#[trigger] upper[j]).len() == lower[j].len()
    &&& forall|j: int, i: int|
        0 <= j < lower.len() && 0 <= i < lower[j].len() ==> counterpart(
            part,
            top,
            lower[j][i],
            #[trigger] upper[j][i],
        )
    &&& forall|j: int|
        0 <= j < lower.len() ==> is_band(
            lower[j],
            upper[j],
            #[trigger] bands[j],
            prel,
            srel,
            marks[j],
            marks[j + 1],
        )
    &&& shell == inverse_faces(part) + concat(bands, bands.len()) + top
}

/// `res` is what `Solid::try_new` answers to the one shell that becomes of
/// a component when it is swept, with identities from `base` on.
pub open spec fn is_part_sweep<P, C, S>(
    part: Seq<FaceModel<P, C, S>>,
    res: Result<Solid<P, C, S>, Error>,
    vrel: spec_fn(P, P) -> bool,
    crel: spec_fn(C, C) -> bool,
    frel: spec_fn(S, S) -> bool,
    prel: spec_fn(P, P, C) -> bool,
    srel: spec_fn(C, C, S) -> bool,
    base: nat,
) -> bool {
    exists|
        top: Seq<FaceModel<P, C, S>>,
        lower: Seq<Seq<EdgeModel<P, C>>>,
        upper: Seq<Seq<EdgeModel<P, C>>>,
        bands: Seq<Seq<FaceModel<P, C, S>>>,
        marks: Seq<nat>,
        shell: Seq<FaceModel<P, C, S>>,
    |
        #[trigger] part_sweep_ok(
            part,
            top,
            lower,
            upper,
            bands,
            marks,
            shell,
            vrel,
            crel,
            frel,
            prel,
            srel,
            base,
        ) && solid_of(res, seq![shell])
}

/// `res` is what becomes of a component when it is swept, with identities
/// from some number between `low` and `high` on.
pub open spec fn is_part_sweep_within<P, C, S>(
    part: Seq<FaceModel<P, C, S>>,
    res: Result<Solid<P, C, S>, Error>,
    vrel: spec_fn(P, P) -> bool,
    crel: spec_fn(C, C) -> bool,
    frel: spec_fn(S, S) -> bool,
    prel: spec_fn(P, P, C) -> bool,
    srel: spec_fn(C, C, S) -> bool,
    low: nat,
    high: nat,
) -> bool {
    exists|base: nat|
        low <= base <= high && #[trigger] is_part_sweep(
            part,
            res,
            vrel,
            crel,
            frel,
            prel,
            srel,
            base,
        )
}

/// Of two rows of edges with equally many places, the free edges of the
/// first and what is at their places in the second.
fn free_pairs<P, C>(e0: &Vec<Edge<P, C>>, e1: &Vec<Edge<P, C>>) -> (out: (
    Vec<Edge<P, C>>,
    Vec<Edge<P, C>>,
))
    requires
        e0@.len() == e1@.len(),
    ensures
        edge_views(out.0@) == free_edges(edge_views(e0@), e0@.len()),
        out.1@.len() == out.0@.len(),
        forall|i: int|
            0 <= i < out.0@.len() ==> exists|k: int|
                0 <= k < e0@.len() && #[trigger] edge_views(e0@)[k] == (#[trigger] out.0@[i])@
                    && edge_views(e1@)[k] == out.1@[i]@,
{
    let ghost x = edge_views(e0@);
    let ghost y = edge_views(e1@);
    let mut f0: Vec<Edge<P, C>> = Vec::new();
    let mut f1: Vec<Edge<P, C>> = Vec::new();
    let mut k: usize = 0;
    while k < e0.len()
        invariant
            k <= e0@.len(),
            e0@.len() == e1@.len(),
            x == edge_views(e0@),
            y == edge_views(e1@),
            edge_views(f0@) == free_edges(x, k as nat),
            f1@.len() == f0@.len(),
            forall|i: int|
                0 <= i < f0@.len() ==> exists|j: int|
                    0 <= j < e0@.len() && #[trigger] x[j] == (#[trigger] f0@[i])@ && y[j]
                        == f1@[i]@,
        decreases e0@.len() - k,
    {
        assert(x[k as int] == e0@[k as int]@);
        assert(y[k as int] == e1@[k as int]@);
        let ghost before = edge_views(f0@);
        let ghost d0 = f0@;
        let ghost d1 = f1@;
        if count_passes_of(e0, e0[k].id()) == 1 {
            f0.push(e0[k].clone());
            f1.push(e1[k].clone());
            proof {
                assert(edge_views(f0@) =~= before.push(x[k as int]));
                assert forall|i: int| 0 <= i < f0@.len() implies exists|j: int|
                    0 <= j < e0@.len() && #[trigger] x[j] == (#[trigger] f0@[i])@ && y[j]
                        == f1@[i]@ by {
                    if i < d0.len() {
                        assert(f0@[i] == d0[i]);
                        assert(f1@[i] == d1[i]);
                        let j = choose|j: int|
                            0 <= j < e0@.len() && #[trigger] x[j] == d0[i]@ && y[j] == d1[i]@;
                        assert(x[j] == f0@[i]@ && y[j] == f1@[i]@);
                    } else {
                        assert(x[k as int] == f0@[i]@ && y[k as int] == f1@[i]@);
                    }
                }
            }
        }
        k += 1;
    }
    (f0, f1)
}

/// Counts the handles of the edge `id` among the edges.
fn count_passes_of<P, C>(es: &Vec<Edge<P, C>>, id: u64) -> (n: usize)
    ensures
        n == passes(edge_views(es@), id, es@.len()),
{
    let mut n: usize = 0;
    let mut k: usize = 0;
    while k < es.len()
        invariant
            k <= es@.len(),
            n == passes(edge_views(es@), id, k as nat),
            n <= k,
        decreases es@.len() - k,
    {
        assert(edge_views(es@)[k as int] == es@[k as int]@);
        if es[k].id() == id {
            n += 1;
        }
        k += 1;
    }
    n
}

/// The wires of the edges of `row` at the places `places`.
fn wires_at<P, C>(
    places: &Vec<Vec<usize>>,
    row: &Vec<Edge<P, C>>,
    Ghost(lower): Ghost<Seq<Seq<EdgeModel<P, C>>>>,
    Ghost(free): Ghost<Seq<EdgeModel<P, C>>>,
    Ghost(t): Ghost<Tables<P, C>>,
) -> (out: Vec<Wire<P, C>>)
    requires
        picked_from(free, lower, places@),
        row@.len() == free.len(),
        forall|j: int| 0 <= j < lower.len() ==> is_chain(#[trigger] lower[j]),
        forall|k: int| 0 <= k < free.len() ==> edge_fits(#[trigger] free[k], row@[k]@, t),
    ensures
        out@.len() == lower.len(),
        forall|j: int| 0 <= j < lower.len() ==> wire_fits(#[trigger] lower[j], out@[j]@, t),
        forall|j: int, i: int|
            0 <= j < lower.len() && 0 <= i < lower[j].len() ==> (#[trigger] out@[j]@[i])
                == row@[places@[j]@[i] as int]@,
{
    let mut out: Vec<Wire<P, C>> = Vec::new();
    let mut j: usize = 0;
    while j < places.len()
        invariant
            j <= places@.len(),
            picked_from(free, lower, places@),
            row@.len() == free.len(),
            forall|j: int| 0 <= j < lower.len() ==> is_chain(#[trigger] lower[j]),
            forall|k: int| 0 <= k < free.len() ==> edge_fits(#[trigger] free[k], row@[k]@, t),
            out@.len() == j,
            forall|a: int| 0 <= a < j ==> wire_fits(#[trigger] lower[a], out@[a]@, t),
            forall|a: int, i: int|
                0 <= a < j && 0 <= i < lower[a].len() ==> (#[trigger] out@[a]@[i])
                    == row@[places@[a]@[i] as int]@,
        decreases places@.len() - j,
    {
        let picks = &places[j];
        let ghost w = lower[j as int];
        let mut edges: Vec<Edge<P, C>> = Vec::new();
        let mut i: usize = 0;
        while i < picks.len()
            invariant
                i <= picks@.len(),
                j < places@.len(),
                picks == places@[j as int],
                w == lower[j as int],
                picked_from(free, lower, places@),
                row@.len() == free.len(),
                forall|k: int| 0 <= k < free.len() ==> edge_fits(#[trigger] free[k], row@[k]@, t),
                edges@.len() == i,
                forall|a: int|
                    0 <= a < i ==> (#[trigger] edges@[a])@ == row@[picks@[a] as int]@ && edge_fits(
                        w[a],
                        edges@[a]@,
                        t,
                    ),
            decreases picks@.len() - i,
        {
            assert(places@[j as int]@[i as int] < free.len() && w[i as int] == free[picks@[i as int] as int]);
            edges.push(row[picks[i]].clone());
            i += 1;
        }
        proof {
            let ys = Seq::new(edges@.len(), |k: int| edges@[k]@);
            assert(is_chain(w));
            assert forall|a: int| 0 <= a < ys.len() - 1 implies (#[trigger] ys[a]).back().id == ys[a
                + 1].front().id by {
                assert(edge_fits(w[a], edges@[a]@, t));
                assert(edge_fits(w[a + 1], edges@[a + 1]@, t));
                assert(w[a].back().id == w[a + 1].front().id);
            }
        }
        let wire = Wire::from_chain(edges);
        let ghost done = out@;
        out.push(wire);
        proof {
            assert forall|a: int| 0 <= a < j + 1 implies wire_fits(#[trigger] lower[a], out@[a]@, t) by {
                if a < j {
                    assert(out@[a] == done[a]);
                } else {
                    assert forall|k: int| 0 <= k < w.len() implies edge_fits(
                        #[trigger] w[k],
                        out@[a]@[k],
                        t,
                    ) by {
                        assert(out@[a]@[k] == edges@[k]@);
                    }
                }
            }
            assert forall|a: int, i: int|
                0 <= a < j + 1 && 0 <= i < lower[a].len() implies (#[trigger] out@[a]@[i])
                == row@[places@[a]@[i] as int]@ by {
                if a < j {
                    assert(out@[a] == done[a]);
                } else {
                    assert(out@[a]@[i] == edges@[i]@);
                }
            }
        }
        j += 1;
    }
    out
}

/// Tables under which a copy of a shell fits the shell, edge by edge as
/// the faces see them.
proof fn lemma_lift_ready<P, C, S>(
    part: Seq<FaceModel<P, C, S>>,
    top: Seq<FaceModel<P, C, S>>,
    vrel: spec_fn(P, P) -> bool,
    crel: spec_fn(C, C) -> bool,
    frel: spec_fn(S, S) -> bool,
    base: nat,
    mid: nat,
) -> (t: Tables<P, C>)
    requires
        is_shell_copy(part, top, vrel, crel, frel, base, mid),
    ensures
        wire_fits(faces_edges(part), faces_edges(top), t),
        crate::mapping::one_to_one(t),
        forall|id: u64| #[trigger] t.vertex.contains_key(id) ==> base <= t.vertex[id].id < mid,
{
    let t = choose|t: Tables<P, C>| #[trigger]
        shell_fits(part, top, t, frel) && tables_ok(t, shell_scope(part), vrel, crel, base, mid);
    lemma_edges_fit(part, top, t, frel);
    t
}

/// What is needed to put bands between the wires of the free boundary of a
/// component and their counterparts in a copy.
proof fn lemma_lift_bands<P, C, S>(
    part: Seq<FaceModel<P, C, S>>,
    top: Seq<FaceModel<P, C, S>>,
    es: Seq<EdgeModel<P, C>>,
    f0: Seq<EdgeModel<P, C>>,
    f1: Seq<EdgeModel<P, C>>,
    lower: Seq<Seq<EdgeModel<P, C>>>,
    upper: Seq<Seq<EdgeModel<P, C>>>,
    places: Seq<Vec<usize>>,
    t: Tables<P, C>,
    base: nat,
    mid: nat,
)
    requires
        f0 == free_edges(faces_edges(part), faces_edges(part).len()),
        f1.len() == f0.len(),
        forall|i: int|
            0 <= i < f0.len() ==> exists|k: int|
                0 <= k < faces_edges(part).len() && k < faces_edges(top).len()
                    && #[trigger] faces_edges(part)[k] == (#[trigger] f0[i]) && faces_edges(top)[k]
                    == f1[i],
        is_split(f0, lower),
        picked_from(f0, lower, places),
        upper.len() == lower.len(),
        forall|j: int| 0 <= j < lower.len() ==> wire_fits(#[trigger] lower[j], upper[j], t),
        forall|j: int, i: int|
            0 <= j < lower.len() && 0 <= i < lower[j].len() ==> (#[trigger] upper[j][i])
                == f1[places[j]@[i] as int],
        forall|k: int|
            0 <= k < faces_edges(part).len() ==> wire_scope(es)(#[trigger] faces_edges(part)[k]),
        coherent(wire_scope(es)),
        crate::mapping::one_to_one(t),
        forall|id: u64| #[trigger] t.vertex.contains_key(id) ==> base <= t.vertex[id].id < mid,
    ensures
        bands_ready(lower, upper, t, base, mid),
        wires_cost(lower, lower.len()) <= 3 * faces_edges(part).len(),
        forall|j: int| 0 <= j < lower.len() ==> (#[trigger] upper[j]).len() == lower[j].len(),
        forall|j: int, i: int|
            0 <= j < lower.len() && 0 <= i < lower[j].len() ==> counterpart(
                part,
                top,
                lower[j][i],
                #[trigger] upper[j][i],
            ),
{
    let all = faces_edges(part);
    lemma_free(all, all.len());
    let (order, cuts) = choose|order: Seq<int>, cuts: Seq<int>| #[trigger]
        split_ok(f0, lower, order, cuts);
    lemma_split_bands(f0, lower, order, cuts, lower.len());
    assert forall|j: int, i: int| 0 <= j < lower.len() && 0 <= i < lower[j].len() implies counterpart(
        part,
        top,
        lower[j][i],
        #[trigger] upper[j][i],
    ) by {
        let p = places[j]@[i] as int;
        assert(lower[j][i] == f0[p]);
        let k = choose|k: int|
            0 <= k < faces_edges(part).len() && k < faces_edges(top).len()
                && #[trigger] faces_edges(part)[k] == f0[p] && faces_edges(top)[k] == f1[p];
        assert(faces_edges(part)[k] == lower[j][i] && faces_edges(top)[k] == upper[j][i]);
    }
    assert forall|j: int| 0 <= j < lower.len() implies (#[trigger] upper[j]).len()
        == lower[j].len() by {
        assert(wire_fits(lower[j], upper[j], t));
    }
    reveal(bands_ready);
}

/// Sweeps one component.
#[verifier::rlimit(100)]
#[verifier::spinoff_prover]
fn lift_part<
    P,
    C,
    S,
    FP: Fn(&P) -> P,
    FC: Fn(&C) -> C,
    FS: Fn(&S) -> S,
    CP: Fn(&P, &P) -> C,
    CE: Fn(&C, &C) -> S,
>(
    part: &Shell<P, C, S>,
    ids: &mut IdSource,
    point_mapping: &FP,
    curve_mapping: &FC,
    surface_mapping: &FS,
    connect_points: &CP,
    connect_curves: &CE,
    Ghost(es): Ghost<Seq<EdgeModel<P, C>>>,
) -> (res: Result<Solid<P, C, S>, Error>)
    requires
        coherent(shell_scope(part@)),
        forall|k: int|
            0 <= k < faces_edges(part@).len() ==> wire_scope(es)(#[trigger] faces_edges(part@)[k]),
        coherent(wire_scope(es)),
        forall|p: P| point_mapping.requires((&p,)),
        forall|c: C| curve_mapping.requires((&c,)),
        forall|s: S| surface_mapping.requires((&s,)),
        forall|a: P, b: P| connect_points.requires((&a, &b)),
        forall|c: C, d: C| connect_curves.requires((&c, &d)),
        old(ids).remaining() >= faces_cost(part@, part@.len()) + 3 * faces_edges(part@).len(),
    ensures
        old(ids).issued() <= final(ids).issued() <= old(ids).issued() + faces_cost(
            part@,
            part@.len(),
        ) + 3 * faces_edges(part@).len(),
        is_part_sweep(
            part@,
            res,
            |p: P, q: P| point_mapping.ensures((&p,), q),
            |c: C, d: C| curve_mapping.ensures((&c,), d),
            |s: S, u: S| surface_mapping.ensures((&s,), u),
            |a: P, b: P, c: C| connect_points.ensures((&a, &b), c),
            |c: C, d: C, s: S| connect_curves.ensures((&c, &d), s),
            old(ids).issued(),
        ),
{
    let ghost vrel = |p: P, q: P| point_mapping.ensures((&p,), q);
    let ghost crel = |c: C, d: C| curve_mapping.ensures((&c,), d);
    let ghost frel = |s: S, u: S| surface_mapping.ensures((&s,), u);
    let ghost prel = |a: P, b: P, c: C| connect_points.ensures((&a, &b), c);
    let ghost srel = |c: C, d: C, s: S| connect_curves.ensures((&c, &d), s);
    let ghost base = ids.issued();
    let ghost x = part@;
    let ceiling = part.mapped(ids, point_mapping, curve_mapping, surface_mapping);
    let ghost mid = ids.issued();
    let ghost y = ceiling@;
    assert(is_shell_copy(x, y, vrel, crel, frel, base, mid));
    let ghost t = lemma_lift_ready(x, y, vrel, crel, frel, base, mid);
    let e0 = part.edge_iter();
    let e1 = ceiling.edge_iter();
    let (f0, f1) = free_pairs(&e0, &e1);
    let (wires0, places) = chain_with_places(&f0);
    let ghost lower = views(wires0@);
    proof {
        assert forall|k: int| 0 <= k < edge_views(f0@).len() implies edge_fits(
            #[trigger] edge_views(f0@)[k],
            f1@[k]@,
            t,
        ) by {
            let j = choose|j: int|
                0 <= j < e0@.len() && #[trigger] edge_views(e0@)[j] == f0@[k]@ && edge_views(
                    e1@,
                )[j] == f1@[k]@;
            assert(edge_fits(faces_edges(x)[j], faces_edges(y)[j], t));
        }
    }
    let wires1 = wires_at(&places, &f1, Ghost(lower), Ghost(edge_views(f0@)), Ghost(t));
    let ghost upper = views(wires1@);
    proof {
        assert forall|j: int| 0 <= j < lower.len() implies wire_fits(
            #[trigger] lower[j],
            upper[j],
            t,
        ) by {
            assert(upper[j] == wires1@[j]@);
        }
        assert forall|j: int, i: int|
            0 <= j < lower.len() && 0 <= i < lower[j].len() implies (#[trigger] upper[j][i])
            == edge_views(f1@)[places@[j]@[i] as int] by {
            assert(upper[j] == wires1@[j]@);
            assert(wire_fits(lower[j], wires1@[j]@, t));
        }
        assert forall|i: int| 0 <= i < edge_views(f0@).len() implies exists|k: int|
            0 <= k < faces_edges(x).len() && k < faces_edges(y).len() && #[trigger] faces_edges(
                x,
            )[k] == (#[trigger] edge_views(f0@)[i]) && faces_edges(y)[k] == edge_views(f1@)[i] by {
            let j = choose|j: int|
                0 <= j < e0@.len() && #[trigger] edge_views(e0@)[j] == f0@[i]@ && edge_views(
                    e1@,
                )[j] == f1@[i]@;
            assert(faces_edges(x)[j] == edge_views(f0@)[i] && faces_edges(y)[j] == edge_views(
                f1@,
            )[i]);
        }
        lemma_lift_bands(
            x,
            y,
            es,
            edge_views(f0@),
            edge_views(f1@),
            lower,
            upper,
            places@,
            t,
            base,
            mid,
        );
        assert(wire_views(wires0@) =~= lower);
        assert(wire_views(wires1@) =~= upper);
    }
    let (bands_shell, Ghost(bands), Ghost(marks)) = bands_between(
        ids,
        &wires0,
        &wires1,
        connect_points,
        connect_curves,
        Ghost(t),
        Ghost(base),
        Ghost(mid),
    );
    let mut shell = part.clone();
    shell.invert_faces();
    shell.extend(bands_shell);
    shell.extend(ceiling);
    let ghost whole = shell@;
    proof {
        assert(whole =~= inverse_faces(x) + concat(bands, bands.len()) + y);
        assert(part_sweep_ok(
            x,
            y,
            lower,
            upper,
            bands,
            marks,
            whole,
            vrel,
            crel,
            frel,
            prel,
            srel,
            base,
        ));
    }
    let mut shells: Vec<Shell<P, C, S>> = Vec::new();
    shells.push(shell);
    assert(shell_views(shells@) =~= seq![whole]);
    let res = Solid::try_new(shells);
    proof {
        assert(solid_of(res, seq![whole]));
    }
    res
}

impl<P, C, S> Shell<P, C, S> {
    /// The solids that the shell sweeps, one for each of its components,
    /// in their order: the shell of the faces of the component from their
    /// other side, the bands between the wires of its free boundary and
    /// their counterparts in a copy of the component, and the faces of the
    /// copy, if the shell can bound a solid. Otherwise its fault.
    pub fn sweep<
        FP: Fn(&P) -> P,
        FC: Fn(&C) -> C,
        FS: Fn(&S) -> S,
        CP: Fn(&P, &P) -> C,
        CE: Fn(&C, &C) -> S,
    >(
        &self,
        ids: &mut IdSource,
        point_mapping: &FP,
        curve_mapping: &FC,
        surface_mapping: &FS,
        connect_points: &CP,
        connect_curves: &CE,
    ) -> (res: Vec<Result<Solid<P, C, S>, Error>>)
        requires
            coherent(shell_scope(self@)),
            coherent(wire_scope(faces_edges(self@))),
            forall|p: P| point_mapping.requires((&p,)),
            forall|c: C| curve_mapping.requires((&c,)),
            forall|s: S| surface_mapping.requires((&s,)),
            forall|a: P, b: P| connect_points.requires((&a, &b)),
            forall|c: C, d: C| connect_curves.requires((&c, &d)),
            old(ids).remaining() >= (faces_cost(self@, self@.len()) + 3 * faces_edges(self@).len())
                * self@.len(),
        ensures
            old(ids).issued() <= final(ids).issued(),
            res@.len() == roots(face_rel(uses_of(self@)), self@.len()).len(),
            forall|c: int|
                0 <= c < res@.len() ==> is_part_sweep_within(
                    members(
                        self@,
                        face_rel(uses_of(self@)),
                        roots(face_rel(uses_of(self@)), self@.len())[c],
                        self@.len(),
                    ),
                    #[trigger] res@[c],
                    |p: P, q: P| point_mapping.ensures((&p,), q),
                    |c: C, d: C| curve_mapping.ensures((&c,), d),
                    |s: S, u: S| surface_mapping.ensures((&s,), u),
                    |a: P, b: P, c: C| connect_points.ensures((&a, &b), c),
                    |c: C, d: C, s: S| connect_curves.ensures((&c, &d), s),
                    old(ids).issued(),
                    final(ids).issued(),
                ),
    {
        let ghost vrel = |p: P, q: P| point_mapping.ensures((&p,), q);
        let ghost crel = |c: C, d: C| curve_mapping.ensures((&c,), d);
        let ghost frel = |s: S, u: S| surface_mapping.ensures((&s,), u);
        let ghost prel = |a: P, b: P, c: C| connect_points.ensures((&a, &b), c);
        let ghost srel = |c: C, d: C, s: S| connect_curves.ensures((&c, &d), s);
        let ghost start = ids.issued();
        let ghost s = self@;
        let ghost rel = face_rel(uses_of(s));
        let ghost es = faces_edges(s);
        let ghost rs = roots(rel, s.len());
        let parts = self.connected_components();
        let n = parts.len();
        let ghost each = faces_cost(s, s.len()) + 3 * es.len();
        proof {
            lemma_roots(rel, s.len());
            assert(each * n <= each * s.len()) by (nonlinear_arith)
                requires
                    each >= 0,
                    n <= s.len(),
            ;
        }
        let mut res: Vec<Result<Solid<P, C, S>, Error>> = Vec::new();
        let mut c: usize = 0;
        while c < n
            invariant
                s == self@,
                rel == face_rel(uses_of(s)),
                es == faces_edges(s),
                rs == roots(rel, s.len()),
                n == parts@.len(),
                n == rs.len(),
                c <= n,
                forall|c: int| 0 <= c < n ==> (#[trigger] parts@[c])@ == members(s, rel, rs[c], s.len()),
                start == old(ids).issued(),
                each == faces_cost(s, s.len()) + 3 * es.len(),
                old(ids).remaining() >= each * n,
                start <= ids.issued() <= start + each * c,
                coherent(shell_scope(s)),
                coherent(wire_scope(es)),
                forall|p: P| point_mapping.requires((&p,)),
                forall|c: C| curve_mapping.requires((&c,)),
                forall|s: S| surface_mapping.requires((&s,)),
                forall|a: P, b: P| connect_points.requires((&a, &b)),
                forall|c: C, d: C| connect_curves.requires((&c, &d)),
                vrel == (|p: P, q: P| point_mapping.ensures((&p,), q)),
                crel == (|c: C, d: C| curve_mapping.ensures((&c,), d)),
                frel == (|s: S, u: S| surface_mapping.ensures((&s,), u)),
                prel == (|a: P, b: P, c: C| connect_points.ensures((&a, &b), c)),
                srel == (|c: C, d: C, s: S| connect_curves.ensures((&c, &d), s)),
                res@.len() == c,
                forall|k: int|
                    0 <= k < c ==> is_part_sweep_within(
                        members(s, rel, rs[k], s.len()),
                        #[trigger] res@[k],
                        vrel,
                        crel,
                        frel,
                        prel,
                        srel,
                        start,
                        ids.issued(),
                    ),
            decreases n - c,
        {
            let part = &parts[c];
            let ghost here = ids.issued();
            proof {
                lemma_members(s, rel, rs[c as int], s.len());
                lemma_members_cost(s, rel, rs[c as int], s.len());
                lemma_part_edges(s, part@);
                lemma_part_coherent(s, part@);
                assert(concat(pieces(s), s.len()) == es);
                assert(each * c + each <= each * n) by (nonlinear_arith)
                    requires
                        c + 1 <= n,
                        each >= 0,
                ;
                assert(each * (c + 1) == each * c + each) by (nonlinear_arith);
            }
            let one = lift_part(
                part,
                ids,
                point_mapping,
                curve_mapping,
                surface_mapping,
                connect_points,
                connect_curves,
                Ghost(es),
            );
            let ghost done = res@;
            res.push(one);
            proof {
                assert forall|k: int| 0 <= k < c + 1 implies is_part_sweep_within(
                    members(s, rel, rs[k], s.len()),
                    #[trigger] res@[k],
                    vrel,
                    crel,
                    frel,
                    prel,
                    srel,
                    start,
                    ids.issued(),
                ) by {
                    if k < c {
                        assert(res@[k] == done[k]);
                        assert(is_part_sweep_within(
                            members(s, rel, rs[k], s.len()),
                            done[k],
                            vrel,
                            crel,
                            frel,
                            prel,
                            srel,
                            start,
                            here,
                        ));
                        let base = choose|base: nat|
                            start <= base <= here && #[trigger] is_part_sweep(
                                members(s, rel, rs[k], s.len()),
                                done[k],
                                vrel,
                                crel,
                                frel,
                                prel,
                                srel,
                                base,
                            );
                        assert(is_part_sweep(
                            members(s, rel, rs[k], s.len()),
                            res@[k],
                            vrel,
                            crel,
                            frel,
                            prel,
                            srel,
                            base,
                        ));
                    } else {
                        assert(is_part_sweep(
                            members(s, rel, rs[k], s.len()),
                            res@[k],
                            vrel,
                            crel,
                            frel,
                            prel,
                            srel,
                            here,
                        ));
                    }
                }
            }
            c += 1;
        }
        res
    }
}

} // verus!
