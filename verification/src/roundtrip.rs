//! Cutting an edge at a new vertex and then removing the vertex again
//! gives back the shape, but for the name of the edge.
use vstd::prelude::*;
use crate::edge::EdgeModel;
use crate::face::FaceModel;
use crate::face::{all_loops, is_loop};
use crate::mapping::{coherent, shell_scope, solid_scope};
use crate::likeness::{alike_turned, lemma_turned_fate};
use crate::shell::{faces_uses, next_in, uses_of, wire_uses, wires_uses, Use};
use crate::shell::Shell;
use crate::solid::{all_boundaries, is_boundary, shell_views, Solid};
use crate::surgery::{
    corner_in, cut_outcome, cut_pair, faces_cut, faces_fused, fuse_fits, fuse_from, fuse_outcome,
    fuse_stopped, fused_pair, is_corner_pair, is_cut, is_fusion, rid_of, seam_turned, shells_cut,
    shells_fused, solid_corner, solid_cut_fits, solid_cut_outcome, solid_fuse_fits,
    solid_fuse_outcome, solid_fuse_stopped, solid_fuse_unfit, wire_cut, wire_fused, wires_cut,
    wires_fused,
};
use crate::wire::{is_chain, is_closed, is_simple};
use crate::vertex::VertexModel;

verus! {

/// The handle `x`, or, if it is a handle of the edge `id`, a handle of the
/// edge `m` in its place: in the direction of `x`, or, with `flip`, in the
/// other.
pub open spec fn swapped<P, C>(x: EdgeModel<P, C>, id: u64, m: EdgeModel<P, C>, flip: bool) -> EdgeModel<
    P,
    C,
> {
    if x.id == id {
        EdgeModel { forward: x.forward != flip, ..m }
    } else {
        x
    }
}

/// The first `n` edges of the wire, with `m` in the place of the edge `id`.
pub open spec fn wire_swapped<P, C>(
    w: Seq<EdgeModel<P, C>>,
    id: u64,
    m: EdgeModel<P, C>,
    flip: bool,
    n: nat,
) -> Seq<EdgeModel<P, C>> {
    Seq::new(n, |k: int| swapped(w[k], id, m, flip))
}

/// The faces, with `m` in the place of the edge `id` in their boundaries.
pub open spec fn faces_swapped<P, C, S>(
    s: Seq<FaceModel<P, C, S>>,
    id: u64,
    m: EdgeModel<P, C>,
    flip: bool,
) -> Seq<FaceModel<P, C, S>> {
    Seq::new(
        s.len(),
        |f: int|
            FaceModel {
                boundaries: Seq::new(
                    s[f].boundaries.len(),
                    |w: int| wire_swapped(s[f].boundaries[w], id, m, flip, s[f].boundaries[w].len()),
                ),
                ..s[f]
            },
    )
}

/// What is asked of a cut for the way back: the vertex `v` is no end of an
/// edge of the wire, and the halves are no edges of it, are two edges, and
/// join the ends of the edge to `v`.
pub open spec fn clean_cut<P, C>(
    w: Seq<EdgeModel<P, C>>,
    id: u64,
    e0: EdgeModel<P, C>,
    e1: EdgeModel<P, C>,
    v: u64,
) -> bool {
    &&& forall|k: int|
        0 <= k < w.len() ==> (#[trigger] w[k]).start.id != v && w[k].end.id != v && w[k].id != e0.id
            && w[k].id != e1.id
    &&& e0.id != e1.id
    &&& e0.id != id
    &&& e1.id != id
    &&& e0.forward
    &&& e1.forward
    &&& e0.end.id == v
    &&& e1.start.id == v
    &&& e0.start.id != v
    &&& e1.end.id != v
}

/// The two edges along which the vertex is removed are the halves, in one
/// order or the other.
pub open spec fn pair_of_halves<P, C>(p: u64, q: u64, e0: EdgeModel<P, C>, e1: EdgeModel<P, C>) -> bool {
    (p == e0.id && q == e1.id) || (p == e1.id && q == e0.id)
}

/// After the cut a wire does not end at the new vertex, and wherever it
/// reaches the new vertex it does so along one half and goes on along the
/// other.
proof fn lemma_cut_shape<P, C>(
    w: Seq<EdgeModel<P, C>>,
    id: u64,
    e0: EdgeModel<P, C>,
    e1: EdgeModel<P, C>,
    v: u64,
    n: nat,
)
    requires
        n <= w.len(),
        clean_cut(w, id, e0, e1, v),
    ensures
        n > 0 ==> wire_cut(w, id, e0, e1, n).len() > 0 && wire_cut(w, id, e0, e1, n)[wire_cut(
            w,
            id,
            e0,
            e1,
            n,
        ).len() - 1].back().id != v,
        n > 0 ==> wire_cut(w, id, e0, e1, n)[0].front().id != v,
        forall|k: int|
            0 <= k < wire_cut(w, id, e0, e1, n).len() && (#[trigger] wire_cut(
                w,
                id,
                e0,
                e1,
                n,
            )[k]).back().id == v ==> k + 1 < wire_cut(w, id, e0, e1, n).len() && ((wire_cut(
                w,
                id,
                e0,
                e1,
                n,
            )[k] == e0 && wire_cut(w, id, e0, e1, n)[k + 1] == e1) || (wire_cut(w, id, e0, e1, n)[k]
                == e1.inverse() && wire_cut(w, id, e0, e1, n)[k + 1] == e0.inverse())),
    decreases n,
{
    if n > 0 {
        lemma_cut_shape(w, id, e0, e1, v, (n - 1) as nat);
        let c0 = wire_cut(w, id, e0, e1, (n - 1) as nat);
        let c = wire_cut(w, id, e0, e1, n);
        let x = w[n - 1];
        assert(x.start.id != v && x.end.id != v);
        if x.id == id {
            let pair = cut_pair(x, e0, e1);
            assert(c == c0 + pair);
            assert(pair.len() == 2);
            assert(c[c0.len() as int] == pair[0]);
            assert(c[c0.len() as int + 1] == pair[1]);
        } else {
            assert(c == c0.push(x));
        }
        assert forall|k: int| 0 <= k < c.len() && (#[trigger] c[k]).back().id == v implies k + 1
            < c.len() && ((c[k] == e0 && c[k + 1] == e1) || (c[k] == e1.inverse() && c[k + 1]
            == e0.inverse())) by {
            if k < c0.len() {
                assert(c[k] == c0[k]);
                assert(c0[k].back().id == v);
                assert(c[k + 1] == c0[k + 1]);
            }
        }
        if n > 1 {
            assert(c[0] == c0[0]);
        }
    }
}

/// Removing the vertex from the end of a wire on is removing it from the
/// end on.
proof fn lemma_fuse_shift<P, C>(
    a: Seq<EdgeModel<P, C>>,
    b: Seq<EdgeModel<P, C>>,
    v: u64,
    p: u64,
    q: u64,
    n: EdgeModel<P, C>,
    j: int,
)
    requires
        0 <= j <= b.len(),
    ensures
        fuse_from(a + b, v, p, q, n, a.len() + j) == fuse_from(b, v, p, q, n, j),
    decreases b.len() - j,
{
    let c = a + b;
    let i = a.len() + j;
    if j < b.len() {
        assert(c[i] == b[j]);
        if j + 1 < b.len() {
            assert(c[i + 1] == b[j + 1]);
        }
        if j + 1 < b.len() && is_corner_pair(b[j], b[j + 1], v, p, q) {
            lemma_fuse_shift(a, b, v, p, q, n, j + 2);
        } else {
            lemma_fuse_shift(a, b, v, p, q, n, j + 1);
        }
    }
}

/// Where no passage through the vertex lies over the seam of two wires,
/// removing the vertex from the two joined is removing it from each.
proof fn lemma_fuse_concat<P, C>(
    a: Seq<EdgeModel<P, C>>,
    b: Seq<EdgeModel<P, C>>,
    v: u64,
    p: u64,
    q: u64,
    n: EdgeModel<P, C>,
    i: int,
)
    requires
        0 <= i <= a.len(),
        a.len() > 0 && b.len() > 0 ==> !is_corner_pair(a[a.len() - 1], b[0], v, p, q),
    ensures
        fuse_from(a + b, v, p, q, n, i) == fuse_from(a, v, p, q, n, i) + fuse_from(b, v, p, q, n, 0),
    decreases a.len() - i,
{
    let c = a + b;
    if i == a.len() {
        lemma_fuse_shift(a, b, v, p, q, n, 0);
        assert(fuse_from(a, v, p, q, n, i) =~= Seq::<EdgeModel<P, C>>::empty());
        assert(fuse_from(c, v, p, q, n, i) =~= fuse_from(a, v, p, q, n, i) + fuse_from(
            b,
            v,
            p,
            q,
            n,
            0,
        ));
    } else {
        assert(c[i] == a[i]);
        if i + 1 < a.len() {
            assert(c[i + 1] == a[i + 1]);
            if is_corner_pair(a[i], a[i + 1], v, p, q) {
                lemma_fuse_concat(a, b, v, p, q, n, i + 2);
                assert(fuse_from(c, v, p, q, n, i) =~= fuse_from(a, v, p, q, n, i) + fuse_from(
                    b,
                    v,
                    p,
                    q,
                    n,
                    0,
                ));
            } else {
                lemma_fuse_concat(a, b, v, p, q, n, i + 1);
                assert(fuse_from(c, v, p, q, n, i) =~= fuse_from(a, v, p, q, n, i) + fuse_from(
                    b,
                    v,
                    p,
                    q,
                    n,
                    0,
                ));
            }
        } else {
            // The last edge of the first wire.
            if b.len() > 0 {
                assert(c[i + 1] == b[0]);
            }
            lemma_fuse_concat(a, b, v, p, q, n, i + 1);
            assert(fuse_from(a, v, p, q, n, i) =~= seq![a[i]] + fuse_from(a, v, p, q, n, i + 1));
            assert(fuse_from(c, v, p, q, n, i) =~= fuse_from(a, v, p, q, n, i) + fuse_from(
                b,
                v,
                p,
                q,
                n,
                0,
            ));
        }
    }
}

/// Cutting the edge in a wire and then removing the vertex along the
/// halves puts one edge in the place of the edge.
proof fn lemma_cut_then_fuse<P, C>(
    w: Seq<EdgeModel<P, C>>,
    id: u64,
    e0: EdgeModel<P, C>,
    e1: EdgeModel<P, C>,
    v: u64,
    p: u64,
    q: u64,
    m: EdgeModel<P, C>,
    n: nat,
)
    requires
        n <= w.len(),
        clean_cut(w, id, e0, e1, v),
        pair_of_halves(p, q, e0, e1),
        m.forward,
    ensures
        fuse_from(wire_cut(w, id, e0, e1, n), v, p, q, m, 0) == wire_swapped(
            w,
            id,
            m,
            p != e0.id,
            n,
        ),
    decreases n,
{
    let flip = p != e0.id;
    if n == 0 {
        assert(fuse_from(wire_cut(w, id, e0, e1, 0), v, p, q, m, 0) =~= wire_swapped(
            w,
            id,
            m,
            flip,
            0,
        ));
    } else {
        lemma_cut_then_fuse(w, id, e0, e1, v, p, q, m, (n - 1) as nat);
        lemma_cut_shape(w, id, e0, e1, v, (n - 1) as nat);
        let c0 = wire_cut(w, id, e0, e1, (n - 1) as nat);
        let x = w[n - 1];
        assert(x.start.id != v && x.end.id != v && x.id != e0.id && x.id != e1.id);
        let piece = if x.id == id {
            cut_pair(x, e0, e1)
        } else {
            seq![x]
        };
        assert(wire_cut(w, id, e0, e1, n) =~= c0 + piece);
        if c0.len() > 0 {
            assert(c0[c0.len() - 1].back().id != v);
        }
        lemma_fuse_concat(c0, piece, v, p, q, m, 0);
        if x.id == id {
            assert(piece.len() == 2);
            assert(is_corner_pair(piece[0], piece[1], v, p, q));
            assert(fuse_from(piece, v, p, q, m, 2) =~= Seq::<EdgeModel<P, C>>::empty());
            assert(fuse_from(piece, v, p, q, m, 0) =~= seq![fused_pair(piece[0], p, m)]);
            assert(fused_pair(piece[0], p, m) == swapped(x, id, m, flip));
        } else {
            assert(fuse_from(piece, v, p, q, m, 1) =~= Seq::<EdgeModel<P, C>>::empty());
            assert(fuse_from(piece, v, p, q, m, 0) =~= seq![x]);
        }
        assert(wire_swapped(w, id, m, flip, n) =~= wire_swapped(w, id, m, flip, (n - 1) as nat).push(
            swapped(x, id, m, flip),
        ));
    }
}

/// After the cut no passage through the new vertex lies over the seam of
/// a wire.
proof fn lemma_cut_seam<P, C>(
    w: Seq<EdgeModel<P, C>>,
    id: u64,
    e0: EdgeModel<P, C>,
    e1: EdgeModel<P, C>,
    v: u64,
    p: u64,
    q: u64,
)
    requires
        clean_cut(w, id, e0, e1, v),
    ensures
        seam_turned(wire_cut(w, id, e0, e1, w.len()), v, p, q) == wire_cut(w, id, e0, e1, w.len()),
{
    lemma_cut_shape(w, id, e0, e1, v, w.len());
}

/// `after` is `before` with the edge `m` in the place of the edge `id`:
/// `m` has the identity `name` and runs between the ends of the handle `x`
/// of the edge, from its start to its end, or, with `flip`, the other way
/// with every handle turned over.
pub open spec fn restored_by<P, C, S>(
    before: Seq<FaceModel<P, C, S>>,
    after: Seq<FaceModel<P, C, S>>,
    id: u64,
    name: nat,
    x: EdgeModel<P, C>,
    m: EdgeModel<P, C>,
    flip: bool,
) -> bool {
    &&& shell_scope(before)(x)
    &&& x.id == id
    &&& m.forward
    &&& m.id as nat == name
    &&& m.start == if flip {
        x.end
    } else {
        x.start
    }
    &&& m.end == if flip {
        x.start
    } else {
        x.end
    }
    &&& faces_swapped(before, id, m, flip) == after
}

/// `after` is `before` with a new edge in the place of the edge `id`: an
/// edge with the identity `name` between the ends of a handle of the edge.
pub open spec fn is_restored<P, C, S>(
    before: Seq<FaceModel<P, C, S>>,
    after: Seq<FaceModel<P, C, S>>,
    id: u64,
    name: nat,
) -> bool {
    exists|x: EdgeModel<P, C>, m: EdgeModel<P, C>, flip: bool| #[trigger]
        restored_by(before, after, id, name, x, m, flip)
}

/// No edge of the faces starts or ends at the vertex `v`, and none has an
/// identity from `bound` on.
pub open spec fn apart_from<P, C, S>(s: Seq<FaceModel<P, C, S>>, v: u64, bound: nat) -> bool {
    forall|x: EdgeModel<P, C>| #[trigger]
        shell_scope(s)(x) ==> x.start.id != v && x.end.id != v && x.id < bound
}

/// Cutting an edge at a vertex that the shell does not have, and then
/// removing the vertex by making one edge of the two, gives back the shell
/// with a new edge in the place of the edge that was cut: every face has
/// the boundaries it had, wire by wire and edge by edge, and where the edge
/// was passed the new edge is passed, between the same two vertices.
pub proof fn law_cut_then_concat<
    P,
    C,
    S,
    F: Fn(&C, &P) -> Option<(C, C)>,
    G: Fn(&C, bool, &C, bool) -> Option<C>,
>(
    cut: F,
    concat: G,
    s0: Seq<FaceModel<P, C, S>>,
    s1: Seq<FaceModel<P, C, S>>,
    s2: Seq<FaceModel<P, C, S>>,
    id: u64,
    v: VertexModel<P>,
    first: nat,
    second: nat,
)
    requires
        cut_outcome(cut, s0, s1, id, v, first, true),
        fuse_outcome(concat, s1, s2, v.id, second, true),
        apart_from(s0, v.id, first),
        first + 1 <= u64::MAX,
    ensures
        is_restored(s0, s2, id, second),
{
    let (x, e0, e1) = choose|x: EdgeModel<P, C>, e0: EdgeModel<P, C>, e1: EdgeModel<P, C>|
        {
            &&& shell_scope(s0)(x)
            &&& x.id == id
            &&& #[trigger] is_cut(cut, x, v, e0, e1, first)
            &&& crate::surgery::cut_fits(s0, id, e0, e1)
            &&& s1 == faces_cut(s0, id, e0, e1)
        };
    let (a, b, n) = choose|a: EdgeModel<P, C>, b: EdgeModel<P, C>, n: EdgeModel<P, C>|
        {
            &&& corner_in(s1, a, b, v.id)
            &&& a.id != b.id
            &&& #[trigger] is_fusion(concat, a, b, n, second)
            &&& crate::surgery::fuse_fits(s1, v.id, a.id, b.id, n)
            &&& s2 == faces_fused(s1, v.id, a.id, b.id, n)
        };
    let p = a.id;
    let q = b.id;
    assert forall|f: int, w: int|
        0 <= f < s0.len() && 0 <= w < s0[f].boundaries.len() implies clean_cut(
        #[trigger] s0[f].boundaries[w],
        id,
        e0,
        e1,
        v.id,
    ) by {
        let wire = s0[f].boundaries[w];
        assert forall|k: int| 0 <= k < wire.len() implies (#[trigger] wire[k]).start.id != v.id
            && wire[k].end.id != v.id && wire[k].id != e0.id && wire[k].id != e1.id by {
            assert(shell_scope(s0)(s0[f].boundaries[w][k]));
        }
    }
    // The corner at which the vertex is removed is a passage along the
    // halves.
    let (f, w, k) = choose|f: int, w: int, k: int|
        0 <= f < s1.len() && 0 <= w < s1[f].boundaries.len() && 0 <= k < s1[f].boundaries[w].len()
            && #[trigger] s1[f].boundaries[w][k] == a && s1[f].boundaries[w][next_in(
            k,
            s1[f].boundaries[w].len() as int,
        )] == b && a.back().id == v.id;
    let wire = s0[f].boundaries[w];
    assert(clean_cut(wire, id, e0, e1, v.id));
    assert(s1[f].boundaries[w] == wire_cut(wire, id, e0, e1, wire.len()));
    lemma_cut_shape(wire, id, e0, e1, v.id, wire.len());
    assert(pair_of_halves(p, q, e0, e1));
    let flip = p != e0.id;
    assert forall|g: int| 0 <= g < s0.len() implies #[trigger] faces_swapped(s0, id, n, flip)[g]
        == s2[g] by {
        let b0 = s0[g].boundaries;
        let b2 = s2[g].boundaries;
        assert(s1[g].boundaries == wires_cut(b0, id, e0, e1));
        assert(b2 == wires_fused(s1[g].boundaries, v.id, p, q, n));
        assert forall|u: int| 0 <= u < b0.len() implies #[trigger] b2[u] == wire_swapped(
            b0[u],
            id,
            n,
            flip,
            b0[u].len(),
        ) by {
            assert(clean_cut(s0[g].boundaries[u], id, e0, e1, v.id));
            lemma_cut_seam(b0[u], id, e0, e1, v.id, p, q);
            lemma_cut_then_fuse(b0[u], id, e0, e1, v.id, p, q, n, b0[u].len());
            assert(s1[g].boundaries[u] == wire_cut(b0[u], id, e0, e1, b0[u].len()));
        }
        assert(b2 =~= faces_swapped(s0, id, n, flip)[g].boundaries);
    }
    assert(faces_swapped(s0, id, n, flip) =~= s2);
    assert(restored_by(s0, s2, id, second, x, n, flip));
}

/// A handle of the edge among the first `n` edges of the wire leaves its
/// two halves, one after the other, in the wire that is cut: at the place
/// that is returned and at the next.
proof fn lemma_cut_has_pair<P, C>(
    w: Seq<EdgeModel<P, C>>,
    id: u64,
    e0: EdgeModel<P, C>,
    e1: EdgeModel<P, C>,
    k: int,
    n: nat,
) -> (j: int)
    requires
        0 <= k < n <= w.len(),
        w[k].id == id,
    ensures
        0 <= j,
        j + 1 < wire_cut(w, id, e0, e1, n).len(),
        wire_cut(w, id, e0, e1, n)[j] == cut_pair(w[k], e0, e1)[0],
        wire_cut(w, id, e0, e1, n)[j + 1] == cut_pair(w[k], e0, e1)[1],
    decreases n,
{
    let c0 = wire_cut(w, id, e0, e1, (n - 1) as nat);
    let c = wire_cut(w, id, e0, e1, n);
    if k == n - 1 {
        let pair = cut_pair(w[k], e0, e1);
        assert(c == c0 + pair);
        assert(pair.len() == 2);
        assert(c[c0.len() as int] == pair[0]);
        assert(c[c0.len() as int + 1] == pair[1]);
        c0.len() as int
    } else {
        let j = lemma_cut_has_pair(w, id, e0, e1, k, (n - 1) as nat);
        if w[n - 1].id == id {
            assert(c == c0 + cut_pair(w[n - 1], e0, e1));
        } else {
            assert(c == c0.push(w[n - 1]));
        }
        assert(c[j] == c0[j]);
        assert(c[j + 1] == c0[j + 1]);
        j
    }
}

/// A closed simple chain stays one where an edge between the same two
/// vertices takes the place of an edge of it.
proof fn lemma_swapped_loop<P, C>(w: Seq<EdgeModel<P, C>>, id: u64, m: EdgeModel<P, C>, flip: bool)
    requires
        is_loop(w),
        forall|k: int|
            0 <= k < w.len() && (#[trigger] w[k]).id == id ==> swapped(w[k], id, m, flip).front().id
                == w[k].front().id && swapped(w[k], id, m, flip).back().id == w[k].back().id,
    ensures
        is_loop(wire_swapped(w, id, m, flip, w.len())),
{
    let s = wire_swapped(w, id, m, flip, w.len());
    assert forall|k: int| 0 <= k < s.len() implies (#[trigger] s[k]).front().id == w[k].front().id
        && s[k].back().id == w[k].back().id by {
        assert(s[k] == swapped(w[k], id, m, flip));
    }
    assert forall|k: int| 0 <= k < s.len() - 1 implies (#[trigger] s[k]).back().id == s[k
        + 1].front().id by {
        assert(w[k].back().id == w[k + 1].front().id);
        assert(s[k + 1].front().id == w[k + 1].front().id);
    }
    assert(s[s.len() - 1].back().id == w[w.len() - 1].back().id);
    assert(s[0].front().id == w[0].front().id);
    assert forall|i: int, j: int| 0 <= i < j < s.len() implies (#[trigger] s[i]).front().id != (
    #[trigger] s[j]).front().id by {
        assert(w[i].front().id != w[j].front().id);
    }
}

/// After a cut at a vertex that the faces did not have, a corner at the
/// vertex is a passage along the two halves, one way or the other.
proof fn lemma_corner_of_halves<P, C, S>(
    s0: Seq<FaceModel<P, C, S>>,
    s1: Seq<FaceModel<P, C, S>>,
    id: u64,
    e0: EdgeModel<P, C>,
    e1: EdgeModel<P, C>,
    v: u64,
    a: EdgeModel<P, C>,
    b: EdgeModel<P, C>,
)
    requires
        s1 == faces_cut(s0, id, e0, e1),
        forall|f: int, w: int|
            0 <= f < s0.len() && 0 <= w < s0[f].boundaries.len() ==> clean_cut(
                #[trigger] s0[f].boundaries[w],
                id,
                e0,
                e1,
                v,
            ),
        corner_in(s1, a, b, v),
    ensures
        (a == e0 && b == e1) || (a == e1.inverse() && b == e0.inverse()),
{
    let (f, w, k) = choose|f: int, w: int, k: int|
        0 <= f < s1.len() && 0 <= w < s1[f].boundaries.len() && 0 <= k < s1[f].boundaries[w].len()
            && #[trigger] s1[f].boundaries[w][k] == a && s1[f].boundaries[w][next_in(
            k,
            s1[f].boundaries[w].len() as int,
        )] == b && a.back().id == v;
    let wire = s0[f].boundaries[w];
    assert(clean_cut(wire, id, e0, e1, v));
    assert(s1[f].boundaries[w] == wire_cut(wire, id, e0, e1, wire.len()));
    lemma_cut_shape(wire, id, e0, e1, v, wire.len());
}

/// Removing the vertex along the halves from wires that were cut puts one
/// edge in the place of the edge in each of them.
proof fn lemma_fused_wires<P, C>(
    b0: Seq<Seq<EdgeModel<P, C>>>,
    id: u64,
    e0: EdgeModel<P, C>,
    e1: EdgeModel<P, C>,
    v: u64,
    p: u64,
    q: u64,
    n: EdgeModel<P, C>,
)
    requires
        forall|u: int| 0 <= u < b0.len() ==> clean_cut(#[trigger] b0[u], id, e0, e1, v),
        pair_of_halves(p, q, e0, e1),
        n.forward,
    ensures
        wires_fused(wires_cut(b0, id, e0, e1), v, p, q, n) == Seq::new(
            b0.len(),
            |u: int| wire_swapped(b0[u], id, n, p != e0.id, b0[u].len()),
        ),
{
    let fused = wires_fused(wires_cut(b0, id, e0, e1), v, p, q, n);
    let flip = p != e0.id;
    assert forall|u: int| 0 <= u < b0.len() implies #[trigger] fused[u] == wire_swapped(
        b0[u],
        id,
        n,
        flip,
        b0[u].len(),
    ) by {
        assert(clean_cut(b0[u], id, e0, e1, v));
        lemma_cut_seam(b0[u], id, e0, e1, v, p, q);
        lemma_cut_then_fuse(b0[u], id, e0, e1, v, p, q, n, b0[u].len());
        assert(wires_cut(b0, id, e0, e1)[u] == wire_cut(b0[u], id, e0, e1, b0[u].len()));
    }
    assert(fused =~= Seq::new(b0.len(), |u: int| wire_swapped(b0[u], id, n, flip, b0[u].len())));
}

/// After an edge was cut at a vertex that the shell did not have, the
/// vertex can be removed again: removing it fails only where `concat`
/// fails on the two halves. So where `concat` joins what `cut` parts, the
/// removal is done, and the shell is as it was, with a new edge in the
/// place of the edge that was cut.
#[verifier::rlimit(100)]
#[verifier::spinoff_prover]
pub proof fn law_concat_after_cut<
    P,
    C,
    S,
    F: Fn(&C, &P) -> Option<(C, C)>,
    G: Fn(&C, bool, &C, bool) -> Option<C>,
>(
    cut: F,
    concat: G,
    s0: Seq<FaceModel<P, C, S>>,
    s1: Seq<FaceModel<P, C, S>>,
    s2: Seq<FaceModel<P, C, S>>,
    id: u64,
    v: VertexModel<P>,
    first: nat,
    second: nat,
    done: bool,
)
    requires
        coherent(shell_scope(s0)),
        cut_outcome(cut, s0, s1, id, v, first, true),
        fuse_outcome(concat, s1, s2, v.id, second, done),
        apart_from(s0, v.id, first),
        first + 2 <= second,
        second <= u64::MAX,
        forall|c: C, c0: C, c1: C| #[trigger]
            cut.ensures((&c, &v.point), Some((c0, c1))) ==> !concat.ensures(
                (&c0, true, &c1, true),
                None,
            ) && !concat.ensures((&c1, false, &c0, false), None),
    ensures
        done,
        is_restored(s0, s2, id, second),
{
    let (x, e0, e1) = choose|x: EdgeModel<P, C>, e0: EdgeModel<P, C>, e1: EdgeModel<P, C>|
        {
            &&& shell_scope(s0)(x)
            &&& x.id == id
            &&& #[trigger] is_cut(cut, x, v, e0, e1, first)
            &&& crate::surgery::cut_fits(s0, id, e0, e1)
            &&& s1 == faces_cut(s0, id, e0, e1)
        };
    assert forall|f: int, w: int|
        0 <= f < s0.len() && 0 <= w < s0[f].boundaries.len() implies clean_cut(
        #[trigger] s0[f].boundaries[w],
        id,
        e0,
        e1,
        v.id,
    ) by {
        let wire = s0[f].boundaries[w];
        assert forall|k: int| 0 <= k < wire.len() implies (#[trigger] wire[k]).start.id != v.id
            && wire[k].end.id != v.id && wire[k].id != e0.id && wire[k].id != e1.id by {
            assert(shell_scope(s0)(s0[f].boundaries[w][k]));
        }
    }
    assert(cut.ensures((&x.curve, &v.point), Some((e0.curve, e1.curve))));
    if !done {
        let (f, w, k) = choose|f: int, w: int, k: int|
            0 <= f < s0.len() && 0 <= w < s0[f].boundaries.len() && 0 <= k
                < s0[f].boundaries[w].len() && #[trigger] s0[f].boundaries[w][k] == x;
        let wire = s0[f].boundaries[w];
        let j = lemma_cut_has_pair(wire, id, e0, e1, k, wire.len());
        let c = wire_cut(wire, id, e0, e1, wire.len());
        assert(s1[f].boundaries[w] == c);
        assert(c[j].back().id == v.id);
        assert(next_in(j, c.len() as int) == j + 1);
        assert(corner_in(s1, c[j], c[j + 1], v.id));
        if s2 == s1 && (forall|a: EdgeModel<P, C>, b: EdgeModel<P, C>| !#[trigger] corner_in(
            s1,
            a,
            b,
            v.id,
        )) {
            assert(false);
        } else if s2 == s1 && (exists|a: EdgeModel<P, C>, b: EdgeModel<P, C>| #[trigger]
            corner_in(s1, a, b, v.id) && (a.id == b.id || concat.ensures(
                (&a.curve, a.forward, &b.curve, b.forward),
                None,
            ))) {
            let (a, b) = choose|a: EdgeModel<P, C>, b: EdgeModel<P, C>| #[trigger]
                corner_in(s1, a, b, v.id) && (a.id == b.id || concat.ensures(
                    (&a.curve, a.forward, &b.curve, b.forward),
                    None,
                ));
            lemma_corner_of_halves(s0, s1, id, e0, e1, v.id, a, b);
            assert(false);
        } else {
            let (a, b, n, g) = choose|
                a: EdgeModel<P, C>,
                b: EdgeModel<P, C>,
                n: EdgeModel<P, C>,
                g: int,
            | #[trigger] fuse_stopped(concat, s1, s2, v.id, second, a, b, n, g);
            lemma_corner_of_halves(s0, s1, id, e0, e1, v.id, a, b);
            lemma_fusion_restores(
                s0,
                s1,
                shell_scope(s0),
                x,
                e0,
                e1,
                v,
                a,
                b,
                n,
                first,
                second,
            );
            assert(false);
        }
    }
    law_cut_then_concat(cut, concat, s0, s1, s2, id, v, first, second);
}

/// Passage by passage, `b` is `a` with the edge `m` in the place of the
/// edge `id`, in the same direction or, with `flip`, in the other; and `m`
/// is no edge of `a`.
pub open spec fn uses_swapped(a: Seq<Use>, b: Seq<Use>, id: u64, m: u64, flip: bool) -> bool {
    &&& a.len() == b.len()
    &&& forall|i: int|
        0 <= i < a.len() ==> {
            &&& (#[trigger] a[i]).face == b[i].face
            &&& a[i].corner == b[i].corner
            &&& a[i].edge != m
            &&& a[i].after != m
            &&& b[i].edge == if a[i].edge == id {
                m
            } else {
                a[i].edge
            }
            &&& b[i].after == if a[i].after == id {
                m
            } else {
                a[i].after
            }
            &&& b[i].forward == if a[i].edge == id {
                a[i].forward != flip
            } else {
                a[i].forward
            }
        }
}

proof fn lemma_swapped_concat(
    a1: Seq<Use>,
    b1: Seq<Use>,
    a2: Seq<Use>,
    b2: Seq<Use>,
    id: u64,
    m: u64,
    flip: bool,
)
    requires
        uses_swapped(a1, b1, id, m, flip),
        uses_swapped(a2, b2, id, m, flip),
    ensures
        uses_swapped(a1 + a2, b1 + b2, id, m, flip),
{
    let a = a1 + a2;
    let b = b1 + b2;
    assert forall|i: int| 0 <= i < a.len() implies {
        &&& (#[trigger] a[i]).face == b[i].face
        &&& a[i].corner == b[i].corner
        &&& a[i].edge != m
        &&& a[i].after != m
        &&& b[i].edge == if a[i].edge == id {
            m
        } else {
            a[i].edge
        }
        &&& b[i].after == if a[i].after == id {
            m
        } else {
            a[i].after
        }
        &&& b[i].forward == if a[i].edge == id {
            a[i].forward != flip
        } else {
            a[i].forward
        }
    } by {
        if i < a1.len() {
            assert(a[i] == a1[i] && b[i] == b1[i]);
        } else {
            let j = i - a1.len();
            assert(a[i] == a2[j] && b[i] == b2[j]);
        }
    }
}

/// The new edge is no edge of the wire, and where it takes the place of a
/// handle it ends where the handle ended.
pub open spec fn fits_in_place<P, C>(
    w: Seq<EdgeModel<P, C>>,
    id: u64,
    m: EdgeModel<P, C>,
    flip: bool,
) -> bool {
    forall|k: int|
        0 <= k < w.len() ==> (#[trigger] w[k]).id != m.id && (w[k].id == id ==> swapped(
            w[k],
            id,
            m,
            flip,
        ).front().id == w[k].front().id && swapped(w[k], id, m, flip).back().id == w[k].back().id)
}

proof fn lemma_wire_swapped_uses<P, C>(
    w: Seq<EdgeModel<P, C>>,
    id: u64,
    m: EdgeModel<P, C>,
    flip: bool,
    face: int,
    forward: bool,
)
    requires
        fits_in_place(w, id, m, flip),
    ensures
        uses_swapped(
            wire_uses(w, face, forward),
            wire_uses(wire_swapped(w, id, m, flip, w.len()), face, forward),
            id,
            m.id,
            flip,
        ),
{
    let sw = wire_swapped(w, id, m, flip, w.len());
    let a = wire_uses(w, face, forward);
    let b = wire_uses(sw, face, forward);
    assert forall|i: int| 0 <= i < a.len() implies {
        &&& (#[trigger] a[i]).face == b[i].face
        &&& a[i].corner == b[i].corner
        &&& a[i].edge != m.id
        &&& a[i].after != m.id
        &&& b[i].edge == if a[i].edge == id {
            m.id
        } else {
            a[i].edge
        }
        &&& b[i].after == if a[i].after == id {
            m.id
        } else {
            a[i].after
        }
        &&& b[i].forward == if a[i].edge == id {
            a[i].forward != flip
        } else {
            a[i].forward
        }
    } by {
        let n = next_in(i, w.len() as int);
        assert(sw[i] == swapped(w[i], id, m, flip));
        assert(sw[n] == swapped(w[n], id, m, flip));
        assert(w[i].id != m.id && w[n].id != m.id);
    }
}

proof fn lemma_wires_swapped_uses<P, C>(
    b0: Seq<Seq<EdgeModel<P, C>>>,
    b1: Seq<Seq<EdgeModel<P, C>>>,
    id: u64,
    m: EdgeModel<P, C>,
    flip: bool,
    face: int,
    forward: bool,
    n: nat,
)
    requires
        n <= b0.len(),
        b1.len() == b0.len(),
        forall|u: int|
            0 <= u < b0.len() ==> fits_in_place(#[trigger] b0[u], id, m, flip) && b1[u]
                == wire_swapped(b0[u], id, m, flip, b0[u].len()),
    ensures
        uses_swapped(
            wires_uses(b0, face, forward, n),
            wires_uses(b1, face, forward, n),
            id,
            m.id,
            flip,
        ),
    decreases n,
{
    if n > 0 {
        lemma_wires_swapped_uses(b0, b1, id, m, flip, face, forward, (n - 1) as nat);
        assert(fits_in_place(b0[n - 1], id, m, flip));
        lemma_wire_swapped_uses(b0[n - 1], id, m, flip, face, forward);
        lemma_swapped_concat(
            wires_uses(b0, face, forward, (n - 1) as nat),
            wires_uses(b1, face, forward, (n - 1) as nat),
            wire_uses(b0[n - 1], face, forward),
            wire_uses(b1[n - 1], face, forward),
            id,
            m.id,
            flip,
        );
    }
}

proof fn lemma_faces_swapped_uses<P, C, S>(
    s: Seq<FaceModel<P, C, S>>,
    id: u64,
    m: EdgeModel<P, C>,
    flip: bool,
    n: nat,
)
    requires
        n <= s.len(),
        forall|f: int, u: int|
            0 <= f < s.len() && 0 <= u < s[f].boundaries.len() ==> fits_in_place(
                #[trigger] s[f].boundaries[u],
                id,
                m,
                flip,
            ),
    ensures
        uses_swapped(
            faces_uses(s, n),
            faces_uses(faces_swapped(s, id, m, flip), n),
            id,
            m.id,
            flip,
        ),
    decreases n,
{
    if n > 0 {
        let t = faces_swapped(s, id, m, flip);
        lemma_faces_swapped_uses(s, id, m, flip, (n - 1) as nat);
        let b0 = s[n - 1].boundaries;
        let b1 = t[n - 1].boundaries;
        assert forall|u: int| 0 <= u < b0.len() implies fits_in_place(#[trigger] b0[u], id, m, flip)
            && b1[u] == wire_swapped(b0[u], id, m, flip, b0[u].len()) by {
            assert(fits_in_place(s[n - 1].boundaries[u], id, m, flip));
        }
        lemma_wires_swapped_uses(b0, b1, id, m, flip, n - 1, s[n - 1].forward, b0.len());
        lemma_swapped_concat(
            faces_uses(s, (n - 1) as nat),
            faces_uses(t, (n - 1) as nat),
            wires_uses(b0, n - 1, s[n - 1].forward, b0.len()),
            wires_uses(b1, n - 1, t[n - 1].forward, b1.len()),
            id,
            m.id,
            flip,
        );
    }
}

/// Faces in which a new edge between the same two vertices takes the
/// place of an edge fit together as before: they have the same condition,
/// are connected together, and can bound a solid together.
pub proof fn lemma_swapped_fate<P, C, S>(
    s: Seq<FaceModel<P, C, S>>,
    id: u64,
    m: EdgeModel<P, C>,
    flip: bool,
)
    requires
        forall|f: int, u: int|
            0 <= f < s.len() && 0 <= u < s[f].boundaries.len() ==> fits_in_place(
                #[trigger] s[f].boundaries[u],
                id,
                m,
                flip,
            ),
    ensures
        is_boundary(faces_swapped(s, id, m, flip)) == is_boundary(s),
{
    let t = faces_swapped(s, id, m, flip);
    lemma_faces_swapped_uses(s, id, m, flip, s.len());
    let a = uses_of(s);
    let b = uses_of(t);
    assert(uses_swapped(a, b, id, m.id, flip));
    assert(alike_turned(a, b));
    lemma_turned_fate(s, t);
}

/// The handles of the edge `id` in the wire run between the ends of the
/// two halves.
pub open spec fn cut_along<P, C>(
    w: Seq<EdgeModel<P, C>>,
    id: u64,
    e0: EdgeModel<P, C>,
    e1: EdgeModel<P, C>,
) -> bool {
    forall|k: int|
        0 <= k < w.len() && (#[trigger] w[k]).id == id ==> w[k].start.id == e0.start.id
            && w[k].end.id == e1.end.id
}

/// The wire that is cut up to a place begins the wire that is cut up to a
/// later place.
proof fn lemma_cut_prefix<P, C>(
    w: Seq<EdgeModel<P, C>>,
    id: u64,
    e0: EdgeModel<P, C>,
    e1: EdgeModel<P, C>,
    m: nat,
    n: nat,
)
    requires
        m <= n <= w.len(),
    ensures
        wire_cut(w, id, e0, e1, m).len() <= wire_cut(w, id, e0, e1, n).len(),
        forall|i: int|
            0 <= i < wire_cut(w, id, e0, e1, m).len() ==> #[trigger] wire_cut(w, id, e0, e1, n)[i]
                == wire_cut(w, id, e0, e1, m)[i],
    decreases n,
{
    if m < n {
        lemma_cut_prefix(w, id, e0, e1, m, (n - 1) as nat);
        let c0 = wire_cut(w, id, e0, e1, (n - 1) as nat);
        let c = wire_cut(w, id, e0, e1, n);
        if w[n - 1].id == id {
            assert(c == c0 + cut_pair(w[n - 1], e0, e1));
        } else {
            assert(c == c0.push(w[n - 1]));
        }
        assert forall|i: int| 0 <= i < wire_cut(w, id, e0, e1, m).len() implies #[trigger] c[i]
            == wire_cut(w, id, e0, e1, m)[i] by {
            assert(c[i] == c0[i]);
        }
    }
}

/// What stands for edge `k` of the wire in the wire that is cut begins
/// where the edge begins and ends where it ends.
proof fn lemma_cut_piece<P, C>(
    w: Seq<EdgeModel<P, C>>,
    id: u64,
    e0: EdgeModel<P, C>,
    e1: EdgeModel<P, C>,
    k: int,
)
    requires
        0 <= k < w.len(),
        cut_along(w, id, e0, e1),
        e0.forward,
        e1.forward,
    ensures
        wire_cut(w, id, e0, e1, k as nat).len() < wire_cut(w, id, e0, e1, (k + 1) as nat).len(),
        wire_cut(w, id, e0, e1, (k + 1) as nat)[wire_cut(
            w,
            id,
            e0,
            e1,
            k as nat,
        ).len() as int].front().id == w[k].front().id,
        wire_cut(w, id, e0, e1, (k + 1) as nat)[wire_cut(w, id, e0, e1, (k + 1) as nat).len()
            - 1].back().id == w[k].back().id,
{
    let c0 = wire_cut(w, id, e0, e1, k as nat);
    let c = wire_cut(w, id, e0, e1, (k + 1) as nat);
    if w[k].id == id {
        let pair = cut_pair(w[k], e0, e1);
        assert(c == c0 + pair);
        assert(pair.len() == 2);
        assert(c[c0.len() as int] == pair[0]);
        assert(c[c0.len() as int + 1] == pair[1]);
    } else {
        assert(c == c0.push(w[k]));
        assert(c[c0.len() as int] == w[k]);
    }
}

/// A wire is a closed simple chain if it is one after the cut.
proof fn lemma_uncut_loop<P, C>(
    w: Seq<EdgeModel<P, C>>,
    id: u64,
    e0: EdgeModel<P, C>,
    e1: EdgeModel<P, C>,
)
    requires
        cut_along(w, id, e0, e1),
        e0.forward,
        e1.forward,
        is_loop(wire_cut(w, id, e0, e1, w.len())),
    ensures
        is_loop(w),
{
    let n = w.len();
    let c = wire_cut(w, id, e0, e1, n);
    assert(n > 0) by {
        if n == 0 {
            assert(c.len() == 0);
        }
    }
    // Where the piece for edge `k` begins and ends in the wire that is cut.
    assert forall|k: int| 0 <= k < n implies {
        &&& 0 <= wire_cut(w, id, e0, e1, k as nat).len() < wire_cut(
            w,
            id,
            e0,
            e1,
            (k + 1) as nat,
        ).len() <= c.len()
        &&& c[wire_cut(w, id, e0, e1, k as nat).len() as int].front().id == (#[trigger] w[k]).front().id
        &&& c[wire_cut(w, id, e0, e1, (k + 1) as nat).len() - 1].back().id == w[k].back().id
    } by {
        lemma_cut_piece(w, id, e0, e1, k);
        lemma_cut_prefix(w, id, e0, e1, (k + 1) as nat, n);
        let ck = wire_cut(w, id, e0, e1, (k + 1) as nat);
        let p = wire_cut(w, id, e0, e1, k as nat).len() as int;
        assert(c[p] == ck[p]);
        assert(c[ck.len() - 1] == ck[ck.len() - 1]);
    }
    assert forall|k: int| 0 <= k < n - 1 implies (#[trigger] w[k]).back().id == w[k
        + 1].front().id by {
        let p = wire_cut(w, id, e0, e1, (k + 1) as nat).len() as int;
        assert(w[k + 1].front().id == c[p].front().id);
        assert(c[p - 1].back().id == c[p].front().id);
    }
    assert(w[n - 1].back().id == w[0].front().id) by {
        assert(wire_cut(w, id, e0, e1, 0).len() == 0);
        assert(c[0].front().id == w[0].front().id);
        assert(c[c.len() - 1].back().id == w[n - 1].back().id);
    }
    assert forall|i: int, j: int| 0 <= i < j < n implies (#[trigger] w[i]).front().id != (
    #[trigger] w[j]).front().id by {
        let p = wire_cut(w, id, e0, e1, i as nat).len() as int;
        let q = wire_cut(w, id, e0, e1, j as nat).len() as int;
        lemma_cut_prefix(w, id, e0, e1, (i + 1) as nat, j as nat);
        assert(p < q);
        assert(c[p].front().id != c[q].front().id);
    }
}

/// What removing the vertex along the halves does to faces that were cut
/// at a vertex they did not have: it fits every face, and puts the new edge
/// in the place of the edge that was cut, where it ends where the handles
/// of that edge ended.
proof fn lemma_fusion_restores<P, C, S>(
    s0: Seq<FaceModel<P, C, S>>,
    s1: Seq<FaceModel<P, C, S>>,
    scope: spec_fn(EdgeModel<P, C>) -> bool,
    x: EdgeModel<P, C>,
    e0: EdgeModel<P, C>,
    e1: EdgeModel<P, C>,
    v: VertexModel<P>,
    a: EdgeModel<P, C>,
    b: EdgeModel<P, C>,
    n: EdgeModel<P, C>,
    first: nat,
    second: nat,
)
    requires
        crate::surgery::cut_fits(s0, x.id, e0, e1),
        coherent(scope),
        forall|y: EdgeModel<P, C>| #[trigger] shell_scope(s0)(y) ==> scope(y),
        forall|y: EdgeModel<P, C>| #[trigger]
            scope(y) ==> y.start.id != v.id && y.end.id != v.id && y.id < first,
        scope(x),
        e0.start == x.start,
        e0.end == v,
        e0.forward,
        e0.id as nat == first,
        e1.start == v,
        e1.end == x.end,
        e1.forward,
        e1.id as nat == first + 1,
        s1 == faces_cut(s0, x.id, e0, e1),
        (a == e0 && b == e1) || (a == e1.inverse() && b == e0.inverse()),
        n.forward,
        n.id as nat == second,
        n.start == a.front(),
        n.end == b.back(),
        first + 2 <= second,
    ensures
        faces_fused(s1, v.id, a.id, b.id, n) == faces_swapped(s0, x.id, n, a.id != e0.id),
        fuse_fits(s1, v.id, a.id, b.id, n),
        forall|f: int, u: int|
            0 <= f < s0.len() && 0 <= u < s0[f].boundaries.len() ==> fits_in_place(
                #[trigger] s0[f].boundaries[u],
                x.id,
                n,
                a.id != e0.id,
            ),
{
    let id = x.id;
    let p = a.id;
    let q = b.id;
    let flip = p != e0.id;
    assert(pair_of_halves(p, q, e0, e1));
    assert forall|f: int, u: int|
        0 <= f < s0.len() && 0 <= u < s0[f].boundaries.len() implies clean_cut(
        #[trigger] s0[f].boundaries[u],
        id,
        e0,
        e1,
        v.id,
    ) && fits_in_place(s0[f].boundaries[u], id, n, flip) by {
        let wire = s0[f].boundaries[u];
        assert forall|k: int| 0 <= k < wire.len() implies (#[trigger] wire[k]).start.id != v.id
            && wire[k].end.id != v.id && wire[k].id != e0.id && wire[k].id != e1.id && wire[k].id
            != n.id && (wire[k].id == id ==> swapped(wire[k], id, n, flip).front().id
            == wire[k].front().id && swapped(wire[k], id, n, flip).back().id
            == wire[k].back().id) by {
            assert(shell_scope(s0)(s0[f].boundaries[u][k]));
            assert(scope(wire[k]));
        }
    }
    let s2 = faces_fused(s1, v.id, p, q, n);
    assert forall|g: int| 0 <= g < s0.len() implies #[trigger] faces_swapped(s0, id, n, flip)[g]
        == s2[g] && all_loops(wires_fused(s1[g].boundaries, v.id, p, q, n)) && rid_of(
        wires_fused(s1[g].boundaries, v.id, p, q, n),
        v.id,
        p,
        q,
    ) by {
        let b0 = s0[g].boundaries;
        assert forall|u: int| 0 <= u < b0.len() implies clean_cut(
            #[trigger] b0[u],
            id,
            e0,
            e1,
            v.id,
        ) by {
            assert(clean_cut(s0[g].boundaries[u], id, e0, e1, v.id));
        }
        lemma_fused_wires(b0, id, e0, e1, v.id, p, q, n);
        assert(s1[g].boundaries == wires_cut(b0, id, e0, e1));
        let fused = wires_fused(s1[g].boundaries, v.id, p, q, n);
        assert(fused =~= faces_swapped(s0, id, n, flip)[g].boundaries);
        assert(all_loops(wires_cut(s0[g].boundaries, id, e0, e1)));
        assert forall|u: int| 0 <= u < fused.len() implies is_loop(#[trigger] fused[u]) by {
            assert(is_loop(wires_cut(b0, id, e0, e1)[u]));
            assert(cut_along(b0[u], id, e0, e1)) by {
                assert forall|k: int| 0 <= k < b0[u].len() && (#[trigger] b0[u][k]).id
                    == id implies b0[u][k].start.id == e0.start.id && b0[u][k].end.id
                    == e1.end.id by {
                    assert(shell_scope(s0)(s0[g].boundaries[u][k]));
                    assert(scope(b0[u][k]));
                }
            }
            lemma_uncut_loop(b0[u], id, e0, e1);
            assert(is_loop(b0[u]));
            assert(fits_in_place(s0[g].boundaries[u], id, n, flip));
            lemma_swapped_loop(b0[u], id, n, flip);
            assert(fused[u] == wire_swapped(b0[u], id, n, flip, b0[u].len()));
        }
        assert forall|u: int, k: int| 0 <= u < fused.len() && 0 <= k < fused[u].len() implies (
        #[trigger] fused[u][k]).id != p && fused[u][k].id != q && fused[u][k].start.id != v.id
            && fused[u][k].end.id != v.id by {
            assert(fused[u] == wire_swapped(b0[u], id, n, flip, b0[u].len()));
            assert(fused[u][k] == swapped(b0[u][k], id, n, flip));
            assert(shell_scope(s0)(s0[g].boundaries[u][k]));
            assert(scope(b0[u][k]));
        }
    }
    assert(faces_swapped(s0, id, n, flip) =~= s2);
    assert forall|f: int| 0 <= f < s1.len() implies all_loops(
        #[trigger] wires_fused(s1[f].boundaries, v.id, p, q, n),
    ) && rid_of(wires_fused(s1[f].boundaries, v.id, p, q, n), v.id, p, q) by {
        assert(faces_swapped(s0, id, n, flip)[f] == s2[f]);
    }
}

/// `after` is the shells `before` with the edge `m` in the place of the
/// edge `id`, in every shell: `m` has the identity `name` and runs between
/// the ends of the handle `x` of the edge, from its start to its end, or,
/// with `flip`, the other way with every handle turned over.
pub open spec fn solid_restored_by<P, C, S>(
    before: Seq<Seq<FaceModel<P, C, S>>>,
    after: Seq<Seq<FaceModel<P, C, S>>>,
    id: u64,
    name: nat,
    x: EdgeModel<P, C>,
    m: EdgeModel<P, C>,
    flip: bool,
) -> bool {
    &&& solid_scope(before)(x)
    &&& x.id == id
    &&& m.forward
    &&& m.id as nat == name
    &&& m.start == if flip {
        x.end
    } else {
        x.start
    }
    &&& m.end == if flip {
        x.start
    } else {
        x.end
    }
    &&& after.len() == before.len()
    &&& forall|i: int|
        0 <= i < before.len() ==> #[trigger] after[i] == faces_swapped(before[i], id, m, flip)
}

/// `after` is the shells `before` with a new edge in the place of the edge
/// `id`: an edge with the identity `name` between the ends of a handle of
/// the edge.
pub open spec fn is_solid_restored<P, C, S>(
    before: Seq<Seq<FaceModel<P, C, S>>>,
    after: Seq<Seq<FaceModel<P, C, S>>>,
    id: u64,
    name: nat,
) -> bool {
    exists|x: EdgeModel<P, C>, m: EdgeModel<P, C>, flip: bool| #[trigger]
        solid_restored_by(before, after, id, name, x, m, flip)
}

/// No edge of the shells starts or ends at the vertex `v`, and none has
/// an identity from `bound` on.
pub open spec fn solid_apart_from<P, C, S>(
    b: Seq<Seq<FaceModel<P, C, S>>>,
    v: u64,
    bound: nat,
) -> bool {
    forall|x: EdgeModel<P, C>| #[trigger]
        solid_scope(b)(x) ==> x.start.id != v && x.end.id != v && x.id < bound
}

/// After an edge of a solid was cut at a vertex that the solid did not
/// have, the vertex can be removed again, and the solid is then as it was,
/// with a new edge in the place of the edge that was cut: removing the
/// vertex fails only where `concat` fails on the two halves. This is said of
/// solids whose handles of one edge have the same ends.
#[verifier::rlimit(100)]
#[verifier::spinoff_prover]
pub proof fn law_concat_after_cut_in_solid<
    P,
    C,
    S,
    F: Fn(&C, &P) -> Option<(C, C)>,
    G: Fn(&C, bool, &C, bool) -> Option<C>,
>(
    cut: F,
    concat: G,
    b0: Seq<Seq<FaceModel<P, C, S>>>,
    r1: Result<Solid<P, C, S>, Vec<Shell<P, C, S>>>,
    r2: Result<Solid<P, C, S>, Vec<Shell<P, C, S>>>,
    id: u64,
    v: VertexModel<P>,
    first: nat,
    second: nat,
)
    requires
        all_boundaries(b0),
        coherent(solid_scope(b0)),
        r1 is Ok,
        solid_cut_outcome(cut, b0, r1, id, v, first),
        solid_fuse_outcome(concat, r1->Ok_0@, r2, v.id, second),
        solid_apart_from(b0, v.id, first),
        first + 2 <= second,
        second <= u64::MAX,
        forall|c: C, c0: C, c1: C| #[trigger]
            cut.ensures((&c, &v.point), Some((c0, c1))) ==> !concat.ensures(
                (&c0, true, &c1, true),
                None,
            ) && !concat.ensures((&c1, false, &c0, false), None),
    ensures
        r2 is Ok,
        is_solid_restored(b0, r2->Ok_0@, id, second),
{
    let scope = solid_scope(b0);
    let s1 = r1->Ok_0@;
    let (x, e0, e1) = choose|x: EdgeModel<P, C>, e0: EdgeModel<P, C>, e1: EdgeModel<P, C>|
        {
            &&& solid_scope(b0)(x)
            &&& x.id == id
            &&& #[trigger] is_cut(cut, x, v, e0, e1, first)
            &&& solid_cut_fits(b0, id, e0, e1)
            &&& s1 == shells_cut(b0, id, e0, e1)
        };
    assert(cut.ensures((&x.curve, &v.point), Some((e0.curve, e1.curve))));
    assert forall|i: int, y: EdgeModel<P, C>|
        0 <= i < b0.len() && #[trigger] shell_scope(b0[i])(y) implies scope(y) by {}
    assert forall|i: int, f: int, w: int|
        0 <= i < b0.len() && 0 <= f < b0[i].len() && 0 <= w < b0[i][f].boundaries.len() implies clean_cut(
        #[trigger] b0[i][f].boundaries[w],
        id,
        e0,
        e1,
        v.id,
    ) by {
        let wire = b0[i][f].boundaries[w];
        assert forall|k: int| 0 <= k < wire.len() implies (#[trigger] wire[k]).start.id != v.id
            && wire[k].end.id != v.id && wire[k].id != e0.id && wire[k].id != e1.id by {
            assert(shell_scope(b0[i])(b0[i][f].boundaries[w][k]));
            assert(scope(wire[k]));
        }
    }
    // There is a corner at the vertex: where the handle was, its halves are.
    let i0 = choose|i: int| 0 <= i < b0.len() && #[trigger] shell_scope(b0[i])(x);
    let (f0, w0, k0) = choose|f: int, w: int, k: int|
        0 <= f < b0[i0].len() && 0 <= w < b0[i0][f].boundaries.len() && 0 <= k
            < b0[i0][f].boundaries[w].len() && #[trigger] b0[i0][f].boundaries[w][k] == x;
    let wire = b0[i0][f0].boundaries[w0];
    let j = lemma_cut_has_pair(wire, id, e0, e1, k0, wire.len());
    let c = wire_cut(wire, id, e0, e1, wire.len());
    assert(s1[i0] == faces_cut(b0[i0], id, e0, e1));
    assert(s1[i0][f0].boundaries[w0] == c);
    assert(c[j].back().id == v.id);
    assert(next_in(j, c.len() as int) == j + 1);
    assert(corner_in(s1[i0], c[j], c[j + 1], v.id));
    assert(solid_corner(s1, c[j], c[j + 1], v.id));
    // Every corner at the vertex is one of the halves.
    assert forall|a: EdgeModel<P, C>, b: EdgeModel<P, C>| #[trigger]
        solid_corner(s1, a, b, v.id) implies (a == e0 && b == e1) || (a == e1.inverse() && b
        == e0.inverse()) by {
        let i = choose|i: int| 0 <= i < s1.len() && #[trigger] corner_in(s1[i], a, b, v.id);
        assert(s1[i] == faces_cut(b0[i], id, e0, e1));
        assert forall|f: int, w: int|
            0 <= f < b0[i].len() && 0 <= w < b0[i][f].boundaries.len() implies clean_cut(
            #[trigger] b0[i][f].boundaries[w],
            id,
            e0,
            e1,
            v.id,
        ) by {}
        lemma_corner_of_halves(b0[i], s1[i], id, e0, e1, v.id, a, b);
    }
    match r2 {
        Ok(solid) => {
            let (a, b, n) = choose|a: EdgeModel<P, C>, b: EdgeModel<P, C>, n: EdgeModel<P, C>|
                {
                    &&& solid_corner(s1, a, b, v.id)
                    &&& a.id != b.id
                    &&& #[trigger] is_fusion(concat, a, b, n, second)
                    &&& solid_fuse_fits(s1, v.id, a.id, b.id, n)
                    &&& solid@ == shells_fused(s1, v.id, a.id, b.id, n)
                };
            let flip = a.id != e0.id;
            assert forall|i: int| 0 <= i < b0.len() implies #[trigger] solid@[i] == faces_swapped(
                b0[i],
                id,
                n,
                flip,
            ) by {
                assert(s1[i] == faces_cut(b0[i], id, e0, e1));
                lemma_fusion_restores(b0[i], s1[i], scope, x, e0, e1, v, a, b, n, first, second);
            }
            assert(solid_restored_by(b0, solid@, id, second, x, n, flip));
        },
        Err(shells) => {
            let after = shell_views(shells@);
            if exists|a: EdgeModel<P, C>, b: EdgeModel<P, C>| #[trigger]
                solid_corner(s1, a, b, v.id) && (a.id == b.id || concat.ensures(
                    (&a.curve, a.forward, &b.curve, b.forward),
                    None,
                )) {
                assert(false);
            } else if exists|
                a: EdgeModel<P, C>,
                b: EdgeModel<P, C>,
                n: EdgeModel<P, C>,
                i: int,
                k: int,
            | #[trigger] solid_fuse_stopped(concat, s1, after, v.id, second, a, b, n, i, k) {
                let (a, b, n, i, k) = choose|
                    a: EdgeModel<P, C>,
                    b: EdgeModel<P, C>,
                    n: EdgeModel<P, C>,
                    i: int,
                    k: int,
                | #[trigger] solid_fuse_stopped(concat, s1, after, v.id, second, a, b, n, i, k);
                assert(s1[i] == faces_cut(b0[i], id, e0, e1));
                lemma_fusion_restores(b0[i], s1[i], scope, x, e0, e1, v, a, b, n, first, second);
                assert(false);
            } else if exists|a: EdgeModel<P, C>, b: EdgeModel<P, C>, n: EdgeModel<P, C>| #[trigger]
                solid_fuse_unfit(concat, s1, after, v.id, second, a, b, n) {
                let (a, b, n) = choose|a: EdgeModel<P, C>, b: EdgeModel<P, C>, n: EdgeModel<P, C>|
                    #[trigger] solid_fuse_unfit(concat, s1, after, v.id, second, a, b, n);
                let flip = a.id != e0.id;
                assert forall|i: int| 0 <= i < after.len() implies is_boundary(#[trigger] after[i]) by {
                    assert(s1[i] == faces_cut(b0[i], id, e0, e1));
                    lemma_fusion_restores(b0[i], s1[i], scope, x, e0, e1, v, a, b, n, first, second);
                    assert(after[i] == faces_fused(s1[i], v.id, a.id, b.id, n));
                    lemma_swapped_fate(b0[i], id, n, flip);
                    assert(is_boundary(b0[i]));
                }
                assert(false);
            } else {
                assert(false);
            }
        },
    }
}

} // verus!
