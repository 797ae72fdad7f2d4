//! Shells that differ only in the names of their edges and vertices fit
//! together in the same way.
use vstd::prelude::*;
use crate::face::FaceModel;
use crate::graph::{joined, lemma_joined_mono};
use crate::shell::{
    against, along, condition_of, corner_rel, count, face_rel, is_connected, is_manifold,
    is_oriented, is_regular, is_singular, is_watertight, uses_of, Use,
};
use crate::solid::{is_boundary, shell_fault};

verus! {

/// The two sequences of passages name their edges and vertices in the same
/// pattern: passage by passage the same face, and wherever two passages of
/// the one name the same edge or the same vertex, so do the two of the
/// other.
pub open spec fn alike_names(a: Seq<Use>, b: Seq<Use>) -> bool {
    &&& a.len() == b.len()
    &&& forall|i: int| 0 <= i < a.len() ==> (#[trigger] a[i]).face == b[i].face
    &&& forall|i: int, j: int|
        0 <= i < a.len() && 0 <= j < a.len() ==> {
            &&& ((#[trigger] a[i]).edge == (#[trigger] a[j]).edge) == (b[i].edge == b[j].edge)
            &&& (a[i].edge == a[j].after) == (b[i].edge == b[j].after)
            &&& (a[i].after == a[j].after) == (b[i].after == b[j].after)
            &&& (a[i].corner == a[j].corner) == (b[i].corner == b[j].corner)
        }
}

/// The two sequences of passages have the same pattern but for the
/// direction of some edges: they name their edges and vertices in the same
/// pattern, and the passages through one edge either all keep their
/// direction or all run the other way.
pub open spec fn alike_turned(a: Seq<Use>, b: Seq<Use>) -> bool {
    &&& alike_names(a, b)
    &&& forall|i: int, j: int|
        0 <= i < a.len() && 0 <= j < a.len() && (#[trigger] a[i]).edge == (#[trigger] a[j]).edge
            ==> (a[i].forward == b[i].forward) == (a[j].forward == b[j].forward)
}

/// The two sequences of passages have the same pattern: passage by passage
/// the same face and direction, and wherever two passages of the one name
/// the same edge or the same vertex, so do the two of the other.
pub open spec fn alike(a: Seq<Use>, b: Seq<Use>) -> bool {
    &&& a.len() == b.len()
    &&& forall|i: int|
        0 <= i < a.len() ==> (#[trigger] a[i]).forward == b[i].forward && a[i].face == b[i].face
    &&& forall|i: int, j: int|
        0 <= i < a.len() && 0 <= j < a.len() ==> {
            &&& ((#[trigger] a[i]).edge == (#[trigger] a[j]).edge) == (b[i].edge == b[j].edge)
            &&& (a[i].edge == a[j].after) == (b[i].edge == b[j].after)
            &&& (a[i].after == a[j].after) == (b[i].after == b[j].after)
            &&& (a[i].corner == a[j].corner) == (b[i].corner == b[j].corner)
        }
}

/// The same pattern of names holds both ways.
pub proof fn lemma_names_sym(a: Seq<Use>, b: Seq<Use>)
    requires
        alike_names(a, b),
    ensures
        alike_names(b, a),
{
    assert forall|i: int| 0 <= i < b.len() implies (#[trigger] b[i]).face == a[i].face by {
        assert(a[i].face == b[i].face);
    }
    assert forall|i: int, j: int| 0 <= i < b.len() && 0 <= j < b.len() implies {
        &&& ((#[trigger] b[i]).edge == (#[trigger] b[j]).edge) == (a[i].edge == a[j].edge)
        &&& (b[i].edge == b[j].after) == (a[i].edge == a[j].after)
        &&& (b[i].after == b[j].after) == (a[i].after == a[j].after)
        &&& (b[i].corner == b[j].corner) == (a[i].corner == a[j].corner)
    } by {
        assert((a[i].edge == a[j].edge) == (b[i].edge == b[j].edge));
    }
}

/// In sequences alike but for directions, passages at the same place go
/// through edges that are passed equally often: in the same direction where
/// the edge keeps its direction, in the other where it does not.
pub proof fn lemma_turned_count(a: Seq<Use>, b: Seq<Use>, i: int, forward: bool, n: nat)
    requires
        alike_turned(a, b),
        0 <= i < a.len(),
        n <= a.len(),
    ensures
        count(a, a[i].edge, forward, n) == count(
            b,
            b[i].edge,
            if a[i].forward == b[i].forward {
                forward
            } else {
                !forward
            },
            n,
        ),
    decreases n,
{
    if n > 0 {
        lemma_turned_count(a, b, i, forward, (n - 1) as nat);
        assert((a[i].edge == a[n - 1].edge) == (b[i].edge == b[n - 1].edge));
        if a[i].edge == a[n - 1].edge {
            assert((a[i].forward == b[i].forward) == (a[n - 1].forward == b[n - 1].forward));
        }
    }
}

/// Sequences alike but for directions meet the same conditions.
pub proof fn lemma_turned_condition(a: Seq<Use>, b: Seq<Use>)
    requires
        alike_turned(a, b),
    ensures
        is_watertight(a) == is_watertight(b),
        is_oriented(a) == is_oriented(b),
        is_regular(a) == is_regular(b),
        condition_of(a) == condition_of(b),
{
    assert forall|i: int| 0 <= i < a.len() implies {
        &&& along(a, (#[trigger] a[i]).edge) + against(a, a[i].edge) == along(b, b[i].edge)
            + against(b, b[i].edge)
        &&& (along(a, a[i].edge) == along(b, b[i].edge) && against(a, a[i].edge) == against(
            b,
            b[i].edge,
        )) || (along(a, a[i].edge) == against(b, b[i].edge) && against(a, a[i].edge) == along(
            b,
            b[i].edge,
        ))
    } by {
        lemma_turned_count(a, b, i, true, a.len());
        lemma_turned_count(a, b, i, false, a.len());
    }
    if is_watertight(a) {
        assert forall|i: int| 0 <= i < b.len() implies along(b, (#[trigger] b[i]).edge) == 1
            && against(b, b[i].edge) == 1 by {
            assert(along(a, a[i].edge) == 1 && against(a, a[i].edge) == 1);
        }
    }
    if is_watertight(b) {
        assert forall|i: int| 0 <= i < a.len() implies along(a, (#[trigger] a[i]).edge) == 1
            && against(a, a[i].edge) == 1 by {
            assert(along(b, b[i].edge) == 1 && against(b, b[i].edge) == 1);
        }
    }
    if is_oriented(a) {
        assert forall|i: int| 0 <= i < b.len() implies along(b, (#[trigger] b[i]).edge) <= 1
            && against(b, b[i].edge) <= 1 by {
            assert(along(a, a[i].edge) <= 1 && against(a, a[i].edge) <= 1);
        }
    }
    if is_oriented(b) {
        assert forall|i: int| 0 <= i < a.len() implies along(a, (#[trigger] a[i]).edge) <= 1
            && against(a, a[i].edge) <= 1 by {
            assert(along(b, b[i].edge) <= 1 && against(b, b[i].edge) <= 1);
        }
    }
    if is_regular(a) {
        assert forall|i: int| 0 <= i < b.len() implies along(b, (#[trigger] b[i]).edge) + against(
            b,
            b[i].edge,
        ) <= 2 by {
            assert(along(a, a[i].edge) + against(a, a[i].edge) <= 2);
        }
    }
    if is_regular(b) {
        assert forall|i: int| 0 <= i < a.len() implies along(a, (#[trigger] a[i]).edge) + against(
            a,
            a[i].edge,
        ) <= 2 by {
            assert(along(b, b[i].edge) + against(b, b[i].edge) <= 2);
        }
    }
}

/// In sequences with the same pattern of names the same faces are
/// neighbours, and the same corners.
pub proof fn lemma_alike_neighbours(a: Seq<Use>, b: Seq<Use>)
    requires
        alike_names(a, b),
    ensures
        forall|f: int, g: int| #[trigger] face_rel(a)(f, g) ==> face_rel(b)(f, g),
        forall|i: int, j: int| #[trigger] corner_rel(a)(i, j) ==> corner_rel(b)(i, j),
{
    assert forall|f: int, g: int| #[trigger] face_rel(a)(f, g) implies face_rel(b)(f, g) by {
        let (i, j) = choose|i: int, j: int|
            0 <= i < a.len() && 0 <= j < a.len() && (#[trigger] a[i]).face == f && (
            #[trigger] a[j]).face == g && a[i].edge == a[j].edge;
        assert(b[i].face == f && b[j].face == g);
        assert((a[i].edge == a[j].edge) == (b[i].edge == b[j].edge));
    }
    assert forall|i: int, j: int| #[trigger] corner_rel(a)(i, j) implies corner_rel(b)(i, j) by {
        assert((a[i].edge == a[j].edge) == (b[i].edge == b[j].edge));
        assert((a[j].edge == a[i].edge) == (b[j].edge == b[i].edge));
        assert((a[j].edge == a[i].after) == (b[j].edge == b[i].after));
    }
}

/// In like sequences the same corners lie at singular vertices.
pub proof fn lemma_alike_singular(a: Seq<Use>, b: Seq<Use>, i: int)
    requires
        alike_names(a, b),
        0 <= i < a.len(),
        is_singular(a, a[i].corner),
    ensures
        is_singular(b, b[i].corner),
{
    let (p, q) = choose|p: int, q: int|
        0 <= p < a.len() && 0 <= q < a.len() && (#[trigger] a[p]).corner == a[i].corner && (
        #[trigger] a[q]).corner == a[i].corner && !joined(corner_rel(a), p, q);
    assert((a[p].corner == a[i].corner) == (b[p].corner == b[i].corner));
    assert((a[q].corner == a[i].corner) == (b[q].corner == b[i].corner));
    if joined(corner_rel(b), p, q) {
        lemma_names_sym(a, b);
        lemma_alike_neighbours(b, a);
        lemma_joined_mono(corner_rel(b), corner_rel(a), p, q);
    }
}

/// Like sequences are manifold together.
pub proof fn lemma_alike_manifold(a: Seq<Use>, b: Seq<Use>)
    requires
        alike_names(a, b),
    ensures
        is_manifold(a) == is_manifold(b),
{
    lemma_names_sym(a, b);
    if !is_manifold(a) {
        let i = choose|i: int| 0 <= i < a.len() && is_singular(a, (#[trigger] a[i]).corner);
        lemma_alike_singular(a, b, i);
        assert(is_singular(b, b[i].corner));
    }
    if !is_manifold(b) {
        let i = choose|i: int| 0 <= i < b.len() && is_singular(b, (#[trigger] b[i]).corner);
        lemma_alike_singular(b, a, i);
        assert(is_singular(a, a[i].corner));
    }
}

/// Shells of equally many faces whose passages are alike are connected
/// together.
pub proof fn lemma_alike_connected<P, C, S, Q, D, T>(
    xs: Seq<FaceModel<P, C, S>>,
    ys: Seq<FaceModel<Q, D, T>>,
)
    requires
        xs.len() == ys.len(),
        alike_names(uses_of(xs), uses_of(ys)),
    ensures
        is_connected(xs) == is_connected(ys),
{
    let a = uses_of(xs);
    let b = uses_of(ys);
    lemma_names_sym(a, b);
    lemma_alike_neighbours(a, b);
    lemma_alike_neighbours(b, a);
    if is_connected(xs) {
        assert forall|f: int, g: int| 0 <= f < ys.len() && 0 <= g < ys.len() implies #[trigger] joined(
            face_rel(b),
            f,
            g,
        ) by {
            assert(joined(face_rel(a), f, g));
            lemma_joined_mono(face_rel(a), face_rel(b), f, g);
        }
    }
    if is_connected(ys) {
        assert forall|f: int, g: int| 0 <= f < xs.len() && 0 <= g < xs.len() implies #[trigger] joined(
            face_rel(a),
            f,
            g,
        ) by {
            assert(joined(face_rel(b), f, g));
            lemma_joined_mono(face_rel(b), face_rel(a), f, g);
        }
    }
}

/// Shells of equally many faces whose passages are alike have the same
/// condition and the same fault, and can bound a solid together.
pub proof fn lemma_alike_fate<P, C, S, Q, D, T>(
    xs: Seq<FaceModel<P, C, S>>,
    ys: Seq<FaceModel<Q, D, T>>,
)
    requires
        xs.len() == ys.len(),
        alike(uses_of(xs), uses_of(ys)),
    ensures
        condition_of(uses_of(xs)) == condition_of(uses_of(ys)),
        is_connected(xs) == is_connected(ys),
        is_manifold(uses_of(xs)) == is_manifold(uses_of(ys)),
        shell_fault(xs) == shell_fault(ys),
        is_boundary(xs) == is_boundary(ys),
{
    assert(alike_turned(uses_of(xs), uses_of(ys)));
    lemma_turned_fate(xs, ys);
}

/// Shells of equally many faces whose passages are alike but for the
/// direction of some edges have the same condition and the same fault, and
/// can bound a solid together.
pub proof fn lemma_turned_fate<P, C, S, Q, D, T>(
    xs: Seq<FaceModel<P, C, S>>,
    ys: Seq<FaceModel<Q, D, T>>,
)
    requires
        xs.len() == ys.len(),
        alike_turned(uses_of(xs), uses_of(ys)),
    ensures
        condition_of(uses_of(xs)) == condition_of(uses_of(ys)),
        is_connected(xs) == is_connected(ys),
        is_manifold(uses_of(xs)) == is_manifold(uses_of(ys)),
        shell_fault(xs) == shell_fault(ys),
        is_boundary(xs) == is_boundary(ys),
{
    lemma_turned_condition(uses_of(xs), uses_of(ys));
    lemma_alike_connected(xs, ys);
    lemma_alike_manifold(uses_of(xs), uses_of(ys));
}

} // verus!
