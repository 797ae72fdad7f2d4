//! Whether the geometry of a shape agrees with its topology: whether every
//! curve ends at the points of its edge's vertices and lies on the surfaces
//! of the faces that the edge bounds.
use vstd::prelude::*;
use crate::edge::{Edge, EdgeModel};
use crate::face::{wire_views, Face, FaceModel};
use crate::shell::{face_views, Shell};
use crate::solid::{shell_views, Solid};

verus! {

/// `ends_fit` accepts the curve of the edge between the points of its
/// vertices.
pub open spec fn edge_sound<P, C, FE: Fn(&C, &P, &P) -> bool>(ends_fit: FE, e: EdgeModel<P, C>) -> bool {
    ends_fit.ensures((&e.curve, &e.start.point, &e.end.point), true)
}

/// `ends_fit` can refuse the curve of the edge between the points of its
/// vertices.
pub open spec fn edge_flawed<P, C, FE: Fn(&C, &P, &P) -> bool>(
    ends_fit: FE,
    e: EdgeModel<P, C>,
) -> bool {
    ends_fit.ensures((&e.curve, &e.start.point, &e.end.point), false)
}

/// Every edge of the boundaries of the face is sound, and `lies_on`
/// accepts its curve on the surface of the face.
pub open spec fn face_sound<P, C, S, FE: Fn(&C, &P, &P) -> bool, FS: Fn(&S, &C) -> bool>(
    ends_fit: FE,
    lies_on: FS,
    f: FaceModel<P, C, S>,
) -> bool {
    forall|w: int, k: int|
        0 <= w < f.boundaries.len() && 0 <= k < f.boundaries[w].len() ==> edge_sound(
            ends_fit,
            #[trigger] f.boundaries[w][k],
        ) && lies_on.ensures((&f.surface, &f.boundaries[w][k].curve), true)
}

/// Some edge of the boundaries of the face can be refused: by `ends_fit`,
/// or by `lies_on` on the surface of the face.
pub open spec fn face_flawed<P, C, S, FE: Fn(&C, &P, &P) -> bool, FS: Fn(&S, &C) -> bool>(
    ends_fit: FE,
    lies_on: FS,
    f: FaceModel<P, C, S>,
) -> bool {
    exists|w: int, k: int|
        0 <= w < f.boundaries.len() && 0 <= k < f.boundaries[w].len() && (edge_flawed(
            ends_fit,
            #[trigger] f.boundaries[w][k],
        ) || lies_on.ensures((&f.surface, &f.boundaries[w][k].curve), false))
}

impl<P, C> Edge<P, C> {
    /// Whether `ends_fit` accepts the curve of the edge between the points
    /// of the vertices at which the curve starts and ends.
    pub fn is_geometric_consistent<FE: Fn(&C, &P, &P) -> bool>(&self, ends_fit: &FE) -> (b: bool)
        requires
            ends_fit.requires((&self@.curve, &self@.start.point, &self@.end.point)),
        ensures
            b ==> edge_sound(*ends_fit, self@),
            !b ==> edge_flawed(*ends_fit, self@),
    {
        ends_fit(self.curve(), self.absolute_front().point(), self.absolute_back().point())
    }
}

impl<P, C, S> Face<P, C, S> {
    /// Whether the geometry of the face agrees with its topology: whether
    /// `ends_fit` accepts every curve between the points of its edge's
    /// vertices, and `lies_on` accepts it on the surface.
    pub fn is_geometric_consistent<FE: Fn(&C, &P, &P) -> bool, FS: Fn(&S, &C) -> bool>(
        &self,
        ends_fit: &FE,
        lies_on: &FS,
    ) -> (b: bool)
        requires
            forall|c: C, p: P, q: P| ends_fit.requires((&c, &p, &q)),
            forall|s: S, c: C| lies_on.requires((&s, &c)),
        ensures
            b ==> face_sound(*ends_fit, *lies_on, self@),
            !b ==> face_flawed(*ends_fit, *lies_on, self@),
    {
        let ws = self.absolute_boundaries();
        let ghost b = self@.boundaries;
        let mut w: usize = 0;
        while w < ws.len()
            invariant
                w <= ws@.len(),
                wire_views(ws@) == b,
                b == self@.boundaries,
                forall|c: C, p: P, q: P| ends_fit.requires((&c, &p, &q)),
                forall|s: S, c: C| lies_on.requires((&s, &c)),
                forall|v: int, k: int|
                    0 <= v < w && 0 <= k < b[v].len() ==> edge_sound(*ends_fit, #[trigger] b[v][k])
                        && lies_on.ensures((&self@.surface, &b[v][k].curve), true),
            decreases ws@.len() - w,
        {
            let es = ws[w].edges();
            assert(wire_views(ws@)[w as int] == ws@[w as int]@);
            let ghost wire = b[w as int];
            let mut k: usize = 0;
            while k < es.len()
                invariant
                    k <= es@.len(),
                    w < ws@.len(),
                    b == self@.boundaries,
                    b.len() == ws@.len(),
                    wire == b[w as int],
                    es@.len() == wire.len(),
                    forall|i: int| 0 <= i < es@.len() ==> (#[trigger] es@[i])@ == wire[i],
                    forall|c: C, p: P, q: P| ends_fit.requires((&c, &p, &q)),
                    forall|s: S, c: C| lies_on.requires((&s, &c)),
                    forall|i: int|
                        0 <= i < k ==> edge_sound(*ends_fit, #[trigger] wire[i])
                            && lies_on.ensures((&self@.surface, &wire[i].curve), true),
                decreases es@.len() - k,
            {
                let e = &es[k];
                assert(e@ == b[w as int][k as int]);
                if !e.is_geometric_consistent(ends_fit) {
                    assert(edge_flawed(*ends_fit, b[w as int][k as int]));
                    return false;
                }
                if !lies_on(self.surface(), e.curve()) {
                    assert(lies_on.ensures((&self@.surface, &b[w as int][k as int].curve), false));
                    return false;
                }
                k += 1;
            }
            w += 1;
        }
        true
    }
}

impl<P, C, S> Shell<P, C, S> {
    /// Whether the geometry of every face agrees with its topology.
    pub fn is_geometric_consistent<FE: Fn(&C, &P, &P) -> bool, FS: Fn(&S, &C) -> bool>(
        &self,
        ends_fit: &FE,
        lies_on: &FS,
    ) -> (b: bool)
        requires
            forall|c: C, p: P, q: P| ends_fit.requires((&c, &p, &q)),
            forall|s: S, c: C| lies_on.requires((&s, &c)),
        ensures
            b ==> forall|f: int|
                0 <= f < self@.len() ==> face_sound(*ends_fit, *lies_on, #[trigger] self@[f]),
            !b ==> exists|f: int|
                0 <= f < self@.len() && face_flawed(*ends_fit, *lies_on, #[trigger] self@[f]),
    {
        let faces = self.faces();
        let mut f: usize = 0;
        while f < faces.len()
            invariant
                f <= faces@.len(),
                face_views(faces@) == self@,
                forall|c: C, p: P, q: P| ends_fit.requires((&c, &p, &q)),
                forall|s: S, c: C| lies_on.requires((&s, &c)),
                forall|g: int| 0 <= g < f ==> face_sound(*ends_fit, *lies_on, #[trigger] self@[g]),
            decreases faces@.len() - f,
        {
            assert(face_views(faces@)[f as int] == faces@[f as int]@);
            if !faces[f].is_geometric_consistent(ends_fit, lies_on) {
                assert(face_flawed(*ends_fit, *lies_on, self@[f as int]));
                return false;
            }
            f += 1;
        }
        true
    }
}

impl<P, C, S> Solid<P, C, S> {
    /// Whether the geometry of every face of every shell agrees with its
    /// topology.
    pub fn is_geometric_consistent<FE: Fn(&C, &P, &P) -> bool, FS: Fn(&S, &C) -> bool>(
        &self,
        ends_fit: &FE,
        lies_on: &FS,
    ) -> (b: bool)
        requires
            forall|c: C, p: P, q: P| ends_fit.requires((&c, &p, &q)),
            forall|s: S, c: C| lies_on.requires((&s, &c)),
        ensures
            b ==> forall|i: int, f: int|
                0 <= i < self@.len() && 0 <= f < self@[i].len() ==> face_sound(
                    *ends_fit,
                    *lies_on,
                    #[trigger] self@[i][f],
                ),
            !b ==> exists|i: int, f: int|
                0 <= i < self@.len() && 0 <= f < self@[i].len() && face_flawed(
                    *ends_fit,
                    *lies_on,
                    #[trigger] self@[i][f],
                ),
    {
        let shells = self.boundaries();
        let mut i: usize = 0;
        while i < shells.len()
            invariant
                i <= shells@.len(),
                shell_views(shells@) == self@,
                forall|c: C, p: P, q: P| ends_fit.requires((&c, &p, &q)),
                forall|s: S, c: C| lies_on.requires((&s, &c)),
                forall|j: int, f: int|
                    0 <= j < i && 0 <= f < self@[j].len() ==> face_sound(
                        *ends_fit,
                        *lies_on,
                        #[trigger] self@[j][f],
                    ),
            decreases shells@.len() - i,
        {
            assert(shell_views(shells@)[i as int] == shells@[i as int]@);
            if !shells[i].is_geometric_consistent(ends_fit, lies_on) {
                proof {
                    let f = choose|f: int|
                        0 <= f < self@[i as int].len() && face_flawed(
                            *ends_fit,
                            *lies_on,
                            #[trigger] self@[i as int][f],
                        );
                    assert(face_flawed(*ends_fit, *lies_on, self@[i as int][f]));
                }
                return false;
            }
            i += 1;
        }
        true
    }
}

} // verus!
