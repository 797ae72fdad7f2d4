//! Shells: faces put together, and what can be asked of how they fit.
use vstd::prelude::*;
use crate::edge::{Edge, EdgeModel};
use crate::face::{wire_views, Face, FaceModel};
use crate::graph::{arcs_rel, components, is_labelling, joined, lemma_joined_mono};
use crate::vertex::Vertex;

verus! {

/// One passage of a face's boundary through an edge.
#[derive(Clone, Copy, Debug)]
pub struct Use {
    /// The identity of the edge.
    pub edge: u64,
    /// Whether the face, seen from the side of its handle, runs along the
    /// edge's curve.
    pub forward: bool,
    /// The position of the face in the shell.
    pub face: usize,
    /// The identity of the vertex at which the wire leaves the edge.
    pub corner: u64,
    /// The identity of the edge that the wire enters there.
    pub after: u64,
}

/// The position that follows `k` in a closed sequence of `len` items.
pub open spec fn next_in(k: int, len: int) -> int {
    if k + 1 < len {
        k + 1
    } else {
        0
    }
}

/// The passages of one boundary wire.
pub open spec fn wire_uses<P, C>(w: Seq<EdgeModel<P, C>>, face: int, face_forward: bool) -> Seq<
    Use,
> {
    Seq::new(
        w.len(),
        |k: int|
            Use {
                edge: w[k].id,
                forward: w[k].forward == face_forward,
                face: face as usize,
                corner: w[k].back().id,
                after: w[next_in(k, w.len() as int)].id,
            },
    )
}

/// The passages of the first `n` boundary wires of a face, wire by wire.
pub open spec fn wires_uses<P, C>(
    b: Seq<Seq<EdgeModel<P, C>>>,
    face: int,
    face_forward: bool,
    n: nat,
) -> Seq<Use>
    decreases n,
{
    if n == 0 {
        Seq::empty()
    } else {
        wires_uses(b, face, face_forward, (n - 1) as nat) + wire_uses(b[n - 1], face, face_forward)
    }
}

/// The passages of the first `n` faces, face by face.
pub open spec fn faces_uses<P, C, S>(s: Seq<FaceModel<P, C, S>>, n: nat) -> Seq<Use>
    decreases n,
{
    if n == 0 {
        Seq::empty()
    } else {
        faces_uses(s, (n - 1) as nat) + wires_uses(
            s[n - 1].boundaries,
            n - 1,
            s[n - 1].forward,
            s[n - 1].boundaries.len(),
        )
    }
}

/// Every passage of a boundary of the shell through an edge, in the order
/// of the faces, of their wires and of the edges in them.
pub open spec fn uses_of<P, C, S>(s: Seq<FaceModel<P, C, S>>) -> Seq<Use> {
    faces_uses(s, s.len())
}

/// How many of the first `n` passages go through `edge` in the direction
/// `forward`.
pub open spec fn count(u: Seq<Use>, edge: u64, forward: bool, n: nat) -> nat
    decreases n,
{
    if n == 0 {
        0
    } else {
        count(u, edge, forward, (n - 1) as nat) + if u[n - 1].edge == edge && u[n - 1].forward
            == forward {
            1nat
        } else {
            0nat
        }
    }
}

/// How many passages run along the curve of `edge`.
pub open spec fn along(u: Seq<Use>, edge: u64) -> nat {
    count(u, edge, true, u.len())
}

/// How many passages run against the curve of `edge`.
pub open spec fn against(u: Seq<Use>, edge: u64) -> nat {
    count(u, edge, false, u.len())
}

/// No edge is passed more than once in either direction.
pub open spec fn is_oriented(u: Seq<Use>) -> bool {
    forall|i: int|
        0 <= i < u.len() ==> along(u, (#[trigger] u[i]).edge) <= 1 && against(u, u[i].edge) <= 1
}

/// No edge is passed more than twice.
pub open spec fn is_regular(u: Seq<Use>) -> bool {
    forall|i: int|
        0 <= i < u.len() ==> along(u, (#[trigger] u[i]).edge) + against(u, u[i].edge) <= 2
}

/// Every edge is passed exactly once in each direction.
pub open spec fn is_watertight(u: Seq<Use>) -> bool {
    forall|i: int|
        0 <= i < u.len() ==> along(u, (#[trigger] u[i]).edge) == 1 && against(u, u[i].edge) == 1
}

/// How the faces of a shell fit along their edges.
#[derive(Clone, Copy, Debug, PartialEq, Eq, Structural)]
pub enum ShellCondition {
    /// Some edge is passed more than twice.
    Irregular,
    /// No edge is passed more than twice, but some edge twice in one
    /// direction.
    Regular,
    /// No edge is passed more than once in either direction, but some edge
    /// in one direction only.
    Oriented,
    /// Every edge is passed exactly once in each direction.
    Closed,
}

/// The strongest condition that the passages meet.
pub open spec fn condition_of(u: Seq<Use>) -> ShellCondition {
    if is_watertight(u) {
        ShellCondition::Closed
    } else if is_oriented(u) {
        ShellCondition::Oriented
    } else if is_regular(u) {
        ShellCondition::Regular
    } else {
        ShellCondition::Irregular
    }
}

/// Two faces are neighbours when the boundaries of both pass through one
/// edge.
pub open spec fn face_rel(u: Seq<Use>) -> spec_fn(int, int) -> bool {
    |a: int, b: int|
        exists|i: int, j: int|
            0 <= i < u.len() && 0 <= j < u.len() && (#[trigger] u[i]).face == a && (
            #[trigger] u[j]).face == b && u[i].edge == u[j].edge
}

/// From every face every other can be reached from neighbour to neighbour.
pub open spec fn is_connected<P, C, S>(s: Seq<FaceModel<P, C, S>>) -> bool {
    forall|a: int, b: int|
        0 <= a < s.len() && 0 <= b < s.len() ==> #[trigger] joined(face_rel(uses_of(s)), a, b)
}

/// Two corners are neighbours when they lie at one vertex and an edge of
/// the one is an edge of the other. A corner is numbered by the passage
/// after which it comes.
pub open spec fn corner_rel(u: Seq<Use>) -> spec_fn(int, int) -> bool {
    |i: int, j: int|
        0 <= i < u.len() && 0 <= j < u.len() && u[i].corner == u[j].corner && (u[i].edge
            == u[j].edge || u[i].edge == u[j].after || u[i].after == u[j].edge || u[i].after
            == u[j].after)
}

/// The corners at `vertex` do not hang together: from one of them another
/// cannot be reached from neighbour to neighbour.
pub open spec fn is_singular(u: Seq<Use>, vertex: u64) -> bool {
    exists|i: int, j: int|
        0 <= i < u.len() && 0 <= j < u.len() && (#[trigger] u[i]).corner == vertex && (
        #[trigger] u[j]).corner == vertex && !joined(corner_rel(u), i, j)
}

/// No vertex of the shell is singular.
pub open spec fn is_manifold(u: Seq<Use>) -> bool {
    forall|i: int| 0 <= i < u.len() ==> !is_singular(u, (#[trigger] u[i]).corner)
}

/// A count never exceeds the number of passages looked at, and the counts
/// of the two directions together do not.
pub proof fn lemma_count_bound(u: Seq<Use>, edge: u64, n: nat)
    ensures
        count(u, edge, true, n) + count(u, edge, false, n) <= n,
    decreases n,
{
    if n > 0 {
        lemma_count_bound(u, edge, (n - 1) as nat);
    }
}

/// The first `n` of the sequences, one after the other.
pub open spec fn concat<A>(ss: Seq<Seq<A>>, n: nat) -> Seq<A>
    decreases n,
{
    if n == 0 {
        Seq::empty()
    } else {
        concat(ss, (n - 1) as nat) + ss[n - 1]
    }
}

/// The edges of a face's boundaries as its handle sees them, wire by wire.
pub open spec fn face_edges<P, C, S>(f: FaceModel<P, C, S>) -> Seq<EdgeModel<P, C>> {
    concat(f.oriented_boundaries(), f.oriented_boundaries().len())
}

/// The edges of the faces, face by face.
pub open spec fn faces_edges<P, C, S>(s: Seq<FaceModel<P, C, S>>) -> Seq<EdgeModel<P, C>> {
    concat(Seq::new(s.len(), |f: int| face_edges(s[f])), s.len())
}

/// The edges of a vector as a sequence of what they are.
pub open spec fn edge_views<P, C>(es: Seq<Edge<P, C>>) -> Seq<EdgeModel<P, C>> {
    Seq::new(es.len(), |k: int| es[k]@)
}

/// The faces of a vector as a sequence of what they are.
pub open spec fn face_views<P, C, S>(fs: Seq<Face<P, C, S>>) -> Seq<FaceModel<P, C, S>> {
    Seq::new(fs.len(), |f: int| fs[f]@)
}

/// A collection of faces.
pub struct Shell<P, C, S> {
    faces: Vec<Face<P, C, S>>,
}

impl<P, C, S> View for Shell<P, C, S> {
    type V = Seq<FaceModel<P, C, S>>;

    closed spec fn view(&self) -> Seq<FaceModel<P, C, S>> {
        face_views(self.faces@)
    }
}

impl<P, C, S> Clone for Shell<P, C, S> {
    fn clone(&self) -> (res: Self)
        ensures
            res@ == self@,
    {
        let mut faces: Vec<Face<P, C, S>> = Vec::new();
        let mut k: usize = 0;
        while k < self.faces.len()
            invariant
                k <= self.faces@.len(),
                faces@.len() == k,
                forall|i: int| 0 <= i < k ==> (#[trigger] faces@[i])@ == self.faces@[i]@,
            decreases self.faces@.len() - k,
        {
            faces.push(self.faces[k].clone());
            k += 1;
        }
        assert(face_views(faces@) =~= face_views(self.faces@));
        Shell { faces }
    }
}

/// Counts the passages through `edge`, along its curve and against it.
fn tally(u: &Vec<Use>, edge: u64) -> (t: (usize, usize))
    ensures
        t.0 == along(u@, edge),
        t.1 == against(u@, edge),
{
    let mut a: usize = 0;
    let mut b: usize = 0;
    let mut k: usize = 0;
    while k < u.len()
        invariant
            k <= u@.len(),
            a == count(u@, edge, true, k as nat),
            b == count(u@, edge, false, k as nat),
        decreases u@.len() - k,
    {
        proof {
            lemma_count_bound(u@, edge, (k + 1) as nat);
        }
        if u[k].edge == edge {
            if u[k].forward {
                a += 1;
            } else {
                b += 1;
            }
        }
        k += 1;
    }
    (a, b)
}

/// An arc between the faces of every two passages through one edge.
fn face_arcs(u: &Vec<Use>, n: usize) -> (arcs: Vec<(usize, usize)>)
    requires
        forall|i: int| 0 <= i < u@.len() ==> (#[trigger] u@[i]).face < n,
    ensures
        forall|k: int| 0 <= k < arcs@.len() ==> (#[trigger] arcs@[k]).0 < n && arcs@[k].1 < n,
        forall|a: int, b: int| #[trigger] arcs_rel(arcs@)(a, b) <==> face_rel(u@)(a, b),
{
    let mut arcs: Vec<(usize, usize)> = Vec::new();
    let mut i: usize = 0;
    while i < u.len()
        invariant
            i <= u@.len(),
            forall|i: int| 0 <= i < u@.len() ==> (#[trigger] u@[i]).face < n,
            forall|k: int| 0 <= k < arcs@.len() ==> (#[trigger] arcs@[k]).0 < n && arcs@[k].1 < n,
            forall|k: int|
                0 <= k < arcs@.len() ==> face_rel(u@)(
                    (#[trigger] arcs@[k]).0 as int,
                    arcs@[k].1 as int,
                ),
            forall|p: int, q: int|
                0 <= q <= p < i && (#[trigger] u@[p]).edge == (#[trigger] u@[q]).edge ==> arcs_rel(
                    arcs@,
                )(u@[p].face as int, u@[q].face as int),
        decreases u@.len() - i,
    {
        let mut j: usize = 0;
        while j <= i
            invariant
                i < u@.len() <= usize::MAX,
                j <= i + 1,
                forall|i: int| 0 <= i < u@.len() ==> (#[trigger] u@[i]).face < n,
                forall|k: int|
                    0 <= k < arcs@.len() ==> (#[trigger] arcs@[k]).0 < n && arcs@[k].1 < n,
                forall|k: int|
                    0 <= k < arcs@.len() ==> face_rel(u@)(
                        (#[trigger] arcs@[k]).0 as int,
                        arcs@[k].1 as int,
                    ),
                forall|p: int, q: int|
                    0 <= q <= p < i && (#[trigger] u@[p]).edge == (#[trigger] u@[q]).edge
                        ==> arcs_rel(arcs@)(u@[p].face as int, u@[q].face as int),
                forall|q: int|
                    0 <= q < j && u@[i as int].edge == (#[trigger] u@[q]).edge ==> arcs_rel(arcs@)(
                        u@[i as int].face as int,
                        u@[q].face as int,
                    ),
            decreases i + 1 - j,
        {
            if u[i].edge == u[j].edge {
                let ghost before = arcs@;
                arcs.push((u[i].face, u[j].face));
                proof {
                    let last = arcs@.len() - 1;
                    assert(arcs@[last] == (u@[i as int].face, u@[j as int].face));
                    assert forall|a: int, b: int| arcs_rel(before)(a, b) implies #[trigger] arcs_rel(
                        arcs@,
                    )(a, b) by {
                        let k = choose|k: int|
                            0 <= k < before.len() && (((#[trigger] before[k]).0 == a && before[k].1
                                == b) || (before[k].0 == b && before[k].1 == a));
                        assert(arcs@[k] == before[k]);
                    }
                    assert(arcs_rel(arcs@)(u@[i as int].face as int, u@[j as int].face as int));
                }
            }
            j += 1;
        }
        i += 1;
    }
    proof {
        assert forall|a: int, b: int| #[trigger] arcs_rel(arcs@)(a, b) <==> face_rel(u@)(a, b) by {
            if arcs_rel(arcs@)(a, b) {
                let k = choose|k: int|
                    0 <= k < arcs@.len() && (((#[trigger] arcs@[k]).0 == a && arcs@[k].1 == b) || (
                    arcs@[k].0 == b && arcs@[k].1 == a));
                assert(face_rel(u@)(arcs@[k].0 as int, arcs@[k].1 as int));
            }
            if face_rel(u@)(a, b) {
                let (p, q) = choose|p: int, q: int|
                    0 <= p < u@.len() && 0 <= q < u@.len() && (#[trigger] u@[p]).face == a && (
                    #[trigger] u@[q]).face == b && u@[p].edge == u@[q].edge;
                if q <= p {
                    assert(arcs_rel(arcs@)(u@[p].face as int, u@[q].face as int));
                } else {
                    assert(arcs_rel(arcs@)(u@[q].face as int, u@[p].face as int));
                }
            }
        }
    }
    arcs
}

/// An arc between every two corners that are neighbours.
fn corner_arcs(u: &Vec<Use>) -> (arcs: Vec<(usize, usize)>)
    ensures
        forall|k: int|
            0 <= k < arcs@.len() ==> (#[trigger] arcs@[k]).0 < u@.len() && arcs@[k].1 < u@.len(),
        forall|a: int, b: int| #[trigger] arcs_rel(arcs@)(a, b) <==> corner_rel(u@)(a, b),
{
    let n = u.len();
    let mut arcs: Vec<(usize, usize)> = Vec::new();
    let mut i: usize = 0;
    while i < n
        invariant
            n == u@.len(),
            i <= n,
            forall|k: int| 0 <= k < arcs@.len() ==> (#[trigger] arcs@[k]).0 < n && arcs@[k].1 < n,
            forall|k: int|
                0 <= k < arcs@.len() ==> corner_rel(u@)(
                    (#[trigger] arcs@[k]).0 as int,
                    arcs@[k].1 as int,
                ),
            forall|p: int, q: int|
                0 <= q <= p < i && corner_rel(u@)(p, q) ==> #[trigger] arcs_rel(arcs@)(p, q),
        decreases n - i,
    {
        let mut j: usize = 0;
        while j <= i
            invariant
                n == u@.len(),
                i < n,
                j <= i + 1,
                forall|k: int|
                    0 <= k < arcs@.len() ==> (#[trigger] arcs@[k]).0 < n && arcs@[k].1 < n,
                forall|k: int|
                    0 <= k < arcs@.len() ==> corner_rel(u@)(
                        (#[trigger] arcs@[k]).0 as int,
                        arcs@[k].1 as int,
                    ),
                forall|p: int, q: int|
                    0 <= q <= p < i && corner_rel(u@)(p, q) ==> #[trigger] arcs_rel(arcs@)(p, q),
                forall|q: int|
                    0 <= q < j && corner_rel(u@)(i as int, q) ==> #[trigger] arcs_rel(arcs@)(
                        i as int,
                        q,
                    ),
            decreases i + 1 - j,
        {
            let x = &u[i];
            let y = &u[j];
            if x.corner == y.corner && (x.edge == y.edge || x.edge == y.after || x.after == y.edge
                || x.after == y.after) {
                let ghost before = arcs@;
                arcs.push((i, j));
                proof {
                    let last = arcs@.len() - 1;
                    assert(arcs@[last] == (i, j));
                    assert forall|a: int, b: int| arcs_rel(before)(a, b) implies #[trigger] arcs_rel(
                        arcs@,
                    )(a, b) by {
                        let k = choose|k: int|
                            0 <= k < before.len() && (((#[trigger] before[k]).0 == a && before[k].1
                                == b) || (before[k].0 == b && before[k].1 == a));
                        assert(arcs@[k] == before[k]);
                    }
                    assert(arcs_rel(arcs@)(i as int, j as int));
                }
            }
            j += 1;
        }
        i += 1;
    }
    proof {
        assert forall|a: int, b: int| #[trigger] arcs_rel(arcs@)(a, b) <==> corner_rel(u@)(a, b) by {
            if arcs_rel(arcs@)(a, b) {
                let k = choose|k: int|
                    0 <= k < arcs@.len() && (((#[trigger] arcs@[k]).0 == a && arcs@[k].1 == b) || (
                    arcs@[k].0 == b && arcs@[k].1 == a));
                assert(corner_rel(u@)(arcs@[k].0 as int, arcs@[k].1 as int));
            }
            if corner_rel(u@)(a, b) {
                if b <= a {
                    assert(arcs_rel(arcs@)(a, b));
                } else {
                    assert(corner_rel(u@)(b, a));
                    assert(arcs_rel(arcs@)(b, a));
                }
            }
        }
    }
    arcs
}

/// For each corner the smallest number of a corner that can be reached from
/// it from neighbour to neighbour.
fn corner_labels(u: &Vec<Use>) -> (label: Vec<usize>)
    ensures
        is_labelling(u@.len() as int, corner_rel(u@), label@),
{
    let arcs = corner_arcs(u);
    let label = components(u.len(), &arcs);
    proof {
        let n = u@.len();
        let r = arcs_rel(arcs@);
        let cr = corner_rel(u@);
        assert forall|i: int| 0 <= i < n implies joined(cr, i, #[trigger] label@[i] as int) by {
            lemma_joined_mono(r, cr, i, label@[i] as int);
        }
        assert forall|i: int, j: int|
            #![trigger label@[i], label@[j]]
            0 <= i < n && 0 <= j < n implies ((label@[i] == label@[j]) <==> joined(cr, i, j)) by {
            if joined(r, i, j) {
                lemma_joined_mono(r, cr, i, j);
            }
            if joined(cr, i, j) {
                lemma_joined_mono(cr, r, i, j);
            }
        }
    }
    label
}

/// Whether some corner at the vertex of corner `i` cannot be reached from
/// corner `i`.
fn corner_is_torn(u: &Vec<Use>, label: &Vec<usize>, i: usize) -> (b: bool)
    requires
        i < u@.len(),
        is_labelling(u@.len() as int, corner_rel(u@), label@),
    ensures
        b == is_singular(u@, u@[i as int].corner),
{
    let n = u.len();
    let ghost rel = corner_rel(u@);
    let v = u[i].corner;
    let mut j: usize = 0;
    while j < n
        invariant
            n == u@.len(),
            i < n,
            j <= n,
            v == u@[i as int].corner,
            rel == corner_rel(u@),
            is_labelling(n as int, rel, label@),
            forall|k: int| 0 <= k < j && (#[trigger] u@[k]).corner == v ==> label@[k] == label@[i as int],
        decreases n - j,
    {
        if u[j].corner == v && label[j] != label[i] {
            proof {
                let a = label@[i as int];
                let b = label@[j as int];
                assert(!joined(rel, i as int, j as int));
            }
            return true;
        }
        j += 1;
    }
    proof {
        assert forall|a: int, b: int|
            0 <= a < n && 0 <= b < n && (#[trigger] u@[a]).corner == v && (#[trigger] u@[b]).corner
                == v implies joined(rel, a, b) by {
            let x = label@[a];
            let y = label@[b];
        }
    }
    false
}

/// No face before `i` is joined to face `i`.
pub open spec fn is_root(rel: spec_fn(int, int) -> bool, i: int) -> bool {
    forall|j: int| 0 <= j < i ==> !#[trigger] joined(rel, i, j)
}

/// The positions below `n` that are the first of their component, in order.
pub open spec fn roots(rel: spec_fn(int, int) -> bool, n: nat) -> Seq<int>
    decreases n,
{
    if n == 0 {
        Seq::empty()
    } else if is_root(rel, n - 1) {
        roots(rel, (n - 1) as nat).push(n - 1)
    } else {
        roots(rel, (n - 1) as nat)
    }
}

/// Those of the first `n` faces that are joined to `root`, in order.
pub open spec fn members<F>(s: Seq<F>, rel: spec_fn(int, int) -> bool, root: int, n: nat) -> Seq<F>
    decreases n,
{
    if n == 0 {
        Seq::empty()
    } else if joined(rel, root, n - 1) {
        members(s, rel, root, (n - 1) as nat).push(s[n - 1])
    } else {
        members(s, rel, root, (n - 1) as nat)
    }
}

impl<P, C, S> Shell<P, C, S> {
    /// The shell without faces.
    pub fn new() -> (s: Shell<P, C, S>)
        ensures
            s@.len() == 0,
    {
        Shell { faces: Vec::new() }
    }

    /// The shell of the given faces, in the given order.
    pub fn from_faces(faces: Vec<Face<P, C, S>>) -> (s: Shell<P, C, S>)
        ensures
            s@ == face_views(faces@),
    {
        Shell { faces }
    }

    /// Adds a face at the end.
    pub fn push(&mut self, face: Face<P, C, S>)
        ensures
            final(self)@ == old(self)@.push(face@),
    {
        self.faces.push(face);
        assert(self@ =~= old(self)@.push(face@));
    }

    /// Adds the faces of `other` at the end, in their order.
    pub fn extend(&mut self, other: Shell<P, C, S>)
        ensures
            final(self)@ == old(self)@ + other@,
    {
        let ghost added = other@;
        let mut faces = other.faces;
        self.faces.append(&mut faces);
        assert(self@ =~= old(self)@ + added);
    }

    /// The number of faces.
    pub fn len(&self) -> (n: usize)
        ensures
            n == self@.len(),
    {
        self.faces.len()
    }

    /// Whether the shell has no face.
    pub fn is_empty(&self) -> (b: bool)
        ensures
            b == (self@.len() == 0),
    {
        self.faces.len() == 0
    }

    /// The faces in order.
    pub fn faces(&self) -> (fs: &Vec<Face<P, C, S>>)
        ensures
            face_views(fs@) == self@,
    {
        &self.faces
    }

    /// The face at position `k`.
    pub fn face(&self, k: usize) -> (f: &Face<P, C, S>)
        requires
            k < self@.len(),
        ensures
            f@ == self@[k as int],
    {
        &self.faces[k]
    }

    /// The edges of the boundaries of the faces as the faces' handles see
    /// them: face by face, wire by wire.
    pub fn edge_iter(&self) -> (es: Vec<Edge<P, C>>)
        ensures
            edge_views(es@) == faces_edges(self@),
    {
        let ghost per_face = Seq::new(self@.len(), |f: int| face_edges(self@[f]));
        let mut es: Vec<Edge<P, C>> = Vec::new();
        let mut f: usize = 0;
        while f < self.faces.len()
            invariant
                f <= self.faces@.len(),
                per_face == Seq::new(self@.len(), |f: int| face_edges(self@[f])),
                edge_views(es@) == concat(per_face, f as nat),
            decreases self.faces@.len() - f,
        {
            let ws = self.faces[f].boundaries();
            let ghost b = self@[f as int].oriented_boundaries();
            let ghost base = edge_views(es@);
            assert(self@[f as int] == self.faces@[f as int]@);
            let mut w: usize = 0;
            while w < ws.len()
                invariant
                    w <= ws@.len(),
                    wire_views(ws@) == b,
                    edge_views(es@) == base + concat(b, w as nat),
                decreases ws@.len() - w,
            {
                let wire = ws[w].edges();
                let ghost start = edge_views(es@);
                let ghost this = b[w as int];
                assert(wire_views(ws@)[w as int] == ws@[w as int]@);
                let mut k: usize = 0;
                while k < wire.len()
                    invariant
                        k <= wire@.len(),
                        wire@.len() == this.len(),
                        forall|i: int| 0 <= i < wire@.len() ==> (#[trigger] wire@[i])@ == this[i],
                        edge_views(es@) == start + this.subrange(0, k as int),
                    decreases wire@.len() - k,
                {
                    let ghost before = edge_views(es@);
                    es.push(wire[k].clone());
                    assert(edge_views(es@) =~= before.push(this[k as int]));
                    assert(edge_views(es@) =~= start + this.subrange(0, k + 1));
                    k += 1;
                }
                assert(this.subrange(0, wire@.len() as int) =~= this);
                assert(edge_views(es@) =~= base + concat(b, (w + 1) as nat));
                w += 1;
            }
            assert(b.len() == ws@.len());
            assert(per_face[f as int] == concat(b, b.len()));
            f += 1;
        }
        es
    }

    /// The vertex at which each edge of `edge_iter` starts, in that order.
    pub fn vertex_iter(&self) -> (vs: Vec<Vertex<P>>)
        ensures
            vs@.len() == faces_edges(self@).len(),
            forall|k: int| 0 <= k < vs@.len() ==> (#[trigger] vs@[k])@ == faces_edges(self@)[k].front(),
    {
        let es = self.edge_iter();
        let mut vs: Vec<Vertex<P>> = Vec::new();
        let mut k: usize = 0;
        while k < es.len()
            invariant
                k <= es@.len(),
                vs@.len() == k,
                edge_views(es@) == faces_edges(self@),
                forall|i: int| 0 <= i < k ==> (#[trigger] vs@[i])@ == faces_edges(self@)[i].front(),
            decreases es@.len() - k,
        {
            assert(edge_views(es@)[k as int] == es@[k as int]@);
            vs.push(es[k].front().clone());
            k += 1;
        }
        assert(edge_views(es@).len() == es@.len());
        vs
    }

    /// Turns every face to its other side.
    pub fn invert_faces(&mut self)
        ensures
            final(self)@ == Seq::new(old(self)@.len(), |k: int| old(self)@[k].inverse()),
    {
        let n = self.faces.len();
        let mut faces: Vec<Face<P, C, S>> = Vec::new();
        let mut k: usize = 0;
        while k < n
            invariant
                n == self.faces@.len(),
                k <= n,
                self.faces@ == old(self).faces@,
                faces@.len() == k,
                forall|i: int| 0 <= i < k ==> (#[trigger] faces@[i])@ == self.faces@[i]@.inverse(),
            decreases n - k,
        {
            faces.push(self.faces[k].inverse());
            k += 1;
        }
        self.faces = faces;
        assert(self@ =~= Seq::new(old(self)@.len(), |k: int| old(self)@[k].inverse()));
    }

    /// Every passage of a boundary through an edge.
    pub fn uses(&self) -> (u: Vec<Use>)
        ensures
            u@ == uses_of(self@),
            forall|i: int| 0 <= i < u@.len() ==> (#[trigger] u@[i]).face < self@.len(),
    {
        self.uses_and_corners().0
    }

    /// Every passage of a boundary through an edge, and with each the
    /// vertex at which the wire leaves the edge.
    pub fn uses_and_corners(&self) -> (r: (Vec<Use>, Vec<Vertex<P>>))
        ensures
            r.0@ == uses_of(self@),
            forall|i: int| 0 <= i < r.0@.len() ==> (#[trigger] r.0@[i]).face < self@.len(),
            r.1@.len() == r.0@.len(),
            forall|i: int| 0 <= i < r.1@.len() ==> (#[trigger] r.1@[i])@.id == r.0@[i].corner,
    {
        let mut u: Vec<Use> = Vec::new();
        let mut cv: Vec<Vertex<P>> = Vec::new();
        let mut f: usize = 0;
        while f < self.faces.len()
            invariant
                f <= self.faces@.len(),
                u@ == faces_uses(self@, f as nat),
                forall|i: int| 0 <= i < u@.len() ==> (#[trigger] u@[i]).face < self@.len(),
                cv@.len() == u@.len(),
                forall|i: int| 0 <= i < cv@.len() ==> (#[trigger] cv@[i])@.id == u@[i].corner,
            decreases self.faces@.len() - f,
        {
            let face = &self.faces[f];
            let ws = face.absolute_boundaries();
            let fwd = face.orientation();
            let ghost b = face@.boundaries;
            let ghost base = u@;
            assert(self@[f as int] == face@);
            let mut w: usize = 0;
            while w < ws.len()
                invariant
                    f < self.faces@.len(),
                    w <= ws@.len(),
                    ws@.len() == b.len(),
                    forall|i: int| 0 <= i < ws@.len() ==> (#[trigger] ws@[i])@ == b[i],
                    u@ == base + wires_uses(b, f as int, fwd, w as nat),
                    forall|i: int| 0 <= i < u@.len() ==> (#[trigger] u@[i]).face < self@.len(),
                    cv@.len() == u@.len(),
                    forall|i: int| 0 <= i < cv@.len() ==> (#[trigger] cv@[i])@.id == u@[i].corner,
                decreases ws@.len() - w,
            {
                let es = ws[w].edges();
                let len = es.len();
                let ghost wire = b[w as int];
                let ghost start = u@;
                let mut k: usize = 0;
                while k < len
                    invariant
                        f < self.faces@.len(),
                        k <= len,
                        len == es@.len(),
                        len == wire.len(),
                        forall|i: int| 0 <= i < len ==> (#[trigger] es@[i])@ == wire[i],
                        u@ == start + wire_uses(wire, f as int, fwd).subrange(0, k as int),
                        forall|i: int| 0 <= i < u@.len() ==> (#[trigger] u@[i]).face < self@.len(),
                        cv@.len() == u@.len(),
                        forall|i: int|
                            0 <= i < cv@.len() ==> (#[trigger] cv@[i])@.id == u@[i].corner,
                    decreases len - k,
                {
                    let e = &es[k];
                    let nxt = if k + 1 < len {
                        k + 1
                    } else {
                        0
                    };
                    let item = Use {
                        edge: e.id(),
                        forward: e.orientation() == fwd,
                        face: f,
                        corner: e.back().id(),
                        after: es[nxt].id(),
                    };
                    u.push(item);
                    cv.push(e.back().clone());
                    proof {
                        let all = wire_uses(wire, f as int, fwd);
                        assert(all[k as int] == item);
                        assert(all.subrange(0, k + 1) =~= all.subrange(0, k as int).push(item));
                        assert(u@ =~= start + all.subrange(0, k + 1));
                    }
                    k += 1;
                }
                proof {
                    let all = wire_uses(wire, f as int, fwd);
                    assert(all.subrange(0, len as int) =~= all);
                    assert(u@ =~= base + wires_uses(b, f as int, fwd, (w + 1) as nat));
                }
                w += 1;
            }
            assert(u@ =~= faces_uses(self@, (f + 1) as nat));
            f += 1;
        }
        (u, cv)
    }

    /// The strongest condition that the shell meets.
    pub fn shell_condition(&self) -> (c: ShellCondition)
        ensures
            c == condition_of(uses_of(self@)),
    {
        let u = self.uses();
        let mut oriented = true;
        let mut regular = true;
        let mut watertight = true;
        let mut i: usize = 0;
        while i < u.len()
            invariant
                i <= u@.len(),
                oriented == (forall|k: int|
                    0 <= k < i ==> along(u@, (#[trigger] u@[k]).edge) <= 1 && against(
                        u@,
                        u@[k].edge,
                    ) <= 1),
                regular == (forall|k: int|
                    0 <= k < i ==> along(u@, (#[trigger] u@[k]).edge) + against(u@, u@[k].edge)
                        <= 2),
                watertight == (forall|k: int|
                    0 <= k < i ==> along(u@, (#[trigger] u@[k]).edge) == 1 && against(
                        u@,
                        u@[k].edge,
                    ) == 1),
            decreases u@.len() - i,
        {
            let t = tally(&u, u[i].edge);
            proof {
                lemma_count_bound(u@, u@[i as int].edge, u@.len());
            }
            if t.0 > 1 || t.1 > 1 {
                oriented = false;
            }
            if t.0 + t.1 > 2 {
                regular = false;
            }
            if t.0 != 1 || t.1 != 1 {
                watertight = false;
            }
            i += 1;
        }
        if watertight {
            ShellCondition::Closed
        } else if oriented {
            ShellCondition::Oriented
        } else if regular {
            ShellCondition::Regular
        } else {
            ShellCondition::Irregular
        }
    }

    /// For each face the smallest position of a face that can be reached
    /// from it from neighbour to neighbour.
    pub fn component_labels(&self) -> (label: Vec<usize>)
        ensures
            is_labelling(self@.len() as int, face_rel(uses_of(self@)), label@),
    {
        let u = self.uses();
        let n = self.faces.len();
        let arcs = face_arcs(&u, n);
        let label = components(n, &arcs);
        proof {
            let r = arcs_rel(arcs@);
            let fr = face_rel(u@);
            assert forall|i: int| 0 <= i < n implies joined(fr, i, #[trigger] label@[i] as int) by {
                lemma_joined_mono(r, fr, i, label@[i] as int);
            }
            assert forall|i: int, j: int|
                #![trigger label@[i], label@[j]]
                0 <= i < n && 0 <= j < n implies ((label@[i] == label@[j]) <==> joined(fr, i, j)) by {
                if joined(r, i, j) {
                    lemma_joined_mono(r, fr, i, j);
                }
                if joined(fr, i, j) {
                    lemma_joined_mono(fr, r, i, j);
                }
            }
        }
        label
    }

    /// The shell cut into its components: two faces are in the same
    /// component exactly when one can be reached from the other from
    /// neighbour to neighbour. The components come in the order of their
    /// first faces, and the faces of each in the order they have in the shell.
    pub fn connected_components(&self) -> (cs: Vec<Shell<P, C, S>>)
        ensures
            cs@.len() == roots(face_rel(uses_of(self@)), self@.len()).len(),
            forall|c: int|
                0 <= c < cs@.len() ==> (#[trigger] cs@[c])@ == members(
                    self@,
                    face_rel(uses_of(self@)),
                    roots(face_rel(uses_of(self@)), self@.len())[c],
                    self@.len(),
                ),
    {
        let label = self.component_labels();
        let n = self.faces.len();
        let ghost rel = face_rel(uses_of(self@));
        let mut cs: Vec<Shell<P, C, S>> = Vec::new();
        let mut r: usize = 0;
        while r < n
            invariant
                n == self.faces@.len(),
                n == self@.len(),
                r <= n,
                rel == face_rel(uses_of(self@)),
                is_labelling(n as int, rel, label@),
                cs@.len() == roots(rel, r as nat).len(),
                forall|c: int|
                    0 <= c < cs@.len() ==> (#[trigger] cs@[c])@ == members(
                        self@,
                        rel,
                        roots(rel, r as nat)[c],
                        n as nat,
                    ),
            decreases n - r,
        {
            proof {
                // A face is the first of its component exactly when it is
                // its own label.
                if label@[r as int] == r {
                    assert forall|j: int| 0 <= j < r implies !#[trigger] joined(rel, r as int, j) by {
                        let a = label@[r as int];
                        let b = label@[j];
                    }
                } else {
                    let l = label@[r as int];
                    assert(joined(rel, r as int, l as int));
                }
            }
            if label[r] == r {
                let mut faces: Vec<Face<P, C, S>> = Vec::new();
                let mut j: usize = 0;
                while j < n
                    invariant
                        n == self.faces@.len(),
                        n == self@.len(),
                        r < n,
                        j <= n,
                        rel == face_rel(uses_of(self@)),
                        is_labelling(n as int, rel, label@),
                        label@[r as int] == r,
                        face_views(faces@) == members(self@, rel, r as int, j as nat),
                    decreases n - j,
                {
                    proof {
                        let a = label@[r as int];
                        let b = label@[j as int];
                    }
                    if label[j] == r {
                        let ghost before = face_views(faces@);
                        faces.push(self.faces[j].clone());
                        assert(face_views(faces@) =~= before.push(self@[j as int]));
                    }
                    j += 1;
                }
                let ghost before = cs@;
                cs.push(Shell { faces });
                proof {
                    let now = roots(rel, (r + 1) as nat);
                    assert(now == roots(rel, r as nat).push(r as int));
                    assert forall|c: int| 0 <= c < cs@.len() implies (#[trigger] cs@[c])@ == members(
                        self@,
                        rel,
                        now[c],
                        n as nat,
                    ) by {
                        if c < before.len() {
                            assert(cs@[c] == before[c]);
                        }
                    }
                }
            }
            r += 1;
        }
        cs
    }

    /// The vertices at which the shell is pinched: those whose corners do
    /// not hang together. Each is given once.
    pub fn singular_vertices(&self) -> (vs: Vec<Vertex<P>>)
        ensures
            forall|k: int|
                0 <= k < vs@.len() ==> is_singular(uses_of(self@), (#[trigger] vs@[k])@.id),
            forall|v: u64|
                is_singular(uses_of(self@), v) ==> exists|k: int|
                    0 <= k < vs@.len() && (#[trigger] vs@[k])@.id == v,
            forall|k: int, l: int|
                0 <= k < l < vs@.len() ==> (#[trigger] vs@[k])@.id != (#[trigger] vs@[l])@.id,
            (vs@.len() == 0) == is_manifold(uses_of(self@)),
    {
        let (u, cv) = self.uses_and_corners();
        let label = corner_labels(&u);
        let n = u.len();
        let mut vs: Vec<Vertex<P>> = Vec::new();
        let mut i: usize = 0;
        while i < n
            invariant
                n == u@.len(),
                i <= n,
                u@ == uses_of(self@),
                cv@.len() == n,
                forall|k: int| 0 <= k < n ==> (#[trigger] cv@[k])@.id == u@[k].corner,
                is_labelling(n as int, corner_rel(u@), label@),
                forall|k: int| 0 <= k < vs@.len() ==> is_singular(u@, (#[trigger] vs@[k])@.id),
                forall|k: int|
                    0 <= k < vs@.len() ==> exists|m: int|
                        0 <= m < i && (#[trigger] u@[m]).corner == (#[trigger] vs@[k])@.id,
                forall|m: int|
                    0 <= m < i && is_singular(u@, (#[trigger] u@[m]).corner) ==> exists|k: int|
                        0 <= k < vs@.len() && (#[trigger] vs@[k])@.id == u@[m].corner,
                forall|k: int, l: int|
                    0 <= k < l < vs@.len() ==> (#[trigger] vs@[k])@.id != (#[trigger] vs@[l])@.id,
            decreases n - i,
        {
            let v = u[i].corner;
            // Whether the vertex was met at an earlier corner.
            let mut met = false;
            let mut j: usize = 0;
            while j < i
                invariant
                    n == u@.len(),
                    j <= i < n,
                    v == u@[i as int].corner,
                    met == (exists|m: int| 0 <= m < j && (#[trigger] u@[m]).corner == v),
                decreases i - j,
            {
                if u[j].corner == v {
                    met = true;
                }
                j += 1;
            }
            if !met && corner_is_torn(&u, &label, i) {
                let ghost before = vs@;
                vs.push(cv[i].clone());
                proof {
                    assert(vs@[vs@.len() - 1]@.id == v);
                    assert forall|k: int| 0 <= k < vs@.len() implies exists|m: int|
                        0 <= m < i + 1 && (#[trigger] u@[m]).corner == (#[trigger] vs@[k])@.id by {
                        if k < before.len() {
                            assert(vs@[k] == before[k]);
                            let m = choose|m: int|
                                0 <= m < i && (#[trigger] u@[m]).corner == before[k]@.id;
                            assert(u@[m].corner == vs@[k]@.id);
                        } else {
                            assert(u@[i as int].corner == vs@[k]@.id);
                        }
                    }
                    assert forall|m: int|
                        0 <= m < i + 1 && is_singular(u@, (#[trigger] u@[m]).corner) implies exists|
                        k: int,
                    |
                        0 <= k < vs@.len() && (#[trigger] vs@[k])@.id == u@[m].corner by {
                        if m < i {
                            let k = choose|k: int|
                                0 <= k < before.len() && (#[trigger] before[k])@.id == u@[m].corner;
                            assert(vs@[k] == before[k]);
                        } else {
                            assert(vs@[vs@.len() - 1]@.id == u@[m].corner);
                        }
                    }
                    assert forall|k: int, l: int| 0 <= k < l < vs@.len() implies (
                    #[trigger] vs@[k])@.id != (#[trigger] vs@[l])@.id by {
                        assert(vs@[k] == before[k]);
                        if l < before.len() {
                            assert(vs@[l] == before[l]);
                        } else {
                            let m = choose|m: int|
                                0 <= m < i && (#[trigger] u@[m]).corner == before[k]@.id;
                        }
                    }
                    assert forall|k: int| 0 <= k < vs@.len() implies is_singular(
                        u@,
                        (#[trigger] vs@[k])@.id,
                    ) by {
                        if k < before.len() {
                            assert(vs@[k] == before[k]);
                        }
                    }
                }
            } else {
                proof {
                    assert forall|m: int|
                        0 <= m < i + 1 && is_singular(u@, (#[trigger] u@[m]).corner) implies exists|
                        k: int,
                    |
                        0 <= k < vs@.len() && (#[trigger] vs@[k])@.id == u@[m].corner by {
                        if m == i {
                            // Singular, so met before.
                            let m0 = choose|m0: int| 0 <= m0 < i && (#[trigger] u@[m0]).corner == v;
                            assert(is_singular(u@, u@[m0].corner));
                        }
                    }
                    assert forall|k: int| 0 <= k < vs@.len() implies exists|m: int|
                        0 <= m < i + 1 && (#[trigger] u@[m]).corner == (#[trigger] vs@[k])@.id by {
                        let m = choose|m: int|
                            0 <= m < i && (#[trigger] u@[m]).corner == vs@[k]@.id;
                        assert(u@[m].corner == vs@[k]@.id);
                    }
                }
            }
            i += 1;
        }
        proof {
            assert forall|v: u64| is_singular(u@, v) implies exists|k: int|
                0 <= k < vs@.len() && (#[trigger] vs@[k])@.id == v by {
                let (a, b) = choose|a: int, b: int|
                    0 <= a < u@.len() && 0 <= b < u@.len() && (#[trigger] u@[a]).corner == v && (
                    #[trigger] u@[b]).corner == v && !joined(corner_rel(u@), a, b);
                assert(is_singular(u@, u@[a].corner));
            }
            if vs@.len() == 0 {
                assert(is_manifold(u@));
            } else {
                let m = choose|m: int| 0 <= m < n && (#[trigger] u@[m]).corner == vs@[0]@.id;
                assert(is_singular(u@, u@[m].corner));
            }
        }
        vs
    }

    /// Whether every face can be reached from every other from neighbour
    /// to neighbour.
    pub fn is_connected(&self) -> (b: bool)
        ensures
            b == is_connected(self@),
    {
        let label = self.component_labels();
        let ghost rel = face_rel(uses_of(self@));
        let mut i: usize = 0;
        while i < label.len()
            invariant
                i <= label@.len(),
                label@.len() == self@.len(),
                rel == face_rel(uses_of(self@)),
                is_labelling(self@.len() as int, rel, label@),
                forall|k: int| 0 <= k < i ==> label@[k] == 0,
            decreases label@.len() - i,
        {
            if label[i] != 0 {
                proof {
                    assert(label@[0] <= 0);
                    let a = label@[i as int];
                    let b = label@[0];
                    assert(!joined(rel, i as int, 0));
                }
                return false;
            }
            i += 1;
        }
        proof {
            assert forall|a: int, b: int|
                0 <= a < self@.len() && 0 <= b < self@.len() implies #[trigger] joined(
                rel,
                a,
                b,
            ) by {
                let x = label@[a];
                let y = label@[b];
            }
        }
        true
    }
}

} // verus!
