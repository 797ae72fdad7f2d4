//! Polygon meshes: points, texture coordinates and normals in separate
//! arrays, and faces whose corners name them by position.
use std::collections::HashMap;
use vstd::prelude::*;

verus! {

broadcast use vstd::std_specs::hash::group_hash_axioms;

/// A corner of a face: the positions of its point, of its texture
/// coordinate and of its normal in the arrays of the mesh.
#[derive(Clone, Copy, Debug, PartialEq, Eq, Hash)]
pub struct Vertex {
    /// The position of the corner's point.
    pub pos: usize,
    /// The position of the corner's texture coordinate, if it has one.
    pub uv: Option<usize>,
    /// The position of the corner's normal, if it has one.
    pub nor: Option<usize>,
}

/// The corner that names position `i` in all three arrays.
pub open spec fn corner_at(i: int) -> Vertex {
    Vertex { pos: i as usize, uv: Some(i as usize), nor: Some(i as usize) }
}

/// The corner has its point among `np` points, and its texture coordinate
/// and its normal, if it has them, among `nu` and `nn`.
pub open spec fn corner_within(v: Vertex, np: int, nu: int, nn: int) -> bool {
    &&& v.pos < np
    &&& v.uv matches Some(i) ==> i < nu
    &&& v.nor matches Some(i) ==> i < nn
}

/// What the faces of a mesh are: the triangles, the quadrilaterals and the
/// other polygons, each kind in its order.
pub struct FacesModel {
    pub tri: Seq<Seq<Vertex>>,
    pub quad: Seq<Seq<Vertex>>,
    pub other: Seq<Seq<Vertex>>,
}

/// Every corner of every face of the sequence is within the bounds.
pub open spec fn all_within(fs: Seq<Seq<Vertex>>, np: int, nu: int, nn: int) -> bool {
    forall|f: int, c: int|
        0 <= f < fs.len() && 0 <= c < fs[f].len() ==> corner_within(#[trigger] fs[f][c], np, nu, nn)
}

impl FacesModel {
    /// Every corner of every face is within the bounds.
    pub open spec fn within(self, np: int, nu: int, nn: int) -> bool {
        all_within(self.tri, np, nu, nn) && all_within(self.quad, np, nu, nn) && all_within(
            self.other,
            np,
            nu,
            nn,
        )
    }
}

/// The faces of a polygon mesh, kept apart by their number of corners.
#[derive(Debug, PartialEq)]
pub struct Faces {
    tri_faces: Vec<[Vertex; 3]>,
    quad_faces: Vec<[Vertex; 4]>,
    other_faces: Vec<Vec<Vertex>>,
}

impl View for Faces {
    type V = FacesModel;

    closed spec fn view(&self) -> FacesModel {
        FacesModel {
            tri: Seq::new(self.tri_faces@.len(), |f: int| self.tri_faces@[f]@),
            quad: Seq::new(self.quad_faces@.len(), |f: int| self.quad_faces@[f]@),
            other: Seq::new(self.other_faces@.len(), |f: int| self.other_faces@[f]@),
        }
    }
}

/// Whether the corner is within the bounds.
fn corner_is_within(v: &Vertex, np: usize, nu: usize, nn: usize) -> (b: bool)
    ensures
        b == corner_within(*v, np as int, nu as int, nn as int),
{
    let uv_ok = match v.uv {
        Some(i) => i < nu,
        None => true,
    };
    let nor_ok = match v.nor {
        Some(i) => i < nn,
        None => true,
    };
    v.pos < np && uv_ok && nor_ok
}

impl Clone for Faces {
    fn clone(&self) -> (res: Self)
        ensures
            res@ == self@,
    {
        let mut tri_faces: Vec<[Vertex; 3]> = Vec::new();
        let mut k: usize = 0;
        while k < self.tri_faces.len()
            invariant
                k <= self.tri_faces@.len(),
                tri_faces@.len() == k,
                forall|i: int| 0 <= i < k ==> #[trigger] tri_faces@[i] == self.tri_faces@[i],
            decreases self.tri_faces@.len() - k,
        {
            let t = self.tri_faces[k];
            tri_faces.push(t);
            k += 1;
        }
        let mut quad_faces: Vec<[Vertex; 4]> = Vec::new();
        let mut k: usize = 0;
        while k < self.quad_faces.len()
            invariant
                k <= self.quad_faces@.len(),
                quad_faces@.len() == k,
                forall|i: int| 0 <= i < k ==> #[trigger] quad_faces@[i] == self.quad_faces@[i],
            decreases self.quad_faces@.len() - k,
        {
            let q = self.quad_faces[k];
            quad_faces.push(q);
            k += 1;
        }
        let mut other_faces: Vec<Vec<Vertex>> = Vec::new();
        let mut k: usize = 0;
        while k < self.other_faces.len()
            invariant
                k <= self.other_faces@.len(),
                other_faces@.len() == k,
                forall|i: int| 0 <= i < k ==> (#[trigger] other_faces@[i])@ == self.other_faces@[i]@,
            decreases self.other_faces@.len() - k,
        {
            let face = &self.other_faces[k];
            let mut copy: Vec<Vertex> = Vec::new();
            let mut c: usize = 0;
            while c < face.len()
                invariant
                    c <= face@.len(),
                    copy@.len() == c,
                    forall|i: int| 0 <= i < c ==> #[trigger] copy@[i] == face@[i],
                decreases face@.len() - c,
            {
                let v = face[c];
                copy.push(v);
                c += 1;
            }
            assert(copy@ =~= face@);
            other_faces.push(copy);
            k += 1;
        }
        let res = Faces { tri_faces, quad_faces, other_faces };
        assert(res@.tri =~= self@.tri);
        assert(res@.quad =~= self@.quad);
        assert(res@.other =~= self@.other);
        res
    }
}

impl Default for Faces {
    fn default() -> (fs: Self)
        ensures
            fs@.tri.len() == 0,
            fs@.quad.len() == 0,
            fs@.other.len() == 0,
    {
        Faces::new()
    }
}

impl Faces {
    /// No faces.
    pub fn new() -> (fs: Faces)
        ensures
            fs@.tri.len() == 0,
            fs@.quad.len() == 0,
            fs@.other.len() == 0,
    {
        Faces { tri_faces: Vec::new(), quad_faces: Vec::new(), other_faces: Vec::new() }
    }

    /// The given triangles and quadrilaterals.
    pub fn from_tri_and_quad_faces(tri_faces: Vec<[Vertex; 3]>, quad_faces: Vec<[Vertex; 4]>) -> (fs:
        Faces)
        ensures
            fs@.tri == Seq::new(tri_faces@.len(), |f: int| tri_faces@[f]@),
            fs@.quad == Seq::new(quad_faces@.len(), |f: int| quad_faces@[f]@),
            fs@.other.len() == 0,
    {
        Faces { tri_faces, quad_faces, other_faces: Vec::new() }
    }

    /// Adds a face: to the triangles if it has three corners, to the
    /// quadrilaterals if it has four, and else to the other polygons.
    pub fn push(&mut self, face: Vec<Vertex>)
        ensures
            face@.len() == 3 ==> final(self)@ == (FacesModel {
                tri: old(self)@.tri.push(face@),
                ..old(self)@
            }),
            face@.len() == 4 ==> final(self)@ == (FacesModel {
                quad: old(self)@.quad.push(face@),
                ..old(self)@
            }),
            face@.len() != 3 && face@.len() != 4 ==> final(self)@ == (FacesModel {
                other: old(self)@.other.push(face@),
                ..old(self)@
            }),
    {
        let ghost before = self@;
        if face.len() == 3 {
            let t = [face[0], face[1], face[2]];
            assert(t@ =~= face@);
            self.tri_faces.push(t);
            assert(self@.tri =~= before.tri.push(face@));
            assert(self@.quad =~= before.quad);
            assert(self@.other =~= before.other);
        } else if face.len() == 4 {
            let q = [face[0], face[1], face[2], face[3]];
            assert(q@ =~= face@);
            self.quad_faces.push(q);
            assert(self@.quad =~= before.quad.push(face@));
            assert(self@.tri =~= before.tri);
            assert(self@.other =~= before.other);
        } else {
            self.other_faces.push(face);
            assert(self@.other =~= before.other.push(face@));
            assert(self@.tri =~= before.tri);
            assert(self@.quad =~= before.quad);
        }
    }

    /// The triangles.
    pub fn tri_faces(&self) -> (fs: &Vec<[Vertex; 3]>)
        ensures
            Seq::new(fs@.len(), |f: int| fs@[f]@) == self@.tri,
    {
        &self.tri_faces
    }

    /// The quadrilaterals.
    pub fn quad_faces(&self) -> (fs: &Vec<[Vertex; 4]>)
        ensures
            Seq::new(fs@.len(), |f: int| fs@[f]@) == self@.quad,
    {
        &self.quad_faces
    }

    /// The polygons that are neither triangles nor quadrilaterals.
    pub fn other_faces(&self) -> (fs: &Vec<Vec<Vertex>>)
        ensures
            Seq::new(fs@.len(), |f: int| fs@[f]@) == self@.other,
    {
        &self.other_faces
    }

    /// Whether there is no face.
    pub fn is_empty(&self) -> (b: bool)
        ensures
            b == (self@.tri.len() == 0 && self@.quad.len() == 0 && self@.other.len() == 0),
    {
        self.tri_faces.len() == 0 && self.quad_faces.len() == 0 && self.other_faces.len() == 0
    }

    /// Whether every corner names a point among `np` points and, where it
    /// names them, a texture coordinate among `nu` and a normal among `nn`.
    pub fn is_within(&self, np: usize, nu: usize, nn: usize) -> (b: bool)
        ensures
            b == self@.within(np as int, nu as int, nn as int),
    {
        let mut f: usize = 0;
        while f < self.tri_faces.len()
            invariant
                f <= self.tri_faces@.len(),
                forall|g: int, c: int|
                    0 <= g < f && 0 <= c < self@.tri[g].len() ==> corner_within(
                        #[trigger] self@.tri[g][c],
                        np as int,
                        nu as int,
                        nn as int,
                    ),
            decreases self.tri_faces@.len() - f,
        {
            let t = &self.tri_faces[f];
            assert(self@.tri[f as int] == t@);
            let mut c: usize = 0;
            while c < 3
                invariant
                    c <= 3,
                    f < self.tri_faces@.len(),
                    self@.tri[f as int] == t@,
                    forall|d: int|
                        0 <= d < c ==> corner_within(
                            #[trigger] self@.tri[f as int][d],
                            np as int,
                            nu as int,
                            nn as int,
                        ),
                decreases 3 - c,
            {
                if !corner_is_within(&t[c], np, nu, nn) {
                    assert(!corner_within(self@.tri[f as int][c as int], np as int, nu as int, nn as int));
                    return false;
                }
                c += 1;
            }
            f += 1;
        }
        let mut f: usize = 0;
        while f < self.quad_faces.len()
            invariant
                f <= self.quad_faces@.len(),
                all_within(self@.tri, np as int, nu as int, nn as int),
                forall|g: int, c: int|
                    0 <= g < f && 0 <= c < self@.quad[g].len() ==> corner_within(
                        #[trigger] self@.quad[g][c],
                        np as int,
                        nu as int,
                        nn as int,
                    ),
            decreases self.quad_faces@.len() - f,
        {
            let q = &self.quad_faces[f];
            assert(self@.quad[f as int] == q@);
            let mut c: usize = 0;
            while c < 4
                invariant
                    c <= 4,
                    f < self.quad_faces@.len(),
                    self@.quad[f as int] == q@,
                    forall|d: int|
                        0 <= d < c ==> corner_within(
                            #[trigger] self@.quad[f as int][d],
                            np as int,
                            nu as int,
                            nn as int,
                        ),
                decreases 4 - c,
            {
                if !corner_is_within(&q[c], np, nu, nn) {
                    assert(!corner_within(self@.quad[f as int][c as int], np as int, nu as int, nn as int));
                    return false;
                }
                c += 1;
            }
            f += 1;
        }
        let mut f: usize = 0;
        while f < self.other_faces.len()
            invariant
                f <= self.other_faces@.len(),
                all_within(self@.tri, np as int, nu as int, nn as int),
                all_within(self@.quad, np as int, nu as int, nn as int),
                forall|g: int, c: int|
                    0 <= g < f && 0 <= c < self@.other[g].len() ==> corner_within(
                        #[trigger] self@.other[g][c],
                        np as int,
                        nu as int,
                        nn as int,
                    ),
            decreases self.other_faces@.len() - f,
        {
            let p = &self.other_faces[f];
            assert(self@.other[f as int] == p@);
            let mut c: usize = 0;
            while c < p.len()
                invariant
                    c <= p@.len(),
                    f < self.other_faces@.len(),
                    self@.other[f as int] == p@,
                    forall|d: int|
                        0 <= d < c ==> corner_within(
                            #[trigger] self@.other[f as int][d],
                            np as int,
                            nu as int,
                            nn as int,
                        ),
                decreases p@.len() - c,
            {
                if !corner_is_within(&p[c], np, nu, nn) {
                    assert(!corner_within(self@.other[f as int][c as int], np as int, nu as int, nn as int));
                    return false;
                }
                c += 1;
            }
            f += 1;
        }
        true
    }
}

/// What a polygon mesh is: its points, texture coordinates and normals,
/// and its faces.
pub struct MeshModel<P, U, N> {
    pub positions: Seq<P>,
    pub uv_coords: Seq<U>,
    pub normals: Seq<N>,
    pub faces: FacesModel,
}

/// A polygon mesh over points `P`, texture coordinates `U` and normals `N`.
#[derive(Debug, PartialEq)]
pub struct PolygonMesh<P, U, N> {
    positions: Vec<P>,
    uv_coords: Vec<U>,
    normals: Vec<N>,
    faces: Faces,
}

impl<P, U, N> View for PolygonMesh<P, U, N> {
    type V = MeshModel<P, U, N>;

    closed spec fn view(&self) -> MeshModel<P, U, N> {
        MeshModel {
            positions: self.positions@,
            uv_coords: self.uv_coords@,
            normals: self.normals@,
            faces: self.faces@,
        }
    }
}

impl<P: Clone, U: Clone, N: Clone> Clone for PolygonMesh<P, U, N> {
    fn clone(&self) -> (res: Self)
        ensures
            res@.faces == self@.faces,
            res@.positions.len() == self@.positions.len(),
            res@.uv_coords.len() == self@.uv_coords.len(),
            res@.normals.len() == self@.normals.len(),
            forall|i: int|
                0 <= i < self@.positions.len() ==> cloned(
                    self@.positions[i],
                    #[trigger] res@.positions[i],
                ),
            forall|i: int|
                0 <= i < self@.uv_coords.len() ==> cloned(
                    self@.uv_coords[i],
                    #[trigger] res@.uv_coords[i],
                ),
            forall|i: int|
                0 <= i < self@.normals.len() ==> cloned(self@.normals[i], #[trigger] res@.normals[i]),
    {
        proof {
            use_type_invariant(self);
        }
        PolygonMesh {
            positions: self.positions.clone(),
            uv_coords: self.uv_coords.clone(),
            normals: self.normals.clone(),
            faces: self.faces.clone(),
        }
    }
}

impl<P, U, N> Default for PolygonMesh<P, U, N> {
    fn default() -> (mesh: Self)
        ensures
            mesh@.positions.len() == 0,
            mesh@.uv_coords.len() == 0,
            mesh@.normals.len() == 0,
            mesh@.faces.tri.len() == 0,
            mesh@.faces.quad.len() == 0,
            mesh@.faces.other.len() == 0,
    {
        PolygonMesh::new(Vec::new(), Vec::new(), Vec::new(), Faces::new())
    }
}

impl<P, U, N> PolygonMesh<P, U, N> {
    /// What every mesh satisfies: the corners of its faces name what is in
    /// its arrays.
    #[verifier::type_invariant]
    pub open spec fn wf(self) -> bool {
        self@.faces.within(
            self@.positions.len() as int,
            self@.uv_coords.len() as int,
            self@.normals.len() as int,
        )
    }

    /// The mesh of the given arrays and faces, if every corner names what
    /// is in the arrays.
    pub fn try_new(positions: Vec<P>, uv_coords: Vec<U>, normals: Vec<N>, faces: Faces) -> (res:
        Option<PolygonMesh<P, U, N>>)
        ensures
            res is Some == faces@.within(
                positions@.len() as int,
                uv_coords@.len() as int,
                normals@.len() as int,
            ),
            res is Some ==> res->Some_0@ == (MeshModel {
                positions: positions@,
                uv_coords: uv_coords@,
                normals: normals@,
                faces: faces@,
            }),
    {
        if faces.is_within(positions.len(), uv_coords.len(), normals.len()) {
            Some(PolygonMesh { positions, uv_coords, normals, faces })
        } else {
            None
        }
    }

    /// The mesh of the given arrays and faces.
    pub fn new(positions: Vec<P>, uv_coords: Vec<U>, normals: Vec<N>, faces: Faces) -> (mesh:
        PolygonMesh<P, U, N>)
        requires
            faces@.within(
                positions@.len() as int,
                uv_coords@.len() as int,
                normals@.len() as int,
            ),
        ensures
            mesh@ == (MeshModel {
                positions: positions@,
                uv_coords: uv_coords@,
                normals: normals@,
                faces: faces@,
            }),
    {
        PolygonMesh { positions, uv_coords, normals, faces }
    }

    /// As `new`.
    pub fn debug_new(positions: Vec<P>, uv_coords: Vec<U>, normals: Vec<N>, faces: Faces) -> (mesh:
        PolygonMesh<P, U, N>)
        requires
            faces@.within(
                positions@.len() as int,
                uv_coords@.len() as int,
                normals@.len() as int,
            ),
        ensures
            mesh@ == (MeshModel {
                positions: positions@,
                uv_coords: uv_coords@,
                normals: normals@,
                faces: faces@,
            }),
    {
        PolygonMesh { positions, uv_coords, normals, faces }
    }

    /// The points.
    pub fn positions(&self) -> (ps: &Vec<P>)
        ensures
            ps@ == self@.positions,
    {
        &self.positions
    }

    /// The texture coordinates.
    pub fn uv_coords(&self) -> (us: &Vec<U>)
        ensures
            us@ == self@.uv_coords,
    {
        &self.uv_coords
    }

    /// The normals.
    pub fn normals(&self) -> (ns: &Vec<N>)
        ensures
            ns@ == self@.normals,
    {
        &self.normals
    }

    /// The faces. Their corners name what is in the arrays.
    pub fn faces(&self) -> (fs: &Faces)
        ensures
            fs@ == self@.faces,
            fs@.within(
                self@.positions.len() as int,
                self@.uv_coords.len() as int,
                self@.normals.len() as int,
            ),
    {
        proof {
            use_type_invariant(self);
        }
        &self.faces
    }
}

/// `names` holds `name`.
pub open spec fn has_name(names: Seq<usize>, name: usize) -> bool {
    exists|i: int| 0 <= i < names.len() && names[i] == name
}

/// A polyline curve: the points it passes, in order.
#[derive(Debug, PartialEq)]
pub struct PolylineCurve<P>(pub Vec<P>);

impl<P: Clone> Clone for PolylineCurve<P> {
    fn clone(&self) -> (res: Self)
        ensures
            res@.len() == self@.len(),
            forall|i: int| 0 <= i < self@.len() ==> cloned(self@[i], #[trigger] res@[i]),
    {
        PolylineCurve(self.0.clone())
    }
}

impl<P> Default for PolylineCurve<P> {
    fn default() -> (c: Self)
        ensures
            c@.len() == 0,
    {
        PolylineCurve(Vec::new())
    }
}

impl<P> View for PolylineCurve<P> {
    type V = Seq<P>;

    open spec fn view(&self) -> Seq<P> {
        self.0@
    }
}

impl<P> PolylineCurve<P> {
    /// The number of points.
    pub fn len(&self) -> (n: usize)
        ensures
            n == self@.len(),
    {
        self.0.len()
    }

    /// The points in the opposite order.
    pub fn inverse(&self) -> (c: PolylineCurve<P>)
        where P: Copy
        ensures
            c@.len() == self@.len(),
            forall|i: int| 0 <= i < c@.len() ==> #[trigger] c@[i] == self@[self@.len() - 1 - i],
    {
        let n = self.0.len();
        let mut points: Vec<P> = Vec::new();
        let mut k: usize = 0;
        while k < n
            invariant
                n == self.0@.len(),
                k <= n,
                points@.len() == k,
                forall|i: int| 0 <= i < k ==> #[trigger] points@[i] == self.0@[n - 1 - i],
            decreases n - k,
        {
            points.push(self.0[n - 1 - k]);
            k += 1;
        }
        PolylineCurve(points)
    }
}

/// The position at which `names` holds `name`.
pub open spec fn position_of(names: Seq<usize>, name: usize) -> int {
    choose|i: int| 0 <= i < names.len() && names[i] == name
}

/// The triangle with the corners at which `names` holds the three names.
pub open spec fn indexed(names: Seq<usize>, t: Seq<usize>) -> Seq<Vertex> {
    Seq::new(3, |c: int| corner_at(position_of(names, t[c])))
}

/// Those of the first `n` triangles that are kept, each with its corners
/// by position, in order.
pub open spec fn picked(names: Seq<usize>, ts: Seq<[usize; 3]>, kept: Seq<bool>, n: nat) -> Seq<
    Seq<Vertex>,
>
    decreases n,
{
    if n == 0 {
        Seq::empty()
    } else if kept[n - 1] {
        picked(names, ts, kept, (n - 1) as nat).push(indexed(names, ts[n - 1]@))
    } else {
        picked(names, ts, kept, (n - 1) as nat)
    }
}

/// `kept` is what `keep` answers, triangle by triangle.
pub open spec fn answers<K: Fn(usize) -> bool>(keep: K, kept: Seq<bool>, n: int) -> bool {
    kept.len() == n && forall|j: int| 0 <= j < n ==> keep.ensures((j as usize,), #[trigger] kept[j])
}

/// The mesh of a triangulation. The vertices of the triangulation come
/// with their points, texture coordinates and normals, in one order, and
/// `names` holds the name that the triangulation has for each; `triangles`
/// holds its triangles by the names of their corners. The mesh has the
/// arrays as they are given, and of the triangles those that `keep` keeps,
/// with each corner naming the position of its vertex in all three arrays.
pub fn triangulation_into_polymesh<P, U, N, K: Fn(usize) -> bool>(
    positions: Vec<P>,
    uv_coords: Vec<U>,
    normals: Vec<N>,
    names: &Vec<usize>,
    triangles: &Vec<[usize; 3]>,
    keep: &K,
) -> (mesh: PolygonMesh<P, U, N>)
    requires
        positions@.len() == names@.len(),
        uv_coords@.len() == names@.len(),
        normals@.len() == names@.len(),
        forall|i: int, j: int| 0 <= i < j < names@.len() ==> names@[i] != names@[j],
        forall|t: int, c: int|
            0 <= t < triangles@.len() && 0 <= c < 3 ==> has_name(
                names@,
                #[trigger] triangles@[t]@[c],
            ),
        forall|j: usize| keep.requires((j,)),
    ensures
        mesh@.positions == positions@,
        mesh@.uv_coords == uv_coords@,
        mesh@.normals == normals@,
        mesh@.faces.quad.len() == 0,
        mesh@.faces.other.len() == 0,
        exists|kept: Seq<bool>| #[trigger]
            answers(*keep, kept, triangles@.len() as int) && mesh@.faces.tri == picked(
                names@,
                triangles@,
                kept,
                triangles@.len(),
            ),
{
    let n = names.len();
    let mut place: HashMap<usize, usize> = HashMap::new();
    let mut i: usize = 0;
    while i < n
        invariant
            n == names@.len(),
            i <= n,
            forall|a: int, b: int| 0 <= a < b < names@.len() ==> names@[a] != names@[b],
            forall|k: int|
                0 <= k < i ==> place@.contains_key(#[trigger] names@[k]) && place@[names@[k]] == k,
            forall|h: usize| #[trigger]
                place@.contains_key(h) ==> exists|k: int| 0 <= k < i && names@[k] == h,
        decreases n - i,
    {
        let ghost before = place@;
        place.insert(names[i], i);
        proof {
            assert forall|k: int| 0 <= k < i + 1 implies place@.contains_key(#[trigger] names@[k])
                && place@[names@[k]] == k by {
                if k < i {
                    assert(before.contains_key(names@[k]));
                }
            }
            assert forall|h: usize| #[trigger] place@.contains_key(h) implies exists|k: int|
                0 <= k < i + 1 && names@[k] == h by {
                if h != names@[i as int] {
                    assert(before.contains_key(h));
                    let k = choose|k: int| 0 <= k < i && names@[k] == h;
                    assert(names@[k] == h);
                } else {
                    assert(names@[i as int] == h);
                }
            }
        }
        i += 1;
    }
    let ghost mut kept: Seq<bool> = Seq::empty();
    let mut tri_faces: Vec<[Vertex; 3]> = Vec::new();
    let mut t: usize = 0;
    while t < triangles.len()
        invariant
            n == names@.len(),
            t <= triangles@.len(),
            forall|a: int, b: int| 0 <= a < b < names@.len() ==> names@[a] != names@[b],
            forall|k: int|
                0 <= k < n ==> place@.contains_key(#[trigger] names@[k]) && place@[names@[k]] == k,
            forall|t: int, c: int|
                0 <= t < triangles@.len() && 0 <= c < 3 ==> has_name(
                    names@,
                    #[trigger] triangles@[t]@[c],
                ),
            forall|j: usize| keep.requires((j,)),
            kept.len() == t,
            forall|j: int| 0 <= j < t ==> keep.ensures((j as usize,), #[trigger] kept[j]),
            Seq::new(tri_faces@.len(), |f: int| tri_faces@[f]@) == picked(
                names@,
                triangles@,
                kept,
                t as nat,
            ),
            forall|f: int, c: int|
                0 <= f < tri_faces@.len() && 0 <= c < 3 ==> corner_within(
                    #[trigger] tri_faces@[f]@[c],
                    n as int,
                    n as int,
                    n as int,
                ),
        decreases triangles@.len() - t,
    {
        let k = keep(t);
        let ghost before_kept = kept;
        let ghost before_faces = Seq::new(tri_faces@.len(), |f: int| tri_faces@[f]@);
        proof {
            kept = kept.push(k);
            assert forall|j: int| 0 <= j < t + 1 implies keep.ensures(
                (j as usize,),
                #[trigger] kept[j],
            ) by {
                if j < t {
                    assert(kept[j] == before_kept[j]);
                }
            }
            lemma_picked_prefix(names@, triangles@, before_kept, kept, t as nat);
        }
        if k {
            let tri = &triangles[t];
            proof {
                assert forall|c: int| 0 <= c < 3 implies place@.contains_key(#[trigger] tri@[c])
                    && place@[tri@[c]] == position_of(names@, tri@[c]) by {
                    assert(has_name(names@, triangles@[t as int]@[c]));
                    let i = choose|i: int|
                        0 <= i < names@.len() && names@[i] == triangles@[t as int]@[c];
                    let p = position_of(names@, tri@[c]);
                    assert(names@[p] == tri@[c]);
                    assert(place@.contains_key(names@[p]));
                    assert(p == i) by {
                        if p < i {
                            assert(names@[p] != names@[i]);
                        } else if i < p {
                            assert(names@[i] != names@[p]);
                        }
                    }
                }
                assert(tri@[0] == tri@[0int]);
            }
            let a = *place.get(&tri[0]).unwrap();
            let b = *place.get(&tri[1]).unwrap();
            let c = *place.get(&tri[2]).unwrap();
            let face = [
                Vertex { pos: a, uv: Some(a), nor: Some(a) },
                Vertex { pos: b, uv: Some(b), nor: Some(b) },
                Vertex { pos: c, uv: Some(c), nor: Some(c) },
            ];
            let ghost done = tri_faces@;
            tri_faces.push(face);
            proof {
                assert(face@ =~= indexed(names@, tri@));
                assert(Seq::new(tri_faces@.len(), |f: int| tri_faces@[f]@) =~= before_faces.push(
                    face@,
                ));
                assert forall|f: int, c: int|
                    0 <= f < tri_faces@.len() && 0 <= c < 3 implies corner_within(
                    #[trigger] tri_faces@[f]@[c],
                    n as int,
                    n as int,
                    n as int,
                ) by {
                    if f < done.len() {
                        assert(tri_faces@[f] == done[f]);
                    } else {
                        let p = position_of(names@, tri@[c]);
                        assert(place@.contains_key(tri@[c]));
                    }
                }
            }
        }
        t += 1;
    }
    let faces = Faces::from_tri_and_quad_faces(tri_faces, Vec::new());
    proof {
        assert(answers(*keep, kept, triangles@.len() as int));
        assert forall|f: int, c: int|
            0 <= f < faces@.tri.len() && 0 <= c < faces@.tri[f].len() implies corner_within(
            #[trigger] faces@.tri[f][c],
            n as int,
            n as int,
            n as int,
        ) by {
            assert(faces@.tri[f] == tri_faces@[f]@);
        }
    }
    PolygonMesh::new(positions, uv_coords, normals, faces)
}

/// What is picked of the first triangles does not depend on what is kept
/// of the later ones.
pub proof fn lemma_picked_prefix(
    names: Seq<usize>,
    ts: Seq<[usize; 3]>,
    a: Seq<bool>,
    b: Seq<bool>,
    n: nat,
)
    requires
        n <= a.len(),
        n <= b.len(),
        forall|j: int| 0 <= j < n ==> a[j] == b[j],
    ensures
        picked(names, ts, a, n) == picked(names, ts, b, n),
    decreases n,
{
    if n > 0 {
        lemma_picked_prefix(names, ts, a, b, (n - 1) as nat);
    }
}

} // verus!
