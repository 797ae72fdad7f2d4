use truck_brep::edge::Edge;
use truck_brep::face::Face;
use truck_brep::ident::IdSource;
use truck_brep::polyline::{winding, Crossing, Polyline};
use truck_brep::polymesh::{triangulation_into_polymesh, Faces, PolygonMesh, Vertex as Corner};
use truck_brep::shell::{Shell, ShellCondition};
use truck_brep::tessellation::tessellation;
use truck_brep::vertex::Vertex;
use truck_brep::wire::Wire;

type Point = [f64; 3];

/// A straight curve, by its ends.
#[derive(Clone, Debug, PartialEq)]
struct Line(Point, Point);

/// The points of a straight curve cut into `n` pieces.
fn cut_line(line: &Line, n: usize) -> Vec<Point> {
    (0..=n)
        .map(|i| {
            let t = i as f64 / n as f64;
            [
                line.0[0] + t * (line.1[0] - line.0[0]),
                line.0[1] + t * (line.1[1] - line.0[1]),
                line.0[2] + t * (line.1[2] - line.0[2]),
            ]
        })
        .collect()
}

/// Two squares in the plane z = 0 that meet along the edge from (1, 0) to
/// (1, 1).
fn two_squares(ids: &mut IdSource) -> Shell<Point, Line, u8> {
    let p: Vec<Point> = vec![
        [0.0, 0.0, 0.0],
        [1.0, 0.0, 0.0],
        [1.0, 1.0, 0.0],
        [0.0, 1.0, 0.0],
        [2.0, 0.0, 0.0],
        [2.0, 1.0, 0.0],
    ];
    let v = Vertex::news(ids, p.clone());
    let mut edge = |a: usize, b: usize| Edge::new(ids, &v[a], &v[b], Line(p[a], p[b]));
    let e01 = edge(0, 1);
    let e12 = edge(1, 2);
    let e23 = edge(2, 3);
    let e30 = edge(3, 0);
    let e14 = edge(1, 4);
    let e45 = edge(4, 5);
    let e52 = edge(5, 2);
    let left = Wire::from_edges(vec![e01, e12.clone(), e23, e30]).unwrap();
    let right = Wire::from_edges(vec![e14, e45, e52, e12.inverse()]).unwrap();
    let left = Face::new(ids, vec![left], 1u8);
    let right = Face::new(ids, vec![right], 2u8);
    Shell::from_faces(vec![left, right])
}

#[test]
fn shared_edge_is_cut_once() {
    let mut ids = IdSource::new();
    let shell = two_squares(&mut ids);
    let before = ids.issued_count();
    let meshed: Shell<Point, Vec<Point>, usize> = tessellation(
        &shell,
        &mut ids,
        &|c: &Line| cut_line(c, 20),
        &|_: &u8, wires: &Vec<Wire<Point, Vec<Point>>>| Some(wires[0].len()),
    )
    .unwrap();
    assert_eq!(meshed.len(), 2);
    assert_eq!(meshed.shell_condition(), shell.shell_condition());
    assert_eq!(meshed.shell_condition(), ShellCondition::Oriented);
    // 6 vertices, 7 edges, 2 faces.
    assert_eq!(ids.issued_count(), before + 15);
    let left = &meshed.face(0).absolute_boundaries()[0];
    let right = &meshed.face(1).absolute_boundaries()[0];
    let shared = left.edge(1);
    let again = right.edge(3);
    assert_eq!(shared.id(), again.id());
    assert!(shared.orientation());
    assert!(!again.orientation());
    assert_eq!(shared.curve().len(), 21);
    assert_eq!(shared.curve(), again.curve());
    assert_eq!(shared.curve()[0], [1.0, 0.0, 0.0]);
    assert_eq!(shared.curve()[20], [1.0, 1.0, 0.0]);
    // Seen from the right square, the polyline runs the other way.
    let seen: Vec<Point> = again.curve().iter().rev().cloned().collect();
    assert_eq!(seen[0], [1.0, 1.0, 0.0]);
    assert_eq!(*again.front().point(), [1.0, 1.0, 0.0]);
    assert_eq!(*meshed.face(0).surface(), 4);
    // The same edges are shared.
    let old: Vec<u64> = shell.edge_iter().iter().map(|e| e.id()).collect();
    let new: Vec<u64> = meshed.edge_iter().iter().map(|e| e.id()).collect();
    for i in 0..old.len() {
        for j in 0..old.len() {
            assert_eq!(old[i] == old[j], new[i] == new[j]);
        }
    }
}

#[test]
fn no_mesh_for_one_face_is_no_mesh_at_all() {
    let mut ids = IdSource::new();
    let shell = two_squares(&mut ids);
    let meshed: Option<Shell<Point, Vec<Point>, u8>> = tessellation(
        &shell,
        &mut ids,
        &|c: &Line| cut_line(c, 2),
        &|s: &u8, _: &Vec<Wire<Point, Vec<Point>>>| if *s == 2 { None } else { Some(*s) },
    );
    assert!(meshed.is_none());
}

#[test]
fn inverted_face_stays_inverted() {
    let mut ids = IdSource::new();
    let shell = two_squares(&mut ids);
    let turned = Shell::from_faces(vec![shell.face(0).inverse(), shell.face(1).clone()]);
    let meshed: Shell<Point, Vec<Point>, u8> = tessellation(
        &turned,
        &mut ids,
        &|c: &Line| cut_line(c, 2),
        &|s: &u8, _: &Vec<Wire<Point, Vec<Point>>>| Some(*s),
    )
    .unwrap();
    assert!(!meshed.face(0).orientation());
    assert!(meshed.face(1).orientation());
    assert_eq!(meshed.shell_condition(), ShellCondition::Regular);
    assert_eq!(turned.shell_condition(), ShellCondition::Regular);
}

/// How the segment from `a` to `b` lies to the ray that goes up from `c`.
fn crossing(a: &[f64; 2], b: &[f64; 2], c: [f64; 2], tol: f64) -> Crossing {
    let a = [a[0] - c[0], a[1] - c[1]];
    let b = [b[0] - c[0], b[1] - c[1]];
    let x = (a[0] * b[1] - a[1] * b[0]) * (b[1] - a[1]);
    if f64::abs(x) < tol && a[1] * b[1] < 0.0 {
        Crossing::OnBoundary
    } else if x > tol && a[1] <= -tol && b[1] > tol {
        Crossing::Up
    } else if x > tol && a[1] >= tol && b[1] < -tol {
        Crossing::Down
    } else {
        Crossing::Miss
    }
}

fn unit_square() -> Polyline<[f64; 2]> {
    let mut line = Polyline::new();
    line.add_loop(vec![[0.0, 0.0], [1.0, 0.0], [1.0, 1.0], [0.0, 1.0]]);
    line
}

#[test]
fn point_in_unit_square() {
    let line = unit_square();
    assert_eq!(line.positions().len(), 4);
    assert_eq!(line.indices(), &vec![(0, 1), (1, 2), (2, 3), (3, 0)]);
    let tol = 1e-9;
    let inside = |c: [f64; 2]| line.encloses(&|a: &[f64; 2], b: &[f64; 2]| crossing(a, b, c, tol));
    assert!(inside([0.5, 0.5]));
    assert!(!inside([1.5, 0.5]));
    assert!(!inside([0.5, 0.0]));
    assert!(!inside([1.0, 0.5]));
    assert!(inside([0.25, 0.75]));
    assert!(!inside([-0.5, 0.5]));
}

#[test]
fn point_in_mirrored_square() {
    // Mirrored about the axis x = 2, the square runs the other way round.
    let mut line = Polyline::new();
    line.add_loop(vec![[4.0, 0.0], [3.0, 0.0], [3.0, 1.0], [4.0, 1.0]]);
    let tol = 1e-9;
    let inside = |c: [f64; 2]| line.encloses(&|a: &[f64; 2], b: &[f64; 2]| crossing(a, b, c, tol));
    assert!(!inside([0.5, 0.5]));
    assert!(!inside([1.5, 0.5]));
    // The count is signed: round a square that runs clockwise it is
    // negative, and the mirrored point is not found inside.
    assert!(!inside([3.5, 0.5]));
    // Run the other way round, the mirrored square has the point inside.
    let mut line = Polyline::new();
    line.add_loop(vec![[3.0, 0.0], [4.0, 0.0], [4.0, 1.0], [3.0, 1.0]]);
    assert!(line.encloses(&|a: &[f64; 2], b: &[f64; 2]| crossing(a, b, [3.5, 0.5], tol)));
}

#[test]
fn tessellating_again_changes_nothing() {
    let mut ids = IdSource::new();
    let shell = two_squares(&mut ids);
    let once: Shell<Point, Vec<Point>, Vec<[usize; 3]>> = tessellation(
        &shell,
        &mut ids,
        &|c: &Line| cut_line(c, 4),
        &|s: &u8, wires: &Vec<Wire<Point, Vec<Point>>>| {
            Some(vec![[*s as usize, wires[0].len(), wires[0].edge(0).curve().len()]])
        },
    )
    .unwrap();
    // The polylines and the triangles are there already: they are taken
    // as they are.
    let twice: Shell<Point, Vec<Point>, Vec<[usize; 3]>> = tessellation(
        &once,
        &mut ids,
        &|c: &Vec<Point>| c.clone(),
        &|s: &Vec<[usize; 3]>, _: &Vec<Wire<Point, Vec<Point>>>| Some(s.clone()),
    )
    .unwrap();
    assert_eq!(twice.len(), once.len());
    for f in 0..once.len() {
        assert_eq!(once.face(f).surface(), twice.face(f).surface());
        let a = &once.face(f).absolute_boundaries()[0];
        let b = &twice.face(f).absolute_boundaries()[0];
        assert_eq!(a.len(), b.len());
        for k in 0..a.len() {
            assert_eq!(a.edge(k).curve(), b.edge(k).curve());
            assert_eq!(a.edge(k).orientation(), b.edge(k).orientation());
        }
    }
    assert_eq!(*once.face(1).surface(), vec![[2, 4, 5]]);
}

#[test]
fn winding_counts_crossings() {
    let (on, up, down, miss) = (Crossing::OnBoundary, Crossing::Up, Crossing::Down, Crossing::Miss);
    assert!(winding(&vec![miss, up, miss, miss]));
    assert!(!winding(&vec![miss, up, down, miss]));
    assert!(!winding(&vec![up, up, on]));
    assert!(!winding(&vec![down]));
    assert!(!winding(&vec![]));
    assert!(winding(&vec![up, down, up]));
}

#[test]
fn wire_becomes_a_closed_polyline() {
    // Two edges, each given by its points; the last point of each is
    // the first of the next.
    let edges = vec![vec![10, 11, 12], vec![12, 13, 10]];
    let mut line: Polyline<(i32, i32)> = Polyline::new();
    line.add_loop(vec![(0, 0)]);
    // What is found depends on the hint: the point before on the same
    // edge, or none.
    let search = |p: &i32, hint: Option<&(i32, i32)>| match hint {
        Some(h) => Some((*p, h.0)),
        None => Some((*p, -1)),
    };
    assert!(line.add_wire(&edges, &search));
    assert_eq!(
        line.positions(),
        &vec![(0, 0), (10, -1), (11, 10), (12, -1), (13, 12)]
    );
    assert_eq!(
        line.indices(),
        &vec![(0, 0), (1, 2), (2, 3), (3, 4), (4, 1)]
    );
    // Where nothing is found with the hint, the search goes on without.
    let shy = |p: &i32, hint: Option<&(i32, i32)>| match hint {
        Some(_) => None,
        None => Some((*p, -2)),
    };
    assert!(line.add_wire(&edges, &shy));
    assert_eq!(line.positions().len(), 9);
    assert_eq!(line.positions()[6], (11, -2));
    assert_eq!(line.indices()[8], (8, 5));
    // Where nothing is found at all, the polyline stays as it is.
    let blind = |p: &i32, _: Option<&(i32, i32)>| if *p == 13 { None } else { Some((*p, 0)) };
    assert!(!line.add_wire(&edges, &blind));
    assert_eq!(line.positions().len(), 9);
    assert_eq!(line.indices().len(), 9);
    let names: Vec<usize> = (0..9).map(|i| 100 + i).collect();
    let constraints = line.constraints(&names);
    assert_eq!(constraints[4], (104, 101));
    assert_eq!(constraints.len(), 9);
}

#[test]
fn faces_are_kept_by_arity() {
    let corner = |i: usize| Corner { pos: i, uv: None, nor: Some(i) };
    let mut faces = Faces::new();
    assert!(faces.is_empty());
    faces.push(vec![corner(0), corner(1), corner(2)]);
    faces.push(vec![corner(0), corner(1), corner(2), corner(3)]);
    faces.push(vec![corner(0), corner(1), corner(2), corner(3), corner(4)]);
    faces.push(vec![corner(2), corner(1), corner(0)]);
    faces.push(vec![corner(0), corner(1)]);
    assert_eq!(faces.tri_faces().len(), 2);
    assert_eq!(faces.quad_faces().len(), 1);
    assert_eq!(faces.other_faces().len(), 2);
    assert_eq!(faces.tri_faces()[1][0], corner(2));
    assert!(faces.is_within(5, 0, 5));
    assert!(!faces.is_within(4, 0, 5));
    assert!(!faces.is_within(5, 0, 4));
    let mesh: Option<PolygonMesh<u8, u8, u8>> =
        PolygonMesh::try_new(vec![0; 5], vec![], vec![0; 4], faces);
    assert!(mesh.is_none());
    let mut faces = Faces::new();
    faces.push(vec![Corner { pos: 0, uv: Some(1), nor: None }; 3]);
    assert!(!faces.is_within(1, 1, 0));
    let mesh: PolygonMesh<u8, u8, u8> =
        PolygonMesh::try_new(vec![7], vec![8, 9], vec![], faces).unwrap();
    assert_eq!(mesh.positions(), &vec![7]);
    assert_eq!(mesh.uv_coords(), &vec![8, 9]);
    assert!(mesh.normals().is_empty());
    assert_eq!(mesh.faces().tri_faces().len(), 1);
}

#[test]
fn triangles_name_their_corners_by_position() {
    // The triangulation calls its four vertices 7, 3, 9 and 5.
    let names = vec![7, 3, 9, 5];
    let triangles = vec![[7, 3, 9], [9, 3, 5], [5, 7, 9]];
    let mesh: PolygonMesh<char, u8, i8> = triangulation_into_polymesh(
        vec!['a', 'b', 'c', 'd'],
        vec![0, 1, 2, 3],
        vec![0, -1, -2, -3],
        &names,
        &triangles,
        &|j: usize| j != 1,
    );
    assert_eq!(mesh.positions(), &vec!['a', 'b', 'c', 'd']);
    let tri = mesh.faces().tri_faces();
    assert_eq!(tri.len(), 2);
    let at = |i: usize| Corner { pos: i, uv: Some(i), nor: Some(i) };
    assert_eq!(tri[0], [at(0), at(1), at(2)]);
    assert_eq!(tri[1], [at(3), at(0), at(2)]);
    assert!(mesh.faces().quad_faces().is_empty());
    assert!(mesh.faces().other_faces().is_empty());
}

/// The plane z = 0 with the parameters (u, v) = (x, y): what is found for
/// a point is the point itself.
fn on_plane(p: &Point, _: Option<&[f64; 2]>) -> Option<[f64; 2]> {
    Some([p[0], p[1]])
}

#[test]
fn flat_quadrilateral_is_cut_into_triangles() {
    let tol = 0.1;
    let corners: Vec<Point> = vec![
        [0.0, 0.0, 0.0],
        [1.0, 0.0, 0.0],
        [1.0, 1.0, 0.0],
        [0.0, 1.0, 0.0],
    ];
    // The boundary, edge by edge, each edge with both its ends.
    let edges: Vec<Vec<Point>> =
        (0..4).map(|k| cut_line(&Line(corners[k], corners[(k + 1) % 4]), 10)).collect();
    let mut line: Polyline<[f64; 2]> = Polyline::new();
    assert!(line.add_wire(&edges, &on_plane));
    assert_eq!(line.positions().len(), 40);
    assert_eq!(line.indices().len(), 40);
    assert_eq!(line.indices()[39], (39, 0));

    let mut cdt = spade::delaunay::ConstrainedDelaunayTriangulation::<
        [f64; 2],
        spade::kernels::FloatKernel,
    >::with_tree_locate();
    let names: Vec<usize> = line.positions().iter().map(|p| cdt.insert(*p)).collect();
    for (from, to) in line.constraints(&names) {
        cdt.add_constraint(from, to);
    }
    let inside = |c: [f64; 2], tol: f64| {
        line.encloses(&|a: &[f64; 2], b: &[f64; 2]| crossing(a, b, c, tol))
    };
    // The parameter grid of the plane at the spacing of the tolerance.
    for i in 0..=10 {
        for j in 0..=10 {
            let pt = [i as f64 * tol, j as f64 * tol];
            if inside(pt, 1e-6) {
                cdt.insert(pt);
            }
        }
    }
    let mut positions: Vec<Point> = Vec::new();
    let mut uv_coords: Vec<[f64; 2]> = Vec::new();
    let mut normals: Vec<Point> = Vec::new();
    let mut names: Vec<usize> = Vec::new();
    for v in cdt.vertices() {
        positions.push([(*v)[0], (*v)[1], 0.0]);
        uv_coords.push(*v);
        normals.push([0.0, 0.0, 1.0]);
        names.push(v.fix());
    }
    let mut triangles: Vec<[usize; 3]> = Vec::new();
    let mut centroids: Vec<[f64; 2]> = Vec::new();
    for face in cdt.triangles() {
        let t = face.as_triangle();
        triangles.push([t[0].fix(), t[1].fix(), t[2].fix()]);
        centroids.push([
            (t[0][0] + t[1][0] + t[2][0]) / 3.0,
            (t[0][1] + t[1][1] + t[2][1]) / 3.0,
        ]);
    }
    let mesh: PolygonMesh<Point, [f64; 2], Point> = triangulation_into_polymesh(
        positions,
        uv_coords,
        normals,
        &names,
        &triangles,
        &|j: usize| inside(centroids[j], 0.0),
    );
    let tri = mesh.faces().tri_faces();
    assert!(tri.len() >= 2);
    assert_eq!(mesh.positions().len(), mesh.uv_coords().len());
    let mut area = 0.0;
    for face in tri {
        let a = mesh.positions()[face[0].pos];
        let b = mesh.positions()[face[1].pos];
        let c = mesh.positions()[face[2].pos];
        // Every corner names its point, coordinate and normal alike.
        assert_eq!(face[0].uv, Some(face[0].pos));
        assert_eq!(face[0].nor, Some(face[0].pos));
        // No triangle has its centroid outside the square.
        let centroid = [(a[0] + b[0] + c[0]) / 3.0, (a[1] + b[1] + c[1]) / 3.0];
        assert!(centroid[0] > 0.0 && centroid[0] < 1.0);
        assert!(centroid[1] > 0.0 && centroid[1] < 1.0);
        // The triangles lie in the plane and are counted by their area.
        let twice = (b[0] - a[0]) * (c[1] - a[1]) - (b[1] - a[1]) * (c[0] - a[0]);
        assert_eq!(a[2], 0.0);
        assert_eq!(mesh.normals()[face[0].nor.unwrap()], [0.0, 0.0, 1.0]);
        area += twice.abs() / 2.0;
    }
    // Together they cover the square.
    assert!((area - 1.0).abs() < 1e-9);
}

#[test]
fn polyline_curve_runs_backwards() {
    let curve = truck_brep::polymesh::PolylineCurve(vec![1, 2, 3]);
    assert_eq!(curve.len(), 3);
    assert_eq!(curve.inverse().0, vec![3, 2, 1]);
    assert_eq!(curve.inverse().inverse().0, curve.0);
}

#[test]
fn meshes_compare_copy_and_start_empty() {
    let empty: PolygonMesh<u8, u8, u8> = PolygonMesh::default();
    assert!(empty.positions().is_empty());
    assert!(empty.faces().is_empty());
    assert_eq!(Faces::default(), Faces::new());
    let mut faces = Faces::default();
    faces.push(vec![Corner { pos: 0, uv: None, nor: None }; 3]);
    assert_ne!(faces, Faces::new());
    let mesh: PolygonMesh<u8, u8, u8> =
        PolygonMesh::try_new(vec![1], vec![], vec![], faces.clone()).unwrap();
    assert_eq!(mesh.clone(), mesh);
    assert_ne!(mesh, empty);
    assert_eq!(mesh.faces(), &faces);
    let curve = truck_brep::polymesh::PolylineCurve(vec![1, 2]);
    assert_eq!(curve.clone(), curve);
    assert_eq!(truck_brep::polymesh::PolylineCurve::<u8>::default().0, Vec::<u8>::new());
}

#[test]
fn boundary_of_a_face_becomes_one_polyline() {
    let mut ids = IdSource::new();
    let v = Vertex::news(&mut ids, vec![0, 2, 4]);
    let curve = |points: Vec<i32>| truck_brep::polymesh::PolylineCurve(points);
    let a = Edge::new(&mut ids, &v[0], &v[1], curve(vec![0, 1, 2]));
    let b = Edge::new(&mut ids, &v[2], &v[1], curve(vec![4, 3, 2]));
    let c = Edge::new(&mut ids, &v[2], &v[0], curve(vec![4, 5, 0]));
    assert_eq!(a.oriented_curve().0, vec![0, 1, 2]);
    assert_eq!(b.inverse().oriented_curve().0, vec![2, 3, 4]);
    let outer = Wire::from_edges(vec![a, b.inverse(), c]).unwrap();
    let w = Vertex::news(&mut ids, vec![10, 11]);
    let d = Edge::new(&mut ids, &w[0], &w[1], curve(vec![10, 11]));
    let e = Edge::new(&mut ids, &w[1], &w[0], curve(vec![11, 10]));
    let hole = Wire::from_edges(vec![d, e]).unwrap();
    let wires = vec![outer, hole];
    let search = |p: &i32, hint: Option<&(i32, i32)>| match hint {
        Some(h) => Some((*p, h.0)),
        None => Some((*p, -1)),
    };
    let line = truck_brep::tessellation::boundary_polyline(&wires, &search).unwrap();
    assert_eq!(
        line.positions(),
        &vec![(0, -1), (1, 0), (2, -1), (3, 2), (4, -1), (5, 4), (10, -1), (11, -1)]
    );
    assert_eq!(
        line.indices(),
        &vec![(0, 1), (1, 2), (2, 3), (3, 4), (4, 5), (5, 0), (6, 7), (7, 6)]
    );
    // Where nothing is found for a point of the second wire, there is no
    // polyline at all.
    let blind = |p: &i32, _: Option<&(i32, i32)>| if *p == 11 { None } else { Some((*p, 0)) };
    assert!(truck_brep::tessellation::boundary_polyline(&wires, &blind).is_none());
    let none: Vec<Wire<i32, truck_brep::polymesh::PolylineCurve<i32>>> = Vec::new();
    let empty = truck_brep::tessellation::boundary_polyline(&none, &search).unwrap();
    assert!(empty.positions().is_empty());
}
