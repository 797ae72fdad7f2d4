use std::collections::HashSet;
use truck_brep::edge::Edge;
use truck_brep::errors::Error;
use truck_brep::face::Face;
use truck_brep::ident::IdSource;
use truck_brep::shell::{Shell, ShellCondition};
use truck_brep::solid::Solid;
use truck_brep::sweep::{connect_edges, connect_vertices, connect_wires};
use truck_brep::vertex::Vertex;
use truck_brep::wire::Wire;

fn step(p: &i32) -> i32 {
    *p + 10
}

fn lift(c: &(i32, i32)) -> (i32, i32) {
    (c.0 + 10, c.1 + 10)
}

fn join(a: &i32, b: &i32) -> (i32, i32) {
    (*a, *b)
}

fn patch(c: &(i32, i32), d: &(i32, i32)) -> [i32; 4] {
    [c.0, c.1, d.0, d.1]
}

/// A square wire on the points 0, 1, 2, 3.
fn square(ids: &mut IdSource) -> (Vec<Vertex<i32>>, Wire<i32, (i32, i32)>) {
    let v = Vertex::news(ids, vec![0, 1, 2, 3]);
    let mut wire = Wire::new();
    for k in 0..4 {
        let e = Edge::new(ids, &v[k], &v[(k + 1) % 4], (k as i32, ((k + 1) % 4) as i32));
        assert!(wire.push_back(e));
    }
    (v, wire)
}

#[test]
fn vertex_sweeps_an_edge() {
    let mut ids = IdSource::new();
    let v = Vertex::new(&mut ids, 1);
    let e: Edge<i32, (i32, i32)> = v.sweep(&mut ids, &step, &join);
    assert_eq!(e.front().id(), v.id());
    assert_eq!(e.back().id(), 1);
    assert_eq!(e.id(), 2);
    assert_eq!(*e.back().point(), 11);
    assert_eq!(*e.curve(), (1, 11));
    assert!(e.orientation());
    let direct: Edge<i32, (i32, i32)> = connect_vertices(&mut ids, &v, &v, &join);
    assert_eq!(*direct.curve(), (1, 1));
}

#[test]
fn vertex_closed_sweep_in_one_step_is_a_loop() {
    let mut ids = IdSource::new();
    let v = Vertex::new(&mut ids, 1);
    let wire: Wire<i32, (i32, i32)> = v.closed_sweep(&mut ids, &step, &join, 1);
    assert_eq!(wire.len(), 1);
    assert_eq!(wire.edge(0).front().id(), v.id());
    assert_eq!(wire.edge(0).back().id(), v.id());
    assert_eq!(*wire.edge(0).curve(), (1, 1));
    assert!(wire.is_closed());
    assert_eq!(ids.issued_count(), 2);
}

#[test]
fn vertex_closed_sweep_in_three_steps() {
    let mut ids = IdSource::new();
    let v = Vertex::new(&mut ids, 1);
    let wire: Wire<i32, (i32, i32)> = v.closed_sweep(&mut ids, &step, &join, 3);
    assert_eq!(wire.len(), 3);
    assert!(wire.is_closed());
    assert!(wire.is_simple());
    assert_eq!(*wire.edge(0).curve(), (1, 11));
    assert_eq!(*wire.edge(1).curve(), (11, 21));
    assert_eq!(*wire.edge(2).curve(), (21, 1));
    assert_eq!(wire.edge(2).back().id(), v.id());
    // Two identities for each step but the last, and one for the last.
    assert_eq!(ids.issued_count(), 1 + 2 * 2 + 1);
}

#[test]
fn sweeping_twice_gives_a_quadrilateral() {
    let mut ids = IdSource::new();
    let v = Vertex::new(&mut ids, 1);
    let e: Edge<i32, (i32, i32)> = v.sweep(&mut ids, &step, &join);
    let f: Face<i32, (i32, i32), [i32; 4]> =
        e.sweep(&mut ids, &|p: &i32| *p + 100, &|c: &(i32, i32)| (c.0 + 100, c.1 + 100), &join, &patch);
    let ws = f.absolute_boundaries();
    assert_eq!(ws.len(), 1);
    let w = &ws[0];
    assert_eq!(w.len(), 4);
    assert!(w.is_closed());
    assert!(w.is_simple());
    // The swept edge, the side at its end, the copy backwards, the side
    // at its start backwards.
    assert_eq!(w.edge(0).id(), e.id());
    assert_eq!(*w.edge(1).curve(), (11, 111));
    assert!(w.edge(1).orientation());
    assert_eq!(*w.edge(2).curve(), (101, 111));
    assert!(!w.edge(2).orientation());
    assert_eq!(*w.edge(3).curve(), (1, 101));
    assert!(!w.edge(3).orientation());
    assert_eq!(w.edge(3).back().id(), v.id());
    assert_eq!(*f.surface(), [1, 11, 101, 111]);
    assert!(f.orientation());
}

#[test]
fn edge_closed_sweep_is_a_ring() {
    let mut ids = IdSource::new();
    let v = Vertex::news(&mut ids, vec![0, 1]);
    let e = Edge::new(&mut ids, &v[0], &v[1], (0, 1));
    let shell: Shell<i32, (i32, i32), [i32; 4]> =
        e.closed_sweep(&mut ids, &step, &lift, &join, &patch, 3);
    assert_eq!(shell.len(), 3);
    assert!(shell.is_connected());
    // The sides are shared by no two faces, so the ring is open along
    // them, and every layer is passed once in each direction.
    assert_eq!(shell.shell_condition(), ShellCondition::Oriented);
    assert_eq!(*shell.face(0).surface(), [0, 1, 10, 11]);
    assert_eq!(*shell.face(2).surface(), [20, 21, 0, 1]);
    assert_eq!(shell.face(2).absolute_boundaries()[0].edge(2).id(), e.id());
    assert_eq!(ids.issued_count(), 3 + 6 * 2 + 3);
    let direct: Face<i32, (i32, i32), [i32; 4]> = {
        let w = Vertex::news(&mut ids, vec![5, 6]);
        let other = Edge::new(&mut ids, &w[0], &w[1], (5, 6));
        connect_edges(&mut ids, &e, &other, &join, &patch)
    };
    assert_eq!(*direct.surface(), [0, 1, 5, 6]);
}

#[test]
fn wire_sweep_shares_the_sides() {
    let mut ids = IdSource::new();
    let (_, wire) = square(&mut ids);
    let shell: Shell<i32, (i32, i32), [i32; 4]> =
        wire.sweep(&mut ids, &step, &lift, &join, &patch);
    assert_eq!(shell.len(), 4);
    for k in 0..4 {
        let w = &shell.face(k).absolute_boundaries()[0];
        let next = &shell.face((k + 1) % 4).absolute_boundaries()[0];
        assert_eq!(w.len(), 4);
        assert_eq!(w.edge(0).id(), wire.edge(k).id());
        // The side at the end of one edge is the side at the start of
        // the next.
        assert_eq!(w.edge(1).id(), next.edge(3).id());
        assert_eq!(*w.edge(1).curve(), (((k + 1) % 4) as i32, ((k + 1) % 4) as i32 + 10));
    }
    // 8 identities for the copy of the wire, 4 sides and 4 faces.
    assert_eq!(ids.issued_count(), 8 + 8 + 8);
    assert_eq!(shell.shell_condition(), ShellCondition::Oriented);
    assert!(shell.is_connected());
    let rims = shell.extract_boundaries();
    assert_eq!(rims.len(), 2);
    assert_eq!(rims[0].len(), 4);
    assert_eq!(rims[1].len(), 4);
    assert!(rims[0].is_closed());
    assert!(rims[1].is_closed());
    assert_eq!(rims[0].edge(0).id(), wire.edge(0).id());
}

#[test]
fn swept_box() {
    let mut ids = IdSource::new();
    let (v, wire) = square(&mut ids);
    // Swept round in one step, the square is joined to itself: four faces
    // of four edges each, and the faces over edges that meet share a side.
    let issued = ids.issued_count();
    let round: Shell<i32, (i32, i32), [i32; 4]> =
        wire.closed_sweep(&mut ids, &step, &lift, &join, &patch, 1);
    assert_eq!(round.len(), 4);
    // No copy was made: four sides and four faces.
    assert_eq!(ids.issued_count(), issued + 8);
    for k in 0..4 {
        let w = &round.face(k).absolute_boundaries()[0];
        assert_eq!(w.len(), 4);
        assert!(w.is_closed());
        assert_eq!(w.edge(0).id(), wire.edge(k).id());
        assert!(w.edge(0).orientation());
        assert_eq!(w.edge(2).id(), wire.edge(k).id());
        assert!(!w.edge(2).orientation());
        // The sides run from a vertex of the square to itself.
        assert_eq!(w.edge(1).front().id(), v[(k + 1) % 4].id());
        assert_eq!(w.edge(1).back().id(), v[(k + 1) % 4].id());
        assert_eq!(w.edge(3).front().id(), v[k].id());
        assert_eq!(w.edge(3).back().id(), v[k].id());
        let next = &round.face((k + 1) % 4).absolute_boundaries()[0];
        assert_eq!(w.edge(1).id(), next.edge(3).id());
        assert_eq!(*round.face(k).surface(), patch(wire.edge(k).curve(), wire.edge(k).curve()));
        // Such a face is none that the testing constructor makes.
        assert!(!round.face(k).is_simple());
    }
    assert!(round.is_connected());
    // Every edge of the square is passed there and back by its own face,
    // and every side by the two faces that share it.
    assert_eq!(round.shell_condition(), ShellCondition::Closed);
    // It is the band between the square and itself.
    let direct: Vec<Face<i32, (i32, i32), [i32; 4]>> =
        connect_wires(&mut ids, &wire, &wire, &join, &patch);
    assert_eq!(direct.len(), 4);
    for k in 0..4 {
        let w = &direct[k].absolute_boundaries()[0];
        let r = &round.face(k).absolute_boundaries()[0];
        for i in 0..4 {
            assert_eq!(w.edge(i).front().id(), r.edge(i).front().id());
            assert_eq!(w.edge(i).back().id(), r.edge(i).back().id());
            assert_eq!(w.edge(i).orientation(), r.edge(i).orientation());
            assert_eq!(w.edge(i).curve(), r.edge(i).curve());
        }
        assert_eq!(direct[k].surface(), round.face(k).surface());
    }
    // The prism: the band between the square and a copy of it, with two
    // caps.
    let side: Shell<i32, (i32, i32), [i32; 4]> =
        wire.sweep(&mut ids, &step, &lift, &join, &patch);
    assert_eq!(side.len(), 4);
    for f in side.faces() {
        assert_eq!(f.absolute_boundaries()[0].len(), 4);
    }
    // The caps: the square from below, and the copy of the square.
    let bottom = Face::new(&mut ids, vec![wire.clone()], [0; 4]).inverse();
    let mut top_edges = Vec::new();
    for k in 0..4 {
        top_edges.push(side.face(k).absolute_boundaries()[0].edge(2).inverse());
    }
    let top = Face::new(&mut ids, vec![Wire::from_edges(top_edges).unwrap()], [1; 4]);
    let mut shell = Shell::new();
    shell.push(bottom);
    shell.extend(side);
    shell.push(top);
    assert_eq!(shell.len(), 6);
    assert_eq!(shell.shell_condition(), ShellCondition::Closed);
    assert!(shell.is_connected());
    assert!(shell.singular_vertices().is_empty());
    assert!(Solid::try_new(vec![shell]).is_ok());
}

#[test]
fn wire_closed_sweep_is_a_torus() {
    let mut ids = IdSource::new();
    let (_, wire) = square(&mut ids);
    let shell: Shell<i32, (i32, i32), [i32; 4]> =
        wire.closed_sweep(&mut ids, &step, &lift, &join, &patch, 3);
    assert_eq!(shell.len(), 12);
    assert_eq!(shell.shell_condition(), ShellCondition::Closed);
    assert!(shell.is_connected());
    assert!(shell.singular_vertices().is_empty());
    let edges: HashSet<u64> = shell.edge_iter().iter().map(|e| e.id()).collect();
    assert_eq!(edges.len(), 24);
    // The last band returns to the wire itself.
    assert_eq!(shell.face(8).absolute_boundaries()[0].edge(2).id(), wire.edge(0).id());
    assert!(Solid::try_new(vec![shell]).is_ok());
}

#[test]
fn face_sweep_is_a_box() {
    let mut ids = IdSource::new();
    let (_, wire) = square(&mut ids);
    let face: Face<i32, (i32, i32), [i32; 4]> = Face::new(&mut ids, vec![wire], [0; 4]);
    let solid = face
        .sweep(&mut ids, &step, &lift, &|s: &[i32; 4]| [s[0] + 1; 4], &join, &patch)
        .unwrap();
    let shell = &solid.boundaries()[0];
    assert_eq!(shell.len(), 6);
    assert_eq!(shell.face(0).id(), face.id());
    assert!(!shell.face(0).orientation());
    assert_eq!(*shell.face(5).surface(), [1; 4]);
    assert_eq!(shell.shell_condition(), ShellCondition::Closed);
    // Turned over, the face sweeps a box as well.
    let solid = face
        .inverse()
        .sweep(&mut ids, &step, &lift, &|s: &[i32; 4]| [s[0] + 1; 4], &join, &patch)
        .unwrap();
    assert_eq!(solid.boundaries()[0].len(), 6);
    assert!(solid.boundaries()[0].face(0).orientation());
}

#[test]
fn face_closed_sweep_is_a_solid_torus() {
    let mut ids = IdSource::new();
    let (_, wire) = square(&mut ids);
    let face: Face<i32, (i32, i32), [i32; 4]> = Face::new(&mut ids, vec![wire], [0; 4]);
    let solid = face.closed_sweep(&mut ids, &step, &lift, &join, &patch, 4).unwrap();
    assert_eq!(solid.boundaries().len(), 1);
    assert_eq!(solid.boundaries()[0].len(), 16);
    assert!(solid.boundaries()[0].face(0).orientation());
    let turned = face.inverse().closed_sweep(&mut ids, &step, &lift, &join, &patch, 2).unwrap();
    assert_eq!(turned.boundaries()[0].len(), 8);
    assert!(!turned.boundaries()[0].face(0).orientation());
}

#[test]
fn shell_closed_sweep_sweeps_each_component() {
    let mut ids = IdSource::new();
    let (_, first) = square(&mut ids);
    let (_, second) = square(&mut ids);
    let a: Face<i32, (i32, i32), [i32; 4]> = Face::new(&mut ids, vec![first], [0; 4]);
    let b: Face<i32, (i32, i32), [i32; 4]> = Face::new(&mut ids, vec![second], [0; 4]);
    let shell = Shell::from_faces(vec![a, b]);
    let solids = shell.closed_sweep(&mut ids, &step, &lift, &join, &patch, 3);
    assert_eq!(solids.len(), 2);
    for solid in &solids {
        match solid {
            Ok(solid) => {
                assert_eq!(solid.boundaries().len(), 1);
                assert_eq!(solid.boundaries()[0].len(), 12);
            }
            Err(e) => panic!("{}", e.message()),
        }
    }
    // A closed shell has no free boundary: nothing bounds the solid.
    let (_, wire) = square(&mut ids);
    let face: Face<i32, (i32, i32), [i32; 4]> = Face::new(&mut ids, vec![wire], [0; 4]);
    let closed = Shell::from_faces(vec![face.clone(), face.inverse()]);
    let solids = closed.closed_sweep(&mut ids, &step, &lift, &join, &patch, 2);
    assert_eq!(solids.len(), 1);
    assert!(solids[0].is_ok());
    assert_eq!(solids[0].as_ref().ok().unwrap().boundaries().len(), 0);
    let _ = Error::EmptyShell;
}

#[test]
fn bands_between_given_wires() {
    let mut ids = IdSource::new();
    let (_, lower) = square(&mut ids);
    let upper: Wire<i32, (i32, i32)> = lower.mapped(&mut ids, &step, &lift);
    assert_eq!(upper.len(), 4);
    assert!(upper.is_closed());
    let faces: Vec<Face<i32, (i32, i32), [i32; 4]>> =
        connect_wires(&mut ids, &lower, &upper, &join, &patch);
    assert_eq!(faces.len(), 4);
    assert_eq!(*faces[1].surface(), [1, 2, 11, 12]);
}

#[test]
fn shell_sweep_lifts_each_component() {
    let mut ids = IdSource::new();
    // Two squares that meet along an edge, and one apart.
    let v = Vertex::news(&mut ids, vec![0, 1, 2, 3, 4, 5]);
    let mut edge = |a: usize, b: usize| Edge::new(&mut ids, &v[a], &v[b], (a as i32, b as i32));
    let e01 = edge(0, 1);
    let e12 = edge(1, 2);
    let e23 = edge(2, 3);
    let e30 = edge(3, 0);
    let e14 = edge(1, 4);
    let e45 = edge(4, 5);
    let e52 = edge(5, 2);
    let left = Wire::from_edges(vec![e01, e12.clone(), e23, e30]).unwrap();
    let right = Wire::from_edges(vec![e14, e45, e52, e12.inverse()]).unwrap();
    let left: Face<i32, (i32, i32), [i32; 4]> = Face::new(&mut ids, vec![left], [0; 4]);
    let right = Face::new(&mut ids, vec![right], [1; 4]);
    let (_, apart) = square(&mut ids);
    let apart = Face::new(&mut ids, vec![apart], [2; 4]);
    let shell = Shell::from_faces(vec![left, right, apart]);
    assert!(shell.is_coherent());
    let solids = shell.sweep(&mut ids, &step, &lift, &|s: &[i32; 4]| [s[0] + 10; 4], &join, &patch);
    assert_eq!(solids.len(), 2);
    let first = solids[0].as_ref().ok().unwrap();
    let second = solids[1].as_ref().ok().unwrap();
    // Two faces below, six round the rim, two above.
    assert_eq!(first.boundaries().len(), 1);
    assert_eq!(first.boundaries()[0].len(), 10);
    assert_eq!(first.boundaries()[0].shell_condition(), ShellCondition::Closed);
    assert!(!first.boundaries()[0].face(0).orientation());
    assert_eq!(*first.boundaries()[0].face(9).surface(), [11; 4]);
    assert_eq!(second.boundaries()[0].len(), 6);
    // The edge that the two squares share is no rim, and has no band.
    let rims = shell.connected_components()[0].extract_boundaries();
    assert_eq!(rims.len(), 1);
    assert_eq!(rims[0].len(), 6);
    assert!(rims[0].is_closed());
}

#[test]
fn what_copies_and_sweeps_ask_can_be_tested() {
    let mut ids = IdSource::new();
    let (_, wire) = square(&mut ids);
    assert!(wire.is_coherent());
    let face: Face<i32, (i32, i32), [i32; 4]> = Face::new(&mut ids, vec![wire.clone()], [0; 4]);
    assert!(face.is_coherent());
    // One identity for the face and three for each of its four edges.
    assert_eq!(face.copy_cost(), Some(13));
    let shell = Shell::from_faces(vec![face.clone(), face.inverse()]);
    assert!(shell.is_coherent());
    assert_eq!(shell.copy_cost(), Some(26));
    assert_eq!(ids.remaining_count(), u64::MAX - ids.issued_count());
    // Another source hands out the same identities again: an edge with
    // the identity of an edge of the square, and other ends.
    let mut other = IdSource::new();
    let w = Vertex::news(&mut other, vec![7, 8, 9, 10]);
    let forged = Edge::new(&mut other, &w[2], &w[3], (7, 8));
    assert_eq!(forged.id(), wire.edge(0).id());
    assert!(!truck_brep::checks::edges_coherent(&vec![wire.edge(0).clone(), forged]));
}

#[test]
fn edge_in_one_step_is_joined_to_itself() {
    let mut ids = IdSource::new();
    let v = Vertex::news(&mut ids, vec![0, 1]);
    let e = Edge::new(&mut ids, &v[0], &v[1], (0, 1));
    let issued = ids.issued_count();
    let round: Shell<i32, (i32, i32), [i32; 4]> =
        e.closed_sweep(&mut ids, &step, &lift, &join, &patch, 1);
    // Two sides and the face; no copy of the edge.
    assert_eq!(ids.issued_count(), issued + 3);
    assert_eq!(round.len(), 1);
    let face = round.face(0);
    assert_eq!(*face.surface(), [0, 1, 0, 1]);
    assert_eq!(face.absolute_boundaries().len(), 1);
    let w = &face.absolute_boundaries()[0];
    assert_eq!(w.len(), 4);
    assert!(w.is_closed());
    assert!(!w.is_simple());
    assert!(!face.is_simple());
    assert_eq!(w.edge(0).id(), e.id());
    assert!(w.edge(0).orientation());
    assert_eq!(w.edge(2).id(), e.id());
    assert!(!w.edge(2).orientation());
    // The side at the end of the edge, and the side at its start backwards.
    assert_eq!(w.edge(1).front().id(), v[1].id());
    assert_eq!(w.edge(1).back().id(), v[1].id());
    assert_eq!(*w.edge(1).curve(), (1, 1));
    assert!(w.edge(1).orientation());
    assert_eq!(w.edge(3).front().id(), v[0].id());
    assert_eq!(w.edge(3).back().id(), v[0].id());
    assert_eq!(*w.edge(3).curve(), (0, 0));
    assert!(!w.edge(3).orientation());
    // The same as joining the edge to itself.
    let direct: Face<i32, (i32, i32), [i32; 4]> = connect_edges(&mut ids, &e, &e, &join, &patch);
    assert_eq!(ids.issued_count(), issued + 6);
    let d = &direct.absolute_boundaries()[0];
    assert_eq!(d.len(), 4);
    for i in 0..4 {
        assert_eq!(d.edge(i).front().id(), w.edge(i).front().id());
        assert_eq!(d.edge(i).back().id(), w.edge(i).back().id());
        assert_eq!(d.edge(i).orientation(), w.edge(i).orientation());
        assert_eq!(d.edge(i).curve(), w.edge(i).curve());
    }
    assert_eq!(direct.surface(), face.surface());
    // Between two edges with four corners the face is simple.
    let u = Vertex::news(&mut ids, vec![5, 6]);
    let other = Edge::new(&mut ids, &u[0], &u[1], (5, 6));
    let plain: Face<i32, (i32, i32), [i32; 4]> = connect_edges(&mut ids, &e, &other, &join, &patch);
    assert!(plain.is_simple());
    // The testing constructor refuses the boundary of the one-step face.
    let refused: Result<Face<i32, (i32, i32), [i32; 4]>, Error> =
        Face::try_new(&mut ids, vec![w.clone()], [0; 4]);
    assert_eq!(refused.err(), Some(Error::NotSimpleWire));
}

#[test]
fn edges_from_a_vertex_to_itself_are_swept() {
    let mut ids = IdSource::new();
    let v = Vertex::new(&mut ids, 0);
    let ring = Edge::new_unchecked(&mut ids, &v, &v, (0, 0));
    let issued = ids.issued_count();
    // The copy is one vertex and one edge; then two sides and the face.
    let up: Face<i32, (i32, i32), [i32; 4]> = ring.sweep(&mut ids, &step, &lift, &join, &patch);
    assert_eq!(ids.issued_count(), issued + 5);
    let w = &up.absolute_boundaries()[0];
    assert_eq!(w.len(), 4);
    assert!(w.is_closed());
    assert!(!w.is_simple());
    assert_eq!(w.edge(0).id(), ring.id());
    assert_eq!(w.edge(2).front().id(), w.edge(2).back().id());
    assert_eq!(*w.edge(2).curve(), (10, 10));
    assert_eq!(*up.surface(), [0, 0, 10, 10]);
    // Round in three steps: two copies, three faces.
    let issued = ids.issued_count();
    let round: Shell<i32, (i32, i32), [i32; 4]> =
        ring.closed_sweep(&mut ids, &step, &lift, &join, &patch, 3);
    assert_eq!(round.len(), 3);
    assert_eq!(ids.issued_count(), issued + 5 * 2 + 3);
    assert_eq!(round.face(2).absolute_boundaries()[0].edge(2).id(), ring.id());
    // In a wire the two sides of the face are one edge.
    let wire = Wire::from_edges(vec![ring.clone()]).unwrap();
    let issued = ids.issued_count();
    let band: Shell<i32, (i32, i32), [i32; 4]> = wire.sweep(&mut ids, &step, &lift, &join, &patch);
    assert_eq!(band.len(), 1);
    assert_eq!(ids.issued_count(), issued + 4);
    let w = &band.face(0).absolute_boundaries()[0];
    assert_eq!(w.len(), 4);
    assert_eq!(w.edge(1).id(), w.edge(3).id());
    assert!(w.edge(1).orientation());
    assert!(!w.edge(3).orientation());
    let round: Shell<i32, (i32, i32), [i32; 4]> =
        wire.closed_sweep(&mut ids, &step, &lift, &join, &patch, 2);
    assert_eq!(round.len(), 2);
    // A wire without edges sweeps a shell without faces, in one step too.
    let issued = ids.issued_count();
    let empty: Wire<i32, (i32, i32)> = Wire::new();
    let none: Shell<i32, (i32, i32), [i32; 4]> =
        empty.closed_sweep(&mut ids, &step, &lift, &join, &patch, 1);
    assert!(none.is_empty());
    assert_eq!(ids.issued_count(), issued);
}

#[test]
fn faces_and_shells_in_one_step() {
    let mut ids = IdSource::new();
    let (_, wire) = square(&mut ids);
    let face: Face<i32, (i32, i32), [i32; 4]> = Face::new(&mut ids, vec![wire.clone()], [0; 4]);
    // What the face sweeps is what the ring of its boundary can bound.
    let ring: Shell<i32, (i32, i32), [i32; 4]> =
        wire.closed_sweep(&mut ids, &step, &lift, &join, &patch, 1);
    let expected = Solid::try_new(vec![ring]);
    let issued = ids.issued_count();
    let round = face.closed_sweep(&mut ids, &step, &lift, &join, &patch, 1);
    assert_eq!(ids.issued_count(), issued + 8);
    assert_eq!(round.as_ref().err(), expected.as_ref().err());
    if let Ok(solid) = &round {
        assert_eq!(solid.boundaries().len(), 1);
        assert_eq!(solid.boundaries()[0].len(), 4);
    }
    let shell = Shell::from_faces(vec![face.clone()]);
    let solids = shell.closed_sweep(&mut ids, &step, &lift, &join, &patch, 1);
    assert_eq!(solids.len(), 1);
    assert_eq!(solids[0].as_ref().err(), expected.as_ref().err());
    // A closed shell has no free boundary, and in one step too nothing
    // of it has to be swept.
    let closed = Shell::from_faces(vec![face.clone(), face.inverse()]);
    let solids = closed.closed_sweep(&mut ids, &step, &lift, &join, &patch, 1);
    assert_eq!(solids.len(), 1);
    assert!(solids[0].is_ok());
    // A face with a boundary of one edge from a vertex to itself.
    let v = Vertex::new(&mut ids, 7);
    let ring = Edge::new_unchecked(&mut ids, &v, &v, (7, 7));
    let disk: Face<i32, (i32, i32), [i32; 4]> =
        Face::new(&mut ids, vec![Wire::from_edges(vec![ring]).unwrap()], [0; 4]);
    assert!(disk.is_simple());
    let issued = ids.issued_count();
    let up = disk.sweep(&mut ids, &step, &lift, &|s: &[i32; 4]| *s, &join, &patch);
    // The copy of the face, then the side and the face of the band.
    assert_eq!(ids.issued_count(), issued + 3 + 2);
    match up {
        Ok(solid) => assert_eq!(solid.boundaries()[0].len(), 3),
        Err(e) => assert!(e != Error::EmptyShell),
    }
}
