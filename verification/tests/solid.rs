use std::collections::HashSet;
use truck_brep::edge::Edge;
use truck_brep::errors::Error;
use truck_brep::face::Face;
use truck_brep::ident::IdSource;
use truck_brep::shell::{Shell, ShellCondition};
use truck_brep::solid::Solid;
use truck_brep::vertex::Vertex;
use truck_brep::wire::Wire;

fn wire_of(edges: Vec<Edge<(), ()>>) -> Wire<(), ()> {
    Wire::from_edges(edges).unwrap()
}

/// The six faces of a cube on the given eight vertices.
fn cube_faces(ids: &mut IdSource, v: &[Vertex<()>]) -> (Vec<Edge<(), ()>>, Vec<Face<(), (), ()>>) {
    let edge = vec![
        Edge::new(ids, &v[0], &v[1], ()), // 0
        Edge::new(ids, &v[1], &v[2], ()), // 1
        Edge::new(ids, &v[2], &v[3], ()), // 2
        Edge::new(ids, &v[3], &v[0], ()), // 3
        Edge::new(ids, &v[0], &v[4], ()), // 4
        Edge::new(ids, &v[1], &v[5], ()), // 5
        Edge::new(ids, &v[2], &v[6], ()), // 6
        Edge::new(ids, &v[3], &v[7], ()), // 7
        Edge::new(ids, &v[4], &v[5], ()), // 8
        Edge::new(ids, &v[5], &v[6], ()), // 9
        Edge::new(ids, &v[6], &v[7], ()), // 10
        Edge::new(ids, &v[7], &v[4], ()), // 11
    ];

    let wire0 = wire_of(vec![edge[0].clone(), edge[1].clone(), edge[2].clone(), edge[3].clone()]);
    let face0 = Face::new(ids, vec![wire0], ());

    let wire1 = wire_of(vec![
        edge[4].clone(),
        edge[8].clone(),
        edge[5].inverse(),
        edge[0].inverse(),
    ]);
    let face1 = Face::new(ids, vec![wire1], ());

    let wire2 = wire_of(vec![
        edge[5].clone(),
        edge[9].clone(),
        edge[6].inverse(),
        edge[1].inverse(),
    ]);
    let face2 = Face::new(ids, vec![wire2], ());

    let wire3 = wire_of(vec![
        edge[6].clone(),
        edge[10].clone(),
        edge[7].inverse(),
        edge[2].inverse(),
    ]);
    let face3 = Face::new(ids, vec![wire3], ());
    let wire4 = wire_of(vec![
        edge[7].clone(),
        edge[11].clone(),
        edge[4].inverse(),
        edge[3].inverse(),
    ]);
    let face4 = Face::new(ids, vec![wire4], ());
    let wire5 = wire_of(vec![
        edge[11].inverse(),
        edge[10].inverse(),
        edge[9].inverse(),
        edge[8].inverse(),
    ]);
    let face5 = Face::new(ids, vec![wire5], ());
    (edge, vec![face0, face1, face2, face3, face4, face5])
}

fn cube_in(ids: &mut IdSource) -> (Vec<Vertex<()>>, Vec<Edge<(), ()>>, Solid<(), (), ()>) {
    let v = Vertex::news(ids, vec![(); 8]);
    let (edge, faces) = cube_faces(ids, &v);
    let mut faces = faces.into_iter();
    let face0 = faces.next().unwrap();
    let face1 = faces.next().unwrap();
    let face2 = faces.next().unwrap();
    let face3 = faces.next().unwrap();
    let face4 = faces.next().unwrap();
    let face5 = faces.next().unwrap();

    let mut shell = Shell::new();
    shell.push(face0);
    shell.push(face5);
    assert!(!shell.is_connected());
    shell.push(face1);
    assert_eq!(shell.shell_condition(), ShellCondition::Oriented);
    assert!(shell.is_connected());
    shell.push(face2);
    shell.push(face3);
    shell.push(face4);

    match Solid::try_new(vec![shell]) {
        Ok(solid) => (v, edge, solid),
        Err(e) => panic!("{}", e.message()),
    }
}

fn cube() -> Solid<(), (), ()> {
    let mut ids = IdSource::new();
    cube_in(&mut ids).2
}

#[test]
fn cube_test() {
    cube();
}

#[test]
fn cube_is_closed_and_manifold() {
    let solid = cube();
    assert_eq!(solid.boundaries().len(), 1);
    let shell = &solid.boundaries()[0];
    assert_eq!(shell.len(), 6);
    assert_eq!(shell.shell_condition(), ShellCondition::Closed);
    assert!(shell.singular_vertices().is_empty());
    assert!(shell.is_connected());
    assert_eq!(solid.face_iter().len(), 6);
    assert_eq!(solid.edge_iter().len(), 24);
    assert_eq!(solid.vertex_iter().len(), 24);
    assert_eq!(shell.connected_components().len(), 1);
    let edges: HashSet<u64> = solid.edge_iter().iter().map(|e| e.id()).collect();
    let vertices: HashSet<u64> = solid.vertex_iter().iter().map(|v| v.id()).collect();
    assert_eq!(edges.len(), 12);
    assert_eq!(vertices.len(), 8);
}

#[test]
fn identities_are_counted_up() {
    let mut ids = IdSource::new();
    let v = Vertex::news(&mut ids, vec![10, 20, 30]);
    assert_eq!(v[0].id(), 0);
    assert_eq!(v[1].id(), 1);
    assert_eq!(v[2].id(), 2);
    assert_eq!(*v[1].point(), 20);
    let e = Edge::new(&mut ids, &v[0], &v[1], 'c');
    assert_eq!(e.id(), 3);
    assert_eq!(e.front().id(), 0);
    assert_eq!(e.back().id(), 1);
    assert_eq!(*e.curve(), 'c');
}

#[test]
fn inverse_twice_is_the_edge() {
    let mut ids = IdSource::new();
    let v = Vertex::news(&mut ids, vec![(), ()]);
    let e = Edge::new(&mut ids, &v[0], &v[1], ());
    let i = e.inverse();
    assert_eq!(i.id(), e.id());
    assert!(!i.orientation());
    assert_eq!(i.front().id(), v[1].id());
    assert_eq!(i.back().id(), v[0].id());
    assert_eq!(i.absolute_front().id(), v[0].id());
    let ii = i.inverse();
    assert_eq!(ii.id(), e.id());
    assert!(ii.orientation());
    assert_eq!(ii.front().id(), v[0].id());
    assert_eq!(ii.back().id(), v[1].id());
    let mut m = e.clone();
    m.invert();
    m.invert();
    assert!(m.orientation());
    assert!(m.is_same(&e));
}

#[test]
fn same_vertex_is_refused() {
    let mut ids = IdSource::new();
    let v = Vertex::new(&mut ids, ());
    match Edge::try_new(&mut ids, &v, &v.clone(), ()) {
        Err(e) => assert_eq!(e, Error::SameVertex),
        Ok(_) => panic!("an edge from a vertex to itself was accepted"),
    }
    let w = Vertex::new(&mut ids, ());
    assert!(Edge::try_new(&mut ids, &v, &w, ()).is_ok());
}

#[test]
fn wire_refuses_what_does_not_join() {
    let mut ids = IdSource::new();
    let v = Vertex::news(&mut ids, vec![(); 4]);
    let e01 = Edge::new(&mut ids, &v[0], &v[1], ());
    let e12 = Edge::new(&mut ids, &v[1], &v[2], ());
    let e23 = Edge::new(&mut ids, &v[2], &v[3], ());
    let mut wire = Wire::new();
    assert!(wire.is_empty());
    assert!(wire.push_back(e12.clone()));
    assert!(!wire.push_back(e01.clone()));
    assert_eq!(wire.len(), 1);
    assert!(wire.push_front(e01.clone()));
    assert!(!wire.push_front(e23.clone()));
    assert!(wire.push_back(e23.clone()));
    assert_eq!(wire.len(), 3);
    assert_eq!(wire.front_vertex().unwrap().id(), v[0].id());
    assert_eq!(wire.back_vertex().unwrap().id(), v[3].id());
    assert_eq!(wire.front_edge().unwrap().id(), e01.id());
    assert_eq!(wire.back_edge().unwrap().id(), e23.id());
    assert!(!wire.is_closed());
    assert!(wire.is_simple());
    assert!(Wire::from_edges(vec![e01.clone(), e23.clone()]).is_none());
    let back = wire.inverse();
    assert_eq!(back.len(), 3);
    assert_eq!(back.edge(0).id(), e23.id());
    assert!(!back.edge(0).orientation());
    assert_eq!(back.front_vertex().unwrap().id(), v[3].id());
}

#[test]
fn open_wire_is_refused() {
    let mut ids = IdSource::new();
    let v = Vertex::news(&mut ids, vec![(); 3]);
    let e01 = Edge::new(&mut ids, &v[0], &v[1], ());
    let e12 = Edge::new(&mut ids, &v[1], &v[2], ());
    let wire = wire_of(vec![e01, e12]);
    match Face::try_new(&mut ids, vec![wire], ()) {
        Err(e) => assert_eq!(e, Error::NotClosedWire),
        Ok(_) => panic!("an open wire was accepted"),
    }
    let empty: Wire<(), ()> = Wire::new();
    match Face::try_new(&mut ids, vec![empty], ()) {
        Err(e) => assert_eq!(e, Error::NotClosedWire),
        Ok(_) => panic!("an empty wire was accepted"),
    }
}

#[test]
fn wire_that_crosses_itself_is_refused() {
    let mut ids = IdSource::new();
    let v = Vertex::news(&mut ids, vec![(); 3]);
    let a = Edge::new(&mut ids, &v[0], &v[1], ());
    let b = Edge::new(&mut ids, &v[1], &v[0], ());
    let c = Edge::new(&mut ids, &v[0], &v[2], ());
    let d = Edge::new(&mut ids, &v[2], &v[0], ());
    let wire = wire_of(vec![a, b, c, d]);
    assert!(wire.is_closed());
    assert!(!wire.is_simple());
    match Face::try_new(&mut ids, vec![wire], ()) {
        Err(e) => assert_eq!(e, Error::NotSimpleWire),
        Ok(_) => panic!("a wire through one vertex twice was accepted"),
    }
}

#[test]
fn accepted_wires_are_closed_and_simple() {
    let mut ids = IdSource::new();
    let v = Vertex::news(&mut ids, vec![(); 3]);
    let a = Edge::new(&mut ids, &v[0], &v[1], ());
    let b = Edge::new(&mut ids, &v[1], &v[2], ());
    let c = Edge::new(&mut ids, &v[2], &v[0], ());
    let wire = wire_of(vec![a, b, c]);
    let face = Face::try_new(&mut ids, vec![wire], 7).unwrap();
    assert_eq!(*face.surface(), 7);
    assert!(face.orientation());
    for w in face.absolute_boundaries() {
        assert!(w.is_closed());
        assert!(w.is_simple());
    }
    let other = face.inverse();
    assert_eq!(other.id(), face.id());
    assert!(!other.orientation());
    for w in other.boundaries() {
        assert!(w.is_closed());
        assert!(w.is_simple());
    }
    assert_eq!(other.boundaries()[0].edge(0).front().id(), v[0].id());
    assert_eq!(other.boundaries()[0].edge(0).back().id(), v[2].id());
}

#[test]
fn empty_shell_is_refused() {
    let shell: Shell<(), (), ()> = Shell::new();
    match Solid::try_new(vec![shell]) {
        Err(e) => assert_eq!(e, Error::EmptyShell),
        Ok(_) => panic!("an empty shell was accepted"),
    }
}

#[test]
fn two_cubes_in_one_shell_are_refused() {
    let mut ids = IdSource::new();
    let v = Vertex::news(&mut ids, vec![(); 8]);
    let w = Vertex::news(&mut ids, vec![(); 8]);
    let (_, first) = cube_faces(&mut ids, &v);
    let (_, second) = cube_faces(&mut ids, &w);
    let mut shell = Shell::from_faces(first);
    shell.extend(Shell::from_faces(second));
    assert_eq!(shell.len(), 12);
    assert_eq!(shell.shell_condition(), ShellCondition::Closed);
    assert!(!shell.is_connected());
    let parts = shell.connected_components();
    assert_eq!(parts.len(), 2);
    assert_eq!(parts[0].len(), 6);
    assert_eq!(parts[1].len(), 6);
    assert_eq!(parts[0].face(0).id(), shell.face(0).id());
    assert_eq!(parts[1].face(0).id(), shell.face(6).id());
    match Solid::try_new(vec![shell]) {
        Err(e) => assert_eq!(e, Error::NotConnected),
        Ok(_) => panic!("a shell of two components was accepted"),
    }
    assert!(Solid::try_new(parts).is_ok());
}

#[test]
fn open_box_is_refused() {
    let mut ids = IdSource::new();
    let v = Vertex::news(&mut ids, vec![(); 8]);
    let (_, mut faces) = cube_faces(&mut ids, &v);
    faces.pop();
    let shell = Shell::from_faces(faces);
    assert_eq!(shell.shell_condition(), ShellCondition::Oriented);
    match Solid::try_new(vec![shell]) {
        Err(e) => assert_eq!(e, Error::NotClosedShell),
        Ok(_) => panic!("an open box was accepted"),
    }
}

#[test]
fn conditions_of_shells() {
    let mut ids = IdSource::new();
    let v = Vertex::news(&mut ids, vec![(); 8]);
    let (_, faces) = cube_faces(&mut ids, &v);
    // One face twice, from the same side: its edges are passed twice in
    // one direction.
    let regular = Shell::from_faces(vec![faces[0].clone(), faces[0].clone()]);
    assert_eq!(regular.shell_condition(), ShellCondition::Regular);
    // Three times: more than twice.
    let irregular =
        Shell::from_faces(vec![faces[0].clone(), faces[0].clone(), faces[0].inverse()]);
    assert_eq!(irregular.shell_condition(), ShellCondition::Irregular);
    // Once from each side: every edge once in each direction.
    let closed = Shell::from_faces(vec![faces[0].clone(), faces[0].inverse()]);
    assert_eq!(closed.shell_condition(), ShellCondition::Closed);
    let oriented = Shell::from_faces(vec![faces[0].clone(), faces[1].clone()]);
    assert_eq!(oriented.shell_condition(), ShellCondition::Oriented);
    let empty: Shell<(), (), ()> = Shell::new();
    assert_eq!(empty.shell_condition(), ShellCondition::Closed);
    assert!(empty.is_connected());
}

#[test]
fn pinched_cube_is_refused() {
    // A cube of which two opposite corners are one vertex.
    let mut ids = IdSource::new();
    let mut v = Vertex::news(&mut ids, vec![(); 8]);
    v[6] = v[0].clone();
    let (_, faces) = cube_faces(&mut ids, &v);
    let shell = Shell::from_faces(faces);
    assert!(shell.is_connected());
    assert_eq!(shell.shell_condition(), ShellCondition::Closed);
    let singular = shell.singular_vertices();
    assert_eq!(singular.len(), 1);
    assert_eq!(singular[0].id(), v[0].id());
    match Solid::try_new(vec![shell]) {
        Err(e) => assert_eq!(e, Error::NotManifold),
        Ok(_) => panic!("a pinched cube was accepted"),
    }
}

#[test]
fn first_fault_wins() {
    let mut ids = IdSource::new();
    let v = Vertex::news(&mut ids, vec![(); 8]);
    let (_, mut faces) = cube_faces(&mut ids, &v);
    faces.pop();
    let open = Shell::from_faces(faces);
    let empty: Shell<(), (), ()> = Shell::new();
    match Solid::try_new(vec![open, empty]) {
        Err(e) => assert_eq!(e, Error::NotClosedShell),
        Ok(_) => panic!("faulty shells were accepted"),
    }
}

#[test]
fn mapped_cube_shares_what_the_cube_shares() {
    let mut ids = IdSource::new();
    let (_, _, solid) = cube_in(&mut ids);
    let before = ids.issued_count();
    let copy: Solid<u8, u16, u32> = solid.mapped(&mut ids, &|_: &()| 1u8, &|_: &()| 2u16, &|_: &()| 3u32);
    // 8 vertices, 12 edges, 6 faces.
    assert_eq!(ids.issued_count(), before + 26);
    let shell = &copy.boundaries()[0];
    assert_eq!(shell.len(), 6);
    assert_eq!(shell.shell_condition(), ShellCondition::Closed);
    assert!(shell.is_connected());
    assert!(shell.singular_vertices().is_empty());
    let old_edges: Vec<u64> = solid.edge_iter().iter().map(|e| e.id()).collect();
    let new_edges: Vec<u64> = copy.edge_iter().iter().map(|e| e.id()).collect();
    assert_eq!(old_edges.len(), new_edges.len());
    for i in 0..old_edges.len() {
        for j in 0..old_edges.len() {
            assert_eq!(old_edges[i] == old_edges[j], new_edges[i] == new_edges[j]);
        }
        assert!(new_edges[i] >= before);
    }
    let old_vs: Vec<u64> = solid.vertex_iter().iter().map(|v| v.id()).collect();
    let new_vs: Vec<u64> = copy.vertex_iter().iter().map(|v| v.id()).collect();
    for i in 0..old_vs.len() {
        for j in 0..old_vs.len() {
            assert_eq!(old_vs[i] == old_vs[j], new_vs[i] == new_vs[j]);
        }
    }
    for (a, b) in solid.edge_iter().iter().zip(copy.edge_iter().iter()) {
        assert_eq!(a.orientation(), b.orientation());
        assert_eq!(*b.curve(), 2u16);
        assert_eq!(*b.front().point(), 1u8);
    }
    for f in copy.face_iter() {
        assert_eq!(*f.surface(), 3u32);
    }
}

fn tetrahedron(ids: &mut IdSource, ab: &Edge<(), ()>) -> Shell<(), (), ()> {
    let a = ab.front();
    let b = ab.back();
    let c = Vertex::new(ids, ());
    let d = Vertex::new(ids, ());
    let bc = Edge::new(ids, &b, &c, ());
    let ca = Edge::new(ids, &c, &a, ());
    let ad = Edge::new(ids, &a, &d, ());
    let bd = Edge::new(ids, &b, &d, ());
    let cd = Edge::new(ids, &c, &d, ());
    let mut shell = Shell::new();
    shell.push(Face::new(ids, vec![wire_of(vec![ab.clone(), bc.clone(), ca.clone()])], ()));
    shell.push(Face::new(ids, vec![wire_of(vec![ab.inverse(), ad.clone(), bd.inverse()])], ()));
    shell.push(Face::new(ids, vec![wire_of(vec![bc.inverse(), bd.clone(), cd.inverse()])], ()));
    shell.push(Face::new(ids, vec![wire_of(vec![ca.inverse(), cd.clone(), ad.inverse()])], ()));
    shell
}

#[test]
fn mapped_solid_shares_what_its_shells_share() {
    let mut ids = IdSource::new();
    let a = Vertex::new(&mut ids, ());
    let b = Vertex::new(&mut ids, ());
    let ab = Edge::new(&mut ids, &a, &b, ());
    let first = tetrahedron(&mut ids, &ab);
    let second = tetrahedron(&mut ids, &ab);
    let solid = match Solid::try_new(vec![first, second]) {
        Ok(solid) => solid,
        Err(e) => panic!("{}", e.message()),
    };
    let before = ids.issued_count();
    let copy: Solid<u8, u16, u32> = solid.mapped(&mut ids, &|_: &()| 1u8, &|_: &()| 2u16, &|_: &()| 3u32);
    let shells = copy.boundaries();
    assert_eq!(shells.len(), 2);
    // The edge that the two shells share is one edge in the copy too.
    let e0 = shells[0].face(0).absolute_boundaries()[0].edge(0).clone();
    let e1 = shells[1].face(0).absolute_boundaries()[0].edge(0).clone();
    assert_eq!(e0.id(), e1.id());
    assert_ne!(e0.id(), ab.id());
    assert_eq!(e0.front().id(), e1.front().id());
    assert_eq!(e0.back().id(), e1.back().id());
    // Nothing else is shared between them.
    let edges = |shell: &Shell<u8, u16, u32>| -> HashSet<u64> {
        shell.edge_iter().iter().map(|e| e.id()).collect()
    };
    let common: Vec<u64> = edges(&shells[0]).intersection(&edges(&shells[1])).cloned().collect();
    assert_eq!(common, vec![e0.id()]);
    let all: HashSet<u64> = copy.edge_iter().iter().map(|e| e.id()).collect();
    assert_eq!(all.len(), 11);
    let mut vertices: HashSet<u64> = HashSet::new();
    for e in copy.edge_iter() {
        vertices.insert(e.front().id());
        vertices.insert(e.back().id());
    }
    assert_eq!(vertices.len(), 6);
    let faces: HashSet<u64> = copy.face_iter().iter().map(|f| f.id()).collect();
    assert_eq!(faces.len(), 8);
    // Six vertices, eleven edges and eight faces were made.
    assert_eq!(ids.issued_count() - before, 25);
    assert!(all.iter().all(|id| *id >= before));
    for shell in shells {
        assert_eq!(shell.shell_condition(), ShellCondition::Closed);
    }
}

#[test]
fn try_mapped_gives_up_where_a_callback_does() {
    let mut ids = IdSource::new();
    let (_, _, solid) = cube_in(&mut ids);
    let none: Option<Solid<(), (), ()>> =
        solid.try_mapped(&mut ids, &|_: &()| Some(()), &|_: &()| None, &|_: &()| Some(()));
    assert!(none.is_none());
    let some: Option<Solid<(), (), ()>> =
        solid.try_mapped(&mut ids, &|_: &()| Some(()), &|_: &()| Some(()), &|_: &()| Some(()));
    assert!(some.is_some());
}

#[test]
fn cut_then_concat_round_trip() {
    let mut ids = IdSource::new();
    let (_, edge, solid) = cube_in(&mut ids);
    let count = |solid: &Solid<(), (), ()>| {
        let edges: HashSet<u64> = solid.edge_iter().iter().map(|e| e.id()).collect();
        let mut vertices: HashSet<u64> = HashSet::new();
        for e in solid.edge_iter() {
            vertices.insert(e.front().id());
            vertices.insert(e.back().id());
        }
        (vertices.len(), edges.len(), solid.face_iter().len())
    };
    assert_eq!(count(&solid), (8, 12, 6));
    let vm = Vertex::new(&mut ids, ());
    let cut = |_: &(), _: &()| Some(((), ()));
    let solid = match solid.cut_edge(&mut ids, edge[3].id(), &vm, &cut) {
        Ok(solid) => solid,
        Err(_) => panic!("the cut fits the cube"),
    };
    assert_eq!(count(&solid), (9, 13, 6));
    {
        let shell = &solid.boundaries()[0];
        assert_eq!(shell.face(0).absolute_boundaries()[0].len(), 5);
        assert_eq!(shell.face(5).absolute_boundaries()[0].len(), 5);
        assert_eq!(shell.face(1).absolute_boundaries()[0].len(), 4);
        let w0 = &shell.face(0).absolute_boundaries()[0];
        assert_eq!(w0.edge(3).back().id(), vm.id());
        assert_eq!(w0.edge(4).front().id(), vm.id());
        assert!(w0.edge(3).orientation());
        let w4 = &shell.face(5).absolute_boundaries()[0];
        assert_eq!(w4.edge(3).back().id(), vm.id());
        assert!(!w4.edge(3).orientation());
        assert_eq!(w4.edge(3).id(), w0.edge(4).id());
        assert_eq!(w4.edge(4).id(), w0.edge(3).id());
        assert_eq!(shell.shell_condition(), ShellCondition::Closed);
    }
    let concat = |_: &(), _: bool, _: &(), _: bool| Some(());
    let solid = match solid.remove_vertex_by_concat_edges(&mut ids, vm.id(), &concat) {
        Ok(solid) => solid,
        Err(_) => panic!("the two halves join again"),
    };
    assert_eq!(count(&solid), (8, 12, 6));
    let shell = &solid.boundaries()[0];
    assert_eq!(shell.face(0).absolute_boundaries()[0].len(), 4);
    assert_eq!(shell.face(5).absolute_boundaries()[0].len(), 4);
    let w0 = &shell.face(0).absolute_boundaries()[0];
    let w4 = &shell.face(5).absolute_boundaries()[0];
    assert_eq!(w0.edge(3).id(), w4.edge(3).id());
    assert!(w0.edge(3).orientation());
    assert!(!w4.edge(3).orientation());
    assert_eq!(w0.edge(3).front().id(), edge[3].front().id());
    assert_eq!(w0.edge(3).back().id(), edge[3].back().id());
    assert_eq!(shell.shell_condition(), ShellCondition::Closed);
    assert!(shell.singular_vertices().is_empty());
}

#[test]
fn round_trip_may_turn_the_edge_over() {
    let mut ids = IdSource::new();
    let (v, edge, solid) = cube_in(&mut ids);
    // The first face that passes edge 11 passes it backwards.
    let first = &solid.boundaries()[0].face(1).absolute_boundaries()[0];
    assert_eq!(first.edge(0).id(), edge[11].id());
    assert!(!first.edge(0).orientation());
    let vm = Vertex::new(&mut ids, ());
    let solid = match solid.cut_edge(&mut ids, edge[11].id(), &vm, &|_: &(), _: &()| Some(((), ()))) {
        Ok(solid) => solid,
        Err(_) => panic!("the cut fits the cube"),
    };
    assert_eq!(solid.boundaries()[0].face(1).absolute_boundaries()[0].len(), 5);
    let name = ids.issued_count();
    let solid = match solid.remove_vertex_by_concat_edges(
        &mut ids,
        vm.id(),
        &|_: &(), _: bool, _: &(), _: bool| Some(()),
    ) {
        Ok(solid) => solid,
        Err(_) => panic!("the two halves join again"),
    };
    let shell = &solid.boundaries()[0];
    // The new edge runs the other way: from the end of the old edge to
    // its start, along the first face that passes it.
    let w = &shell.face(1).absolute_boundaries()[0];
    assert_eq!(w.len(), 4);
    assert_eq!(w.edge(0).id(), name);
    assert!(w.edge(0).orientation());
    assert_eq!(w.edge(0).absolute_front().id(), v[4].id());
    assert_eq!(w.edge(0).absolute_back().id(), v[7].id());
    let u = &shell.face(5).absolute_boundaries()[0];
    assert_eq!(u.len(), 4);
    assert_eq!(u.edge(1).id(), name);
    assert!(!u.edge(1).orientation());
    assert_eq!(u.edge(1).front().id(), v[7].id());
    assert_eq!(shell.shell_condition(), ShellCondition::Closed);
    assert!(shell.singular_vertices().is_empty());
    assert_eq!(solid.edge_iter().len(), 24);
}

#[test]
fn cut_fails_and_leaves_the_solid() {
    let lengths = |shells: &Vec<Shell<(), (), ()>>| -> Vec<usize> {
        shells[0].faces().iter().map(|f| f.absolute_boundaries()[0].len()).collect()
    };
    let ids_of = |shells: &Vec<Shell<(), (), ()>>| -> Vec<u64> {
        shells[0].edge_iter().iter().map(|e| e.id()).collect()
    };
    let mut ids = IdSource::new();
    let (v, edge, solid) = cube_in(&mut ids);
    let before = ids_of(solid.boundaries());
    let vm = Vertex::new(&mut ids, ());
    // No such edge.
    let shells = solid.cut_edge(&mut ids, 1000, &vm, &|_: &(), _: &()| Some(((), ()))).err().unwrap();
    assert_eq!(ids_of(&shells), before);
    let solid = Solid::new(shells);
    // The curve cannot be cut.
    let shells = solid.cut_edge(&mut ids, edge[3].id(), &vm, &|_: &(), _: &()| None).err().unwrap();
    assert_eq!(ids_of(&shells), before);
    let solid = Solid::new(shells);
    // The vertex is already a corner of the first face: nothing is cut.
    let shells =
        solid.cut_edge(&mut ids, edge[3].id(), &v[1], &|_: &(), _: &()| Some(((), ()))).err().unwrap();
    assert_eq!(ids_of(&shells), before);
    let solid = Solid::new(shells);
    // No such vertex.
    let shells = solid
        .remove_vertex_by_concat_edges(&mut ids, 1000, &|_: &(), _: bool, _: &(), _: bool| Some(()))
        .err()
        .unwrap();
    assert_eq!(ids_of(&shells), before);
    assert_eq!(lengths(&shells), vec![4, 4, 4, 4, 4, 4]);
    assert_eq!(shells[0].shell_condition(), ShellCondition::Closed);
}

#[test]
fn cut_that_fails_late_leaves_the_earlier_faces_cut() {
    let lengths = |shell: &Shell<(), (), ()>| -> Vec<usize> {
        shell.faces().iter().map(|f| f.absolute_boundaries()[0].len()).collect()
    };
    let cut = |_: &(), _: &()| Some(((), ()));
    // The vertex is a corner of the last face only: the first face is cut,
    // the last one is not.
    let mut ids = IdSource::new();
    let (v, edge, solid) = cube_in(&mut ids);
    let shells = solid.cut_edge(&mut ids, edge[3].id(), &v[4], &cut).err().unwrap();
    assert_eq!(shells.len(), 1);
    assert_eq!(lengths(&shells[0]), vec![5, 4, 4, 4, 4, 4]);
    let w0 = &shells[0].face(0).absolute_boundaries()[0];
    assert_eq!(w0.edge(3).front().id(), v[3].id());
    assert_eq!(w0.edge(3).back().id(), v[4].id());
    assert_eq!(w0.edge(4).front().id(), v[4].id());
    assert_eq!(w0.edge(4).back().id(), v[0].id());
    assert_eq!(shells[0].face(5).absolute_boundaries()[0].edge(3).id(), edge[3].id());
    // The same on the shell alone.
    let mut ids = IdSource::new();
    let (v, edge, solid) = cube_in(&mut ids);
    let mut shell = solid.into_boundaries().pop().unwrap();
    assert!(!shell.cut_edge(&mut ids, edge[3].id(), &v[4], &cut));
    assert_eq!(lengths(&shell), vec![5, 4, 4, 4, 4, 4]);
    // A cut that fits cuts every face of the edge.
    let mut ids = IdSource::new();
    let (_, edge, solid) = cube_in(&mut ids);
    let mut shell = solid.into_boundaries().pop().unwrap();
    let vm = Vertex::new(&mut ids, ());
    assert!(shell.cut_edge(&mut ids, edge[3].id(), &vm, &cut));
    assert_eq!(lengths(&shell), vec![5, 4, 4, 4, 4, 5]);
}

#[test]
fn fusion_that_fails_late_leaves_the_earlier_faces_fused() {
    let lengths = |shell: &Shell<(), (), ()>| -> Vec<usize> {
        shell.faces().iter().map(|f| f.absolute_boundaries()[0].len()).collect()
    };
    let concat = |_: &(), _: bool, _: &(), _: bool| Some(());
    // Three edges meet in a corner of the cube: the first face is fused
    // along two of them, and the next face at the corner holds only one.
    let mut ids = IdSource::new();
    let (v, _, solid) = cube_in(&mut ids);
    let shells = solid.remove_vertex_by_concat_edges(&mut ids, v[0].id(), &concat).err().unwrap();
    assert_eq!(shells.len(), 1);
    assert_eq!(lengths(&shells[0]), vec![3, 4, 4, 4, 4, 4]);
    let w0 = &shells[0].face(0).absolute_boundaries()[0];
    assert!((0..3).all(|i| w0.edge(i).front().id() != v[0].id()));
    // The same on the shell alone.
    let mut ids = IdSource::new();
    let (v, _, solid) = cube_in(&mut ids);
    let mut shell = solid.into_boundaries().pop().unwrap();
    assert!(!shell.remove_vertex_by_concat_edges(&mut ids, v[0].id(), &concat));
    assert_eq!(lengths(&shell), vec![3, 4, 4, 4, 4, 4]);
}

#[test]
fn geometric_consistency_asks_every_edge() {
    let mut ids = IdSource::new();
    let (_, _, solid) = cube_in(&mut ids);
    assert!(solid.is_geometric_consistent(&|_: &(), _: &(), _: &()| true, &|_: &(), _: &()| true));
    assert!(!solid.is_geometric_consistent(&|_: &(), _: &(), _: &()| false, &|_: &(), _: &()| true));
    assert!(!solid.is_geometric_consistent(&|_: &(), _: &(), _: &()| true, &|_: &(), _: &()| false));
}

#[test]
fn solid_gives_its_shells() {
    let solid = cube();
    let copy = solid.clone();
    assert_eq!(copy.boundaries()[0].face(0).id(), solid.boundaries()[0].face(0).id());
    let shells = solid.into_boundaries();
    assert_eq!(shells.len(), 1);
    assert_eq!(shells[0].len(), 6);
    let again = Solid::new(shells);
    assert_eq!(again.boundaries()[0].len(), 6);
    let unchecked = Solid::new_unchecked(again.into_boundaries());
    let debug = Solid::debug_new(unchecked.into_boundaries());
    assert_eq!(debug.face_iter().len(), 6);
}

#[test]
fn loop_edge_on_a_closed_curve() {
    let mut ids = IdSource::new();
    let v = Vertex::new(&mut ids, 0);
    let w = Vertex::new(&mut ids, 1);
    let closed = |c: &&str| *c == "circle";
    let ring = Edge::try_new_if_closed(&mut ids, &v, &v, "circle", &closed).unwrap();
    assert_eq!(ring.front().id(), ring.back().id());
    match Edge::try_new_if_closed(&mut ids, &v, &v, "line", &closed) {
        Err(e) => assert_eq!(e, Error::SameVertex),
        Ok(_) => panic!("an open curve from a vertex to itself was accepted"),
    }
    assert!(Edge::try_new_if_closed(&mut ids, &v, &w, "line", &closed).is_ok());
    // One edge from a vertex to itself bounds a face.
    let wire = Wire::from_edges(vec![ring]).unwrap();
    assert!(wire.is_closed());
    assert!(wire.is_simple());
    assert!(Face::try_new(&mut ids, vec![wire], ()).is_ok());
}
