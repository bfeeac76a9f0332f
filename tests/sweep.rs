use std::collections::HashSet;
use truck_shape::builder::{copy_wire, tsweep_edge, tsweep_face, tsweep_vertex, tsweep_wire};
use truck_shape::curve_element::homotopy;
use truck_shape::errors::Error;
use truck_shape::topology::{Director, Face, Shell, Solid, Vertex, Wire};

fn counts(shell: &Shell) -> (usize, usize, usize) {
    let edges = shell.edges();
    let edge_ids: HashSet<u64> = edges.iter().map(|e| e.id).collect();
    let vertex_ids: HashSet<u64> = edges
        .iter()
        .flat_map(|e| vec![e.absolute_front.id, e.absolute_back.id])
        .collect();
    (shell.len(), edge_ids.len(), vertex_ids.len())
}

fn n_gon(director: &mut Director, n: usize) -> Face {
    let v: Vec<Vertex> = (0..n).map(|_| director.vertex().unwrap()).collect();
    let mut wire = Wire::new();
    for i in 0..n {
        wire.push_back(director.line(v[i], v[(i + 1) % n]).unwrap()).unwrap();
    }
    Face::try_new(wire, director).unwrap()
}

#[test]
fn cube() {
    let mut d = Director::new();
    let v = d.vertex().unwrap();
    let edge = tsweep_vertex(v, &mut d).unwrap();
    assert_eq!(edge.front(), v);
    let face = tsweep_edge(edge, &mut d).unwrap();
    let b = face.boundary().edges();
    assert_eq!(b.len(), 4);
    assert_eq!(b[0], edge);
    let prism = tsweep_face(&face, &mut d).unwrap();
    assert_eq!(counts(&prism.shell), (6, 12, 8));
    assert!(prism.shell.is_closed());
    assert_eq!(prism.shell.check_solid(), None);
    let solid = Solid::try_new(vec![prism.shell]).unwrap();
    assert_eq!(solid.boundaries().len(), 1);
}

#[test]
fn n_gon_prisms() {
    for n in 3..=8 {
        let mut d = Director::new();
        let face = n_gon(&mut d, n);
        let prism = tsweep_face(&face, &mut d).unwrap();
        assert_eq!(counts(&prism.shell), (n + 2, 3 * n, 2 * n));
        assert_eq!(prism.verticals.len(), n);
        assert_eq!(prism.tops.len(), n);
        assert!(Solid::try_new(vec![prism.shell]).is_ok());
    }
}

#[test]
fn sweep_of_inverted_face_is_closed_too() {
    let mut d = Director::new();
    let face = n_gon(&mut d, 4).inverse();
    let prism = tsweep_face(&face, &mut d).unwrap();
    assert_eq!(prism.shell.faces()[0].id, face.id);
    assert!(prism.shell.faces()[0].forward);
    assert!(Solid::try_new(vec![prism.shell]).is_ok());
}

#[test]
fn tsweep_vertex_makes_a_new_edge() {
    let mut d = Director::new();
    let v = d.vertex().unwrap();
    let e = tsweep_vertex(v, &mut d).unwrap();
    assert_eq!(e.absolute_front, v);
    assert_eq!(e.absolute_back, Vertex { id: 1 });
    assert_eq!(e.id, 2);
    assert_eq!(d.next_id(), 3);
    let mut full = Director::with_next_id(u64::MAX - 1);
    assert_eq!(tsweep_vertex(v, &mut full), Err(Error::IdExhausted));
    assert_eq!(full.next_id(), u64::MAX - 1);
}

#[test]
fn tsweep_open_wire_leaves_open_shell() {
    let mut d = Director::new();
    let v: Vec<Vertex> = (0..3).map(|_| d.vertex().unwrap()).collect();
    let mut wire = Wire::new();
    wire.push_back(d.line(v[0], v[1]).unwrap()).unwrap();
    wire.push_back(d.line(v[1], v[2]).unwrap()).unwrap();
    let swept = tsweep_wire(&wire, &mut d).unwrap();
    assert_eq!(swept.verticals.len(), 3);
    assert_eq!(swept.tops.len(), 2);
    let shell = Shell::from_faces(swept.sides);
    assert_eq!(counts(&shell), (2, 7, 6));
    assert_eq!(shell.boundary_edges().len(), 6);
    assert_eq!(Solid::try_new(vec![shell]).err(), Some(Error::NotClosedShell));
}

#[test]
fn solid_rejects_bad_shells() {
    let mut d = Director::new();
    let face = n_gon(&mut d, 3);
    let twice = Shell::from_faces(vec![face.inverse(), face.inverse().inverse()]);
    assert!(twice.is_closed());
    assert_eq!(Solid::try_new(vec![twice]).err(), None);
    let same_way = Shell::from_faces(vec![n_gon_copy(&face), n_gon_copy(&face)]);
    assert_eq!(same_way.check_solid(), Some(Error::NotOrientable));
    assert_eq!(Solid::try_new(vec![same_way]).err(), Some(Error::NotOrientable));
    let thrice = Shell::from_faces(vec![face.inverse(), n_gon_copy(&face), n_gon_copy(&face)]);
    assert_eq!(Solid::try_new(vec![thrice]).err(), Some(Error::NotManifold));
    let open = Shell::from_faces(vec![n_gon_copy(&face)]);
    let closed = Shell::from_faces(vec![face.inverse(), n_gon_copy(&face)]);
    assert_eq!(Solid::try_new(vec![closed, open]).err(), Some(Error::NotClosedShell));
    assert!(Solid::try_new(Vec::new()).is_ok());
}

fn n_gon_copy(face: &Face) -> Face {
    face.inverse().inverse()
}

#[test]
fn copy_wire_has_fresh_identities() {
    let mut d = Director::new();
    let face = n_gon(&mut d, 4);
    let wire = face.boundary().inverse();
    let start = d.next_id();
    let (copy, map) = copy_wire(&wire, &mut d).unwrap();
    assert_eq!(copy.len(), 4);
    assert_eq!(map.len(), 4);
    assert!(copy.is_closed());
    let es = wire.edges();
    let cs = copy.edges();
    for i in 0..4 {
        assert!(cs[i].id >= start);
        assert_eq!(cs[i].forward, es[i].forward);
        let image = |v: Vertex| map.iter().find(|(k, _)| *k == v).unwrap().1;
        assert_eq!(cs[i].absolute_front, image(es[i].absolute_front));
        assert_eq!(cs[i].absolute_back, image(es[i].absolute_back));
        assert!(cs[i].absolute_front.id >= start);
    }
    assert_eq!(d.next_id(), start + 8);
    let mut full = Director::with_next_id(u64::MAX - 3);
    assert_eq!(copy_wire(&wire, &mut full).err(), Some(Error::IdExhausted));
}

#[test]
fn bottle_from_copied_arc() {
    let mut d = Director::new();
    let v0 = d.vertex().unwrap();
    let v1 = d.vertex().unwrap();
    let arc = Wire::from_edge(d.line(v0, v1).unwrap());
    let (other, _) = copy_wire(&arc, &mut d).unwrap();
    let lofted = homotopy(&arc, &other, &mut d).unwrap();
    let prism = tsweep_face(&lofted.shell.faces()[0], &mut d).unwrap();
    let (f, e, v) = counts(&prism.shell);
    assert_eq!((f, e, v), (6, 12, 8));
    assert_eq!(v as i64 - e as i64 + f as i64, 2);
    assert!(Solid::try_new(vec![prism.shell]).is_ok());
}
