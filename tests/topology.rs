use truck_shape::errors::Error;
use truck_shape::topology::{Director, Edge, Face, Shell, Vertex, Wire};

fn polygon(director: &mut Director, n: usize) -> (Vec<Vertex>, Wire) {
    let v: Vec<Vertex> = (0..n).map(|_| director.vertex().unwrap()).collect();
    let mut wire = Wire::new();
    for i in 0..n {
        let e = director.line(v[i], v[(i + 1) % n]).unwrap();
        wire.push_back(e).unwrap();
    }
    (v, wire)
}

#[test]
fn edge_inverse_is_involution() {
    let mut d = Director::new();
    let v0 = d.vertex().unwrap();
    let v1 = d.vertex().unwrap();
    let e = d.line(v0, v1).unwrap();
    let inv = e.inverse();
    assert_eq!(inv.id, e.id);
    assert_eq!(inv.front(), v1);
    assert_eq!(inv.back(), v0);
    assert!(inv.is_same(&e));
    assert_ne!(inv, e);
    assert_eq!(inv.inverse(), e);
}

#[test]
fn director_counts_up() {
    let mut d = Director::new();
    assert_eq!(d.vertex().unwrap(), Vertex { id: 0 });
    assert_eq!(d.vertex().unwrap(), Vertex { id: 1 });
    let e = d.line(Vertex { id: 0 }, Vertex { id: 1 }).unwrap();
    assert_eq!(e.id, 2);
    assert!(e.forward);
    assert_eq!(d.next_id(), 3);
}

#[test]
fn director_exhausted() {
    let mut d = Director::with_next_id(u64::MAX);
    assert_eq!(d.vertex(), Err(Error::IdExhausted));
    assert_eq!(d.next_id(), u64::MAX);
    let mut d = Director::with_next_id(u64::MAX - 1);
    assert_eq!(d.fresh_id(), Ok(u64::MAX - 1));
    assert_eq!(d.fresh_id(), Err(Error::IdExhausted));
}

#[test]
fn push_back_rejects_disconnected_edge() {
    let mut d = Director::new();
    let v: Vec<Vertex> = (0..4).map(|_| d.vertex().unwrap()).collect();
    let e0 = d.line(v[0], v[1]).unwrap();
    let e1 = d.line(v[2], v[3]).unwrap();
    let mut wire = Wire::new();
    assert_eq!(wire.push_back(e0), Ok(()));
    assert_eq!(wire.push_back(e1), Err(Error::CannotAddEdge(v[1], v[2])));
    assert_eq!(wire.len(), 1);
    assert_eq!(wire.push_back(e0.inverse()), Ok(()));
    assert_eq!(wire.len(), 2);
    assert_eq!(wire.back_vertex(), Some(v[0]));
    assert!(wire.is_closed());
}

#[test]
fn append_checks_the_join() {
    let mut d = Director::new();
    let v: Vec<Vertex> = (0..3).map(|_| d.vertex().unwrap()).collect();
    let e0 = d.line(v[0], v[1]).unwrap();
    let e1 = d.line(v[1], v[2]).unwrap();
    let mut w = Wire::from_edge(e0);
    assert_eq!(
        w.append(Wire::from_edge(e1.inverse())),
        Err(Error::CannotAddEdge(v[1], v[2]))
    );
    assert_eq!(w.append(Wire::from_edge(e1)), Ok(()));
    assert_eq!(w.edges(), vec![e0, e1]);
    let mut empty = Wire::new();
    assert_eq!(empty.append(w.clone_wire()), Ok(()));
    assert_eq!(empty.len(), 2);
}

#[test]
fn wire_ends_and_closure() {
    let mut d = Director::new();
    let empty = Wire::new();
    assert!(empty.is_empty());
    assert_eq!(empty.front_vertex(), None);
    assert_eq!(empty.back_vertex(), None);
    assert!(!empty.is_closed());
    let (v, wire) = polygon(&mut d, 4);
    assert!(wire.is_closed());
    assert_eq!(wire.front_vertex(), Some(v[0]));
    assert_eq!(wire.back_vertex(), Some(v[0]));
}

#[test]
fn wire_inverse_reverses_and_flips() {
    let mut d = Director::new();
    let (v, wire) = polygon(&mut d, 3);
    let inv = wire.inverse();
    let es = wire.edges();
    let is = inv.edges();
    assert_eq!(is.len(), 3);
    for i in 0..3 {
        assert_eq!(is[i], es[2 - i].inverse());
    }
    assert_eq!(inv.front_vertex(), Some(v[0]));
    assert_eq!(inv.edge(0).back(), v[2]);
    assert_eq!(inv.inverse().edges(), es);
}

#[test]
fn wire_split_off() {
    let mut d = Director::new();
    let (_, wire) = polygon(&mut d, 5);
    let es = wire.edges();
    let mut head = wire.clone_wire();
    let tail = head.split_off(2);
    assert_eq!(head.edges(), es[..2].to_vec());
    assert_eq!(tail.edges(), es[2..].to_vec());
    let mut all = head.clone_wire();
    let rest = all.split_off(2);
    assert_eq!(rest.len(), 0);
    assert_eq!(all.len(), 2);
}

#[test]
fn face_try_new_errors() {
    let mut d = Director::new();
    assert_eq!(Face::try_new(Wire::new(), &mut d).err(), Some(Error::EmptyWire));
    let v0 = d.vertex().unwrap();
    let v1 = d.vertex().unwrap();
    let e = d.line(v0, v1).unwrap();
    let next = d.next_id();
    assert_eq!(Face::try_new(Wire::from_edge(e), &mut d).err(), Some(Error::NotClosedWire));
    assert_eq!(d.next_id(), next);
    let (_, square) = polygon(&mut d, 4);
    let mut full = Director::with_next_id(u64::MAX);
    assert_eq!(Face::try_new(square, &mut full).err(), Some(Error::IdExhausted));
}

#[test]
fn face_boundary_is_closed_in_both_orientations() {
    let mut d = Director::new();
    let (_, square) = polygon(&mut d, 4);
    let es = square.edges();
    let face = Face::try_new(square, &mut d).unwrap();
    assert!(face.forward);
    let b = face.boundary().edges();
    assert_eq!(b, es);
    for i in 0..4 {
        assert_eq!(b[i].back(), b[(i + 1) % 4].front());
    }
    let back = face.inverse();
    assert_eq!(back.id, face.id);
    assert!(!back.forward);
    let bb = back.boundary().edges();
    for i in 0..4 {
        assert_eq!(bb[i], es[3 - i].inverse());
        assert_eq!(bb[i].back(), bb[(i + 1) % 4].front());
    }
    let again = back.inverse();
    assert!(again.forward);
    assert_eq!(again.boundary().edges(), es);
}

#[test]
fn shell_of_one_face_has_open_boundary() {
    let mut d = Director::new();
    let (_, square) = polygon(&mut d, 4);
    let es = square.edges();
    let face = Face::try_new(square, &mut d).unwrap();
    let shell = Shell::from_faces(vec![face]);
    assert_eq!(shell.len(), 1);
    assert_eq!(shell.edges(), es);
    assert_eq!(shell.boundary_edges(), es);
    assert!(!shell.is_closed());
}

#[test]
fn two_faces_on_one_wire_close_a_shell() {
    let mut d = Director::new();
    let (_, square) = polygon(&mut d, 4);
    let top = Face::try_new(square.clone_wire(), &mut d).unwrap();
    let bottom = top.inverse();
    let mut shell = Shell::new();
    shell.push(top);
    shell.push(bottom);
    assert_eq!(shell.edges().len(), 8);
    assert!(shell.boundary_edges().is_empty());
    assert!(shell.is_closed());
    assert_eq!(shell.faces().len(), 2);
}
