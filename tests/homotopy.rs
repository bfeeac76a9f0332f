use truck_shape::curve_element::{homotopy, CurveElement};
use truck_shape::errors::Error;
use truck_shape::topology::{Director, Edge, Vertex, Wire};

fn chain(director: &mut Director, n: usize, closed: bool) -> (Vec<Vertex>, Wire) {
    let m = if closed { n } else { n + 1 };
    let v: Vec<Vertex> = (0..m).map(|_| director.vertex().unwrap()).collect();
    let mut wire = Wire::new();
    for i in 0..n {
        let e = director.line(v[i], v[(i + 1) % m]).unwrap();
        wire.push_back(e).unwrap();
    }
    (v, wire)
}

#[test]
fn homotopy_of_two_edges() {
    let mut d = Director::new();
    let v: Vec<Vertex> = (0..4).map(|_| d.vertex().unwrap()).collect();
    let e0 = d.line(v[0], v[1]).unwrap();
    let e1 = d.line(v[2], v[3]).unwrap();
    let next = d.next_id();
    let lofted = homotopy(&e0, &e1, &mut d).unwrap();
    assert_eq!(d.next_id(), next + 3);
    let faces = lofted.shell.faces();
    assert_eq!(faces.len(), 1);
    let face = &faces[0];
    assert_eq!(face.id, next + 2);
    let b = face.boundary().edges();
    let bridge0 = Edge { id: next, absolute_front: v[1], absolute_back: v[3], forward: true };
    let bridge1 = Edge { id: next + 1, absolute_front: v[2], absolute_back: v[0], forward: true };
    assert_eq!(b, vec![e0, bridge0, e1.inverse(), bridge1]);
    assert_eq!(lofted.rails.len(), 1);
    assert_eq!(lofted.rails[0].0.edges(), vec![e0]);
    assert_eq!(lofted.rails[0].1.edges(), vec![e1]);
}

#[test]
fn homotopy_of_open_wires_walks_the_second_backwards() {
    let mut d = Director::new();
    let (v0, w0) = chain(&mut d, 2, false);
    let (v1, w1) = chain(&mut d, 3, false);
    let lofted = homotopy(&w0, &w1, &mut d).unwrap();
    let b = lofted.shell.faces()[0].boundary().edges();
    assert_eq!(b.len(), 2 + 1 + 3 + 1);
    for i in 0..b.len() {
        assert_eq!(b[i].back(), b[(i + 1) % b.len()].front());
    }
    assert_eq!(b[2].front(), v0[2]);
    assert_eq!(b[2].back(), v1[3]);
    assert_eq!(b[3], w1.edge(2).inverse());
    assert_eq!(b[6].back(), v0[0]);
}

#[test]
fn homotopy_of_closed_wires_gives_two_faces() {
    let mut d = Director::new();
    let (v0, w0) = chain(&mut d, 4, true);
    let (v1, w1) = chain(&mut d, 4, true);
    let next = d.next_id();
    let lofted = homotopy(&w0, &w1, &mut d).unwrap();
    assert_eq!(d.next_id(), next + 4);
    let faces = lofted.shell.faces();
    assert_eq!(faces.len(), 2);
    assert_eq!(faces[0].id, next + 2);
    assert_eq!(faces[1].id, next + 3);
    let bridge0 = Edge { id: next, absolute_front: v0[0], absolute_back: v1[0], forward: true };
    let bridge1 = Edge { id: next + 1, absolute_front: v0[2], absolute_back: v1[2], forward: true };
    let b0 = faces[0].boundary().edges();
    assert_eq!(
        b0,
        vec![
            w0.edge(0),
            w0.edge(1),
            bridge1,
            w1.edge(1).inverse(),
            w1.edge(0).inverse(),
            bridge0.inverse()
        ]
    );
    let b1 = faces[1].boundary().edges();
    assert_eq!(
        b1,
        vec![
            w0.edge(2),
            w0.edge(3),
            bridge0,
            w1.edge(3).inverse(),
            w1.edge(2).inverse(),
            bridge1.inverse()
        ]
    );
    assert_eq!(lofted.rails.len(), 2);
    assert_eq!(lofted.rails[1].1.edges(), vec![w1.edge(2), w1.edge(3)]);
    assert!(!lofted.shell.is_closed());
    assert_eq!(lofted.shell.boundary_edges().len(), 8);
}

#[test]
fn homotopy_closed_and_open_differ() {
    let mut d = Director::new();
    let (_, closed) = chain(&mut d, 4, true);
    let (_, open) = chain(&mut d, 3, false);
    let next = d.next_id();
    assert_eq!(homotopy(&closed, &open, &mut d).err(), Some(Error::DifferentHomotopyType));
    assert_eq!(homotopy(&open, &closed, &mut d).err(), Some(Error::DifferentHomotopyType));
    let e = open.edge(0);
    assert_eq!(homotopy(&e, &closed, &mut d).err(), Some(Error::DifferentHomotopyType));
    assert_eq!(d.next_id(), next);
}

#[test]
fn homotopy_without_identities_left() {
    let mut d = Director::new();
    let (_, w0) = chain(&mut d, 2, false);
    let (_, w1) = chain(&mut d, 2, false);
    let mut full = Director::with_next_id(u64::MAX - 2);
    assert_eq!(homotopy(&w0, &w1, &mut full).err(), Some(Error::IdExhausted));
    let mut room = Director::with_next_id(u64::MAX - 3);
    assert!(homotopy(&w0, &w1, &mut room).is_ok());
}

#[test]
fn curve_element_capabilities() {
    let mut d = Director::new();
    let (v, w) = chain(&mut d, 5, true);
    assert!(CurveElement::is_closed(&w));
    assert_eq!(CurveElement::front_vertex(&w), v[0]);
    assert_eq!(CurveElement::back_vertex(&w), v[0]);
    let (a, b) = w.split_wire().unwrap();
    assert_eq!(a.len(), 2);
    assert_eq!(b.len(), 3);
    let e = w.edge(1);
    assert!(!CurveElement::is_closed(&e));
    assert!(e.split_wire().is_none());
    assert_eq!(CurveElement::clone_wire(&e).edges(), vec![e]);
    assert_eq!(CurveElement::front_vertex(&e), v[1]);
    assert_eq!(CurveElement::back_vertex(&e), v[2]);
    let single = Wire::from_edge(e);
    assert!(single.split_wire().is_none());
}

#[test]
fn homotopy_mismatch_whatever_the_edges() {
    let mut d = Director::new();
    let v = d.vertex().unwrap();
    let loop_edge = d.line(v, v).unwrap();
    let one_edge_loop = Wire::from_edge(loop_edge);
    assert!(CurveElement::is_closed(&one_edge_loop));
    let empty = Wire::new();
    let (_, open) = chain(&mut d, 2, false);
    let next = d.next_id();
    assert_eq!(homotopy(&one_edge_loop, &open, &mut d).err(), Some(Error::DifferentHomotopyType));
    assert_eq!(homotopy(&empty, &one_edge_loop, &mut d).err(), Some(Error::DifferentHomotopyType));
    assert_eq!(d.next_id(), next);
}

#[test]
fn split_wire_cuts_open_wires_too() {
    let mut d = Director::new();
    let (_, open) = chain(&mut d, 3, false);
    let (a, b) = open.split_wire().unwrap();
    assert_eq!(a.edges(), vec![open.edge(0)]);
    assert_eq!(b.edges(), vec![open.edge(1), open.edge(2)]);
}
