use std::collections::HashSet;
use truck_shape::builder::{rsweep_wire, tsweep_face};
use truck_shape::curve_element::homotopy;
use truck_shape::errors::Error;
use truck_shape::topology::{Director, Shell, Solid, Vertex, Wire};

fn euler(shell: &Shell) -> i64 {
    let edges = shell.edges();
    let e: HashSet<u64> = edges.iter().map(|e| e.id).collect();
    let v: HashSet<u64> = edges
        .iter()
        .flat_map(|e| vec![e.absolute_front.id, e.absolute_back.id])
        .collect();
    v.len() as i64 - e.len() as i64 + shell.len() as i64
}

fn closed_wire(director: &mut Director, n: usize) -> Wire {
    let v: Vec<Vertex> = (0..n).map(|_| director.vertex().unwrap()).collect();
    let mut wire = Wire::new();
    for i in 0..n {
        wire.push_back(director.line(v[i], v[(i + 1) % n]).unwrap()).unwrap();
    }
    wire
}

#[test]
fn torus() {
    let mut d = Director::new();
    let v0 = d.vertex().unwrap();
    let v1 = d.vertex().unwrap();
    let arc0 = d.line(v0, v1).unwrap();
    let arc1 = d.line(v1, v0).unwrap();
    let mut wire = Wire::from_edge(arc0);
    wire.push_back(arc1).unwrap();
    let shell = rsweep_wire(&wire, 4, true, &mut d).unwrap();
    assert_eq!(shell.len(), 8);
    assert!(shell.boundary_edges().is_empty());
    assert!(shell.is_closed());
    assert_eq!(euler(&shell), 0);
    assert!(Solid::try_new(vec![shell]).is_ok());
}

#[test]
fn full_turn_of_closed_wires_is_closed() {
    for n in 1..=5 {
        for k in 2..=5 {
            let mut d = Director::new();
            let wire = if n == 1 {
                let v = d.vertex().unwrap();
                Wire::from_edge(d.line(v, v).unwrap())
            } else {
                closed_wire(&mut d, n)
            };
            let shell = rsweep_wire(&wire, k, true, &mut d).unwrap();
            assert_eq!(shell.len(), n * k);
            assert!(shell.is_closed());
            assert_eq!(shell.check_solid(), None);
            assert_eq!(euler(&shell), 0);
        }
    }
}

#[test]
fn partial_turn_leaves_two_boundaries() {
    let mut d = Director::new();
    let wire = closed_wire(&mut d, 3);
    let shell = rsweep_wire(&wire, 3, false, &mut d).unwrap();
    assert_eq!(shell.len(), 9);
    assert_eq!(shell.boundary_edges().len(), 6);
    assert_eq!(Solid::try_new(vec![shell]).err(), Some(Error::NotClosedShell));
}

#[test]
fn full_turn_of_an_open_wire() {
    let mut d = Director::new();
    let v0 = d.vertex().unwrap();
    let v1 = d.vertex().unwrap();
    let wire = Wire::from_edge(d.line(v0, v1).unwrap());
    let shell = rsweep_wire(&wire, 4, true, &mut d).unwrap();
    assert_eq!(shell.len(), 4);
    let boundary = shell.boundary_edges();
    assert_eq!(boundary.len(), 8);
    assert!(boundary.iter().all(|e| !e.is_same(&wire.edge(0))));
}

#[test]
fn rsweep_without_identities_left() {
    let mut d = Director::new();
    let wire = closed_wire(&mut d, 3);
    let mut full = Director::with_next_id(u64::MAX - 5);
    assert_eq!(rsweep_wire(&wire, 2, false, &mut full).err(), Some(Error::IdExhausted));
}

#[test]
fn bottle() {
    let mut d = Director::new();
    let v0 = d.vertex().unwrap();
    let v1 = d.vertex().unwrap();
    let arc0 = d.line(v0, v1).unwrap();
    let w0 = d.vertex().unwrap();
    let w1 = d.vertex().unwrap();
    let arc1 = d.line(w0, w1).unwrap();
    let lofted = homotopy(&Wire::from_edge(arc0), &Wire::from_edge(arc1), &mut d).unwrap();
    let face = &lofted.shell.faces()[0];
    let prism = tsweep_face(face, &mut d).unwrap();
    assert_eq!(euler(&prism.shell), 2);
    let solid = Solid::try_new(vec![prism.shell]).unwrap();
    assert_eq!(solid.boundaries().len(), 1);
}

#[test]
fn tsudsumi() {
    let mut d = Director::new();
    let v0 = d.vertex().unwrap();
    let v1 = d.vertex().unwrap();
    let wire = Wire::from_edge(d.line(v0, v1).unwrap());
    let mut shell = rsweep_wire(&wire, 4, true, &mut d).unwrap();
    let boundaries = shell.extract_boundaries();
    assert_eq!(boundaries.len(), 2);
    for w in &boundaries {
        assert_eq!(w.len(), 4);
        assert!(w.is_closed());
    }
    for w in boundaries {
        shell.push(truck_shape::topology::Face::try_new(w.inverse(), &mut d).unwrap());
    }
    assert!(shell.extract_boundaries().is_empty());
    assert_eq!(euler(&shell), 2);
    assert!(Solid::try_new(vec![shell]).is_ok());
}

#[test]
fn boundaries_of_closed_and_open_shells() {
    let mut d = Director::new();
    let wire = closed_wire(&mut d, 5);
    let face = truck_shape::topology::Face::try_new(wire.clone_wire(), &mut d).unwrap();
    let shell = Shell::from_faces(vec![face]);
    let boundaries = shell.extract_boundaries();
    assert_eq!(boundaries.len(), 1);
    assert_eq!(boundaries[0].edges(), wire.edges());
    let torus = rsweep_wire(&wire, 3, true, &mut d).unwrap();
    assert!(torus.extract_boundaries().is_empty());
}
