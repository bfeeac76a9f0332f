use truck_shape::binding::GeometryBinding;
use truck_shape::errors::Error;
use truck_shape::topology::{Director, Face, Wire};

#[test]
fn binding_inserts_and_overwrites() {
    let mut d = Director::new();
    let v = d.vertex().unwrap();
    let mut g: GeometryBinding<[f64; 3], &str, &str> = GeometryBinding::new();
    assert_eq!(g.get_point(v), Err(Error::NoGeometry(v.id)));
    g.insert_point(v, [1.0, 2.0, 3.0]);
    assert_eq!(g.get_point(v), Ok(&[1.0, 2.0, 3.0]));
    g.insert_point(v, [0.0, 0.0, 0.0]);
    assert_eq!(g.get_point(v), Ok(&[0.0, 0.0, 0.0]));
}

#[test]
fn oriented_geometry_follows_the_bit() {
    let mut d = Director::new();
    let v0 = d.vertex().unwrap();
    let v1 = d.vertex().unwrap();
    let e0 = d.line(v0, v1).unwrap();
    let e1 = d.line(v1, v0).unwrap();
    let mut g: GeometryBinding<u8, &str, &str> = GeometryBinding::new();
    g.insert_curve(e0, "c0");
    assert_eq!(g.get_oriented_curve(e0), Ok((&"c0", false)));
    assert_eq!(g.get_oriented_curve(e0.inverse()), Ok((&"c0", true)));
    let mut wire = Wire::from_edge(e0);
    wire.push_back(e1).unwrap();
    assert_eq!(g.oriented_curves(&wire), Err(Error::NoGeometry(e1.id)));
    g.insert_curve(e1, "c1");
    assert_eq!(g.oriented_curves(&wire.inverse()), Ok(vec![(&"c1", true), (&"c0", true)]));
    let face = Face::try_new(wire, &mut d).unwrap();
    assert_eq!(g.get_oriented_surface(&face), Err(Error::NoGeometry(face.id)));
    g.insert_surface(&face, "s");
    assert_eq!(g.get_oriented_surface(&face.inverse()), Ok((&"s", true)));
    assert_eq!(g.get_oriented_surface(&face), Ok((&"s", false)));
}

#[test]
fn integrity_reports_missing_geometry() {
    let mut d = Director::new();
    let v0 = d.vertex().unwrap();
    let v1 = d.vertex().unwrap();
    let e0 = d.line(v0, v1).unwrap();
    let e1 = d.line(v1, v0).unwrap();
    let mut g: GeometryBinding<u8, u8, u8> = GeometryBinding::new();
    assert_eq!(g.check_edge(e0), Err(Error::NoGeometry(e0.id)));
    g.insert_curve(e0, 0);
    assert_eq!(g.check_edge(e0), Err(Error::NoGeometry(v0.id)));
    g.insert_point(v0, 0);
    assert_eq!(g.check_edge(e0.inverse()), Err(Error::NoGeometry(v1.id)));
    g.insert_point(v1, 1);
    assert_eq!(g.check_edge(e0), Ok(()));
    let mut wire = Wire::from_edge(e0);
    wire.push_back(e1).unwrap();
    let face = Face::try_new(wire, &mut d).unwrap();
    let fid = face.id;
    let shell = truck_shape::topology::Shell::from_faces(vec![face]);
    assert_eq!(g.check_shell(&shell), Err(Error::NoGeometry(fid)));
    g.insert_surface(&shell.faces()[0], 7);
    assert_eq!(g.check_shell(&shell), Err(Error::NoGeometry(e1.id)));
    g.insert_curve(e1, 1);
    assert_eq!(g.check_shell(&shell), Ok(()));
    assert_eq!(g.check_shell(&truck_shape::topology::Shell::new()), Ok(()));
}
