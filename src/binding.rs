use vstd::prelude::*;

use std::collections::HashMap;

use crate::errors::Error;
use crate::topology::{Edge, Face, Shell, Vertex, Wire};

verus! {

broadcast use vstd::std_specs::hash::group_hash_axioms;

/// The geometry of the entities, by identity: a point `P` for each vertex, a curve `C` for each
/// edge and a surface `S` for each face. Curves and surfaces are held in their forward
/// orientation.
#[derive(Debug)]
pub struct GeometryBinding<P, C, S> {
    points: HashMap<u64, P>,
    curves: HashMap<u64, C>,
    surfaces: HashMap<u64, S>,
}

impl<P, C, S> GeometryBinding<P, C, S> {
    /// The points, by vertex identity.
    pub closed spec fn points_spec(&self) -> Map<u64, P> {
        self.points@
    }

    /// The curves, by edge identity.
    pub closed spec fn curves_spec(&self) -> Map<u64, C> {
        self.curves@
    }

    /// The surfaces, by face identity.
    pub closed spec fn surfaces_spec(&self) -> Map<u64, S> {
        self.surfaces@
    }

    /// The binding with no geometry.
    pub fn new() -> (r: Self)
        ensures
            r.points_spec() == Map::<u64, P>::empty(),
            r.curves_spec() == Map::<u64, C>::empty(),
            r.surfaces_spec() == Map::<u64, S>::empty(),
    {
        GeometryBinding { points: HashMap::new(), curves: HashMap::new(), surfaces: HashMap::new() }
    }

    /// Binds `point` to `v`, replacing what was bound to it.
    pub fn insert_point(&mut self, v: Vertex, point: P)
        ensures
            final(self).points_spec() == old(self).points_spec().insert(v.id, point),
            final(self).curves_spec() == old(self).curves_spec(),
            final(self).surfaces_spec() == old(self).surfaces_spec(),
    {
        self.points.insert(v.id, point);
    }

    /// Binds `curve` to `e`, replacing what was bound to it. The curve runs from the absolute
    /// front of `e` to its absolute back.
    pub fn insert_curve(&mut self, e: Edge, curve: C)
        ensures
            final(self).curves_spec() == old(self).curves_spec().insert(e.id, curve),
            final(self).points_spec() == old(self).points_spec(),
            final(self).surfaces_spec() == old(self).surfaces_spec(),
    {
        self.curves.insert(e.id, curve);
    }

    /// Binds `surface` to `f`, replacing what was bound to it.
    pub fn insert_surface(&mut self, f: &Face, surface: S)
        ensures
            final(self).surfaces_spec() == old(self).surfaces_spec().insert(f.id, surface),
            final(self).points_spec() == old(self).points_spec(),
            final(self).curves_spec() == old(self).curves_spec(),
    {
        self.surfaces.insert(f.id, surface);
    }

    /// The point of `v`; `NoGeometry` with its identity when none is bound.
    pub fn get_point(&self, v: Vertex) -> (r: Result<&P, Error>)
        ensures
            r.is_ok() == self.points_spec().contains_key(v.id),
            r matches Ok(p) ==> *p == self.points_spec()[v.id],
            r matches Err(e) ==> e == Error::NoGeometry(v.id),
    {
        match self.points.get(&v.id) {
            Some(p) => Ok(p),
            None => Err(Error::NoGeometry(v.id)),
        }
    }

    /// The curve of `e` in its forward orientation, and whether `e` walks it backwards;
    /// `NoGeometry` with its identity when none is bound.
    pub fn get_oriented_curve(&self, e: Edge) -> (r: Result<(&C, bool), Error>)
        ensures
            r.is_ok() == self.curves_spec().contains_key(e.id),
            r matches Ok(c) ==> *c.0 == self.curves_spec()[e.id] && c.1 == !e.forward,
            r matches Err(err) ==> err == Error::NoGeometry(e.id),
    {
        match self.curves.get(&e.id) {
            Some(c) => Ok((c, !e.forward)),
            None => Err(Error::NoGeometry(e.id)),
        }
    }

    /// The curves of the edges of `w`, in order, each with whether its edge walks it backwards:
    /// what is concatenated into the curve of the wire. `NoGeometry` with the identity of the
    /// first edge that has no curve.
    pub fn oriented_curves(&self, w: &Wire) -> (r: Result<Vec<(&C, bool)>, Error>)
        ensures
            r.is_ok() == forall|i: int|
                0 <= i < w@.len() ==> self.curves_spec().contains_key(#[trigger] w@[i].id),
            r matches Ok(cs) ==> cs@.len() == w@.len() && forall|i: int|
                0 <= i < w@.len() ==> *(#[trigger] cs@[i]).0 == self.curves_spec()[w@[i].id]
                    && cs@[i].1 == !w@[i].forward,
            r matches Err(err) ==> exists|i: int|
                0 <= i < w@.len() && err == Error::NoGeometry(w@[i].id) && !self.curves_spec().contains_key(
                    w@[i].id,
                ) && forall|j: int|
                    0 <= j < i ==> self.curves_spec().contains_key(#[trigger] w@[j].id),
    {
        let mut cs: Vec<(&C, bool)> = Vec::new();
        let mut i: usize = 0;
        while i < w.len()
            invariant
                i <= w@.len(),
                cs@.len() == i,
                forall|k: int| 0 <= k < i ==> self.curves_spec().contains_key(#[trigger] w@[k].id),
                forall|k: int|
                    0 <= k < i ==> *(#[trigger] cs@[k]).0 == self.curves_spec()[w@[k].id]
                        && cs@[k].1 == !w@[k].forward,
            decreases w@.len() - i,
        {
            let e = w.edge(i);
            match self.get_oriented_curve(e) {
                Ok(c) => cs.push(c),
                Err(err) => return Err(err),
            }
            i = i + 1;
        }
        Ok(cs)
    }

    /// Whether the edge, its curve and both its vertices have geometry.
    pub open spec fn edge_bound(&self, e: Edge) -> bool {
        &&& self.curves_spec().contains_key(e.id)
        &&& self.points_spec().contains_key(e.absolute_front.id)
        &&& self.points_spec().contains_key(e.absolute_back.id)
    }

    /// Whether the face has a surface and each edge of its boundary is bound.
    pub open spec fn face_bound(&self, f: Face) -> bool {
        &&& self.surfaces_spec().contains_key(f.id)
        &&& forall|i: int|
            0 <= i < f.absolute_boundary().len() ==> self.edge_bound(#[trigger] f.absolute_boundary()[i])
    }

    /// Checks that the edge has its curve and its vertices their points; `NoGeometry` with the
    /// identity of the first one that is missing, in that order.
    pub fn check_edge(&self, e: Edge) -> (r: Result<(), Error>)
        ensures
            r.is_ok() == self.edge_bound(e),
            r matches Err(err) ==> err == (if !self.curves_spec().contains_key(e.id) {
                Error::NoGeometry(e.id)
            } else if !self.points_spec().contains_key(e.absolute_front.id) {
                Error::NoGeometry(e.absolute_front.id)
            } else {
                Error::NoGeometry(e.absolute_back.id)
            }),
    {
        if !self.curves.contains_key(&e.id) {
            return Err(Error::NoGeometry(e.id));
        }
        if !self.points.contains_key(&e.absolute_front.id) {
            return Err(Error::NoGeometry(e.absolute_front.id));
        }
        if !self.points.contains_key(&e.absolute_back.id) {
            return Err(Error::NoGeometry(e.absolute_back.id));
        }
        Ok(())
    }

    /// Checks that every face of the shell has its surface and every boundary edge and vertex its
    /// geometry; `NoGeometry` with the identity of something that has none.
    pub fn check_shell(&self, shell: &Shell) -> (r: Result<(), Error>)
        ensures
            r.is_ok() == forall|k: int| 0 <= k < shell@.len() ==> self.face_bound(#[trigger] shell@[k]),
            r matches Err(err) ==> err matches Error::NoGeometry(_),
    {
        let faces = shell.faces();
        let mut k: usize = 0;
        while k < faces.len()
            invariant
                faces@ == shell@,
                k <= faces@.len(),
                forall|j: int| 0 <= j < k ==> self.face_bound(#[trigger] faces@[j]),
            decreases faces@.len() - k,
        {
            let f = &faces[k];
            if !self.surfaces.contains_key(&f.id) {
                return Err(Error::NoGeometry(f.id));
            }
            let b = &f.boundary;
            let mut i: usize = 0;
            while i < b.len()
                invariant
                    faces@ == shell@,
                    k < faces@.len(),
                    *f == faces@[k as int],
                    b@ == f.absolute_boundary(),
                    i <= b@.len(),
                    forall|j: int| 0 <= j < i ==> self.edge_bound(#[trigger] b@[j]),
                decreases b@.len() - i,
            {
                match self.check_edge(b.edge(i)) {
                    Ok(()) => {},
                    Err(err) => {
                        assert(!self.edge_bound(f.absolute_boundary()[i as int]));
                        assert(!self.face_bound(shell@[k as int]));
                        return Err(err);
                    },
                }
                i = i + 1;
            }
            k = k + 1;
        }
        Ok(())
    }

    /// The surface of `f` in its forward orientation, and whether `f` is turned over;
    /// `NoGeometry` with its identity when none is bound.
    pub fn get_oriented_surface(&self, f: &Face) -> (r: Result<(&S, bool), Error>)
        ensures
            r.is_ok() == self.surfaces_spec().contains_key(f.id),
            r matches Ok(s) ==> *s.0 == self.surfaces_spec()[f.id] && s.1 == !f.forward,
            r matches Err(err) ==> err == Error::NoGeometry(f.id),
    {
        match self.surfaces.get(&f.id) {
            Some(s) => Ok((s, !f.forward)),
            None => Err(Error::NoGeometry(f.id)),
        }
    }
}

} // verus!
