use vstd::prelude::*;

use crate::errors::Error;
use crate::topology::{
    closed_chain, connected, inverted_chain, lemma_inverted_chain, Director, Edge, Face, Shell,
    Vertex, Wire,
};

verus! {

/// The position a chain is cut at: the middle, rounded down.
pub open spec fn cut_point(s: Seq<Edge>) -> int {
    s.len() as int / 2
}

/// The edges before the cut point.
pub open spec fn first_half(s: Seq<Edge>) -> Seq<Edge> {
    s.subrange(0, cut_point(s))
}

/// The edges from the cut point on.
pub open spec fn second_half(s: Seq<Edge>) -> Seq<Edge> {
    s.subrange(cut_point(s), s.len() as int)
}

/// A new forward edge from `from` to `to` with identity `id`.
pub open spec fn bridge(id: int, from: Vertex, to: Vertex) -> Edge {
    Edge { id: id as u64, absolute_front: from, absolute_back: to, forward: true }
}

/// The boundary of a face lofted between `c0` and `c1`: along `c0`, over `e0` to the back of
/// `c1`, backwards along `c1`, and over `e1` to the front of `c0`.
pub open spec fn loft_boundary(c0: Seq<Edge>, e0: Edge, c1: Seq<Edge>, e1: Edge) -> Seq<Edge> {
    c0 + seq![e0] + inverted_chain(c1) + seq![e1]
}

/// `f` is a new forward face with identity `id` and boundary `b`.
pub open spec fn is_loft_face(f: Face, id: int, b: Seq<Edge>) -> bool {
    f.id == id && f.forward && f.absolute_boundary() == b && f.wf()
}

/// The outcome of a homotopy: the new faces, and for each one the two rails (in order) whose
/// curves its surface is lofted between.
#[derive(Debug)]
pub struct Lofted {
    pub shell: Shell,
    pub rails: Vec<(Wire, Wire)>,
}

/// `l` is the homotopy of the open chains `c0` and `c1`, made while the session's counter stood
/// at `n`: one face, bounded by `c0`, a new edge from its back to the back of `c1`, `c1`
/// backwards, and a new edge from the front of `c1` to the front of `c0`.
pub open spec fn is_open_loft(c0: Seq<Edge>, c1: Seq<Edge>, n: int, l: Lofted) -> bool {
    let e0 = bridge(n, c0.last().back_spec(), c1.last().back_spec());
    let e1 = bridge(n + 1, c1[0].front_spec(), c0[0].front_spec());
    &&& l.shell@.len() == 1
    &&& is_loft_face(l.shell@[0], n + 2, loft_boundary(c0, e0, c1, e1))
    &&& l.rails@.len() == 1
    &&& l.rails@[0].0@ == c0
    &&& l.rails@[0].1@ == c1
}

/// `l` is the homotopy of the closed chains `c0` and `c1`, made while the session's counter stood
/// at `n`: both are cut in halves, a new edge joins their fronts and another the ends of their
/// first halves, and each pair of halves bounds one face with those two edges.
pub open spec fn is_closed_loft(c0: Seq<Edge>, c1: Seq<Edge>, n: int, l: Lofted) -> bool {
    let (a0, a1, b0, b1) = (first_half(c0), second_half(c0), first_half(c1), second_half(c1));
    let e0 = bridge(n, c0[0].front_spec(), c1[0].front_spec());
    let e1 = bridge(n + 1, a0.last().back_spec(), b0.last().back_spec());
    &&& l.shell@.len() == 2
    &&& is_loft_face(l.shell@[0], n + 2, loft_boundary(a0, e1, b0, e0.inverted()))
    &&& is_loft_face(l.shell@[1], n + 3, loft_boundary(a1, e0, b1, e1.inverted()))
    &&& l.rails@.len() == 2
    &&& l.rails@[0].0@ == a0
    &&& l.rails@[0].1@ == b0
    &&& l.rails@[1].0@ == a1
    &&& l.rails@[1].1@ == b1
}

/// Builds the wire `w0`, `e0`, `w1` backwards, `e1` and a face on it, when each piece starts where
/// the one before it ends and `e1` ends where `w0` starts.
pub(crate) fn loft_face(w0: Wire, e0: Edge, w1: &Wire, e1: Edge, director: &mut Director) -> (r: Result<
    Face,
    Error,
>)
    requires
        w0.wf(),
        w1.wf(),
        w0@.len() > 0,
        w1@.len() > 0,
        e0.front_spec() == w0@.last().back_spec(),
        e0.back_spec() == w1@.last().back_spec(),
        e1.front_spec() == w1@[0].front_spec(),
        e1.back_spec() == w0@[0].front_spec(),
    ensures
        r.is_ok() == old(director).has_room(1),
        r matches Ok(f) ==> is_loft_face(f, old(director).next_spec() as int, loft_boundary(w0@, e0, w1@, e1))
            && final(director).next_spec() == old(director).next_spec() + 1,
        r matches Err(e) ==> e == Error::IdExhausted,
{
    let ghost c0 = w0@;
    let ghost c1 = w1@;
    let mut wire = w0;
    match wire.push_back(e0) {
        Ok(()) => {},
        Err(e) => return Err(e),
    }
    let back = w1.inverse();
    proof {
        lemma_inverted_chain(c1);
    }
    match wire.append(back) {
        Ok(()) => {},
        Err(e) => return Err(e),
    }
    assert(wire@.last() == inverted_chain(c1).last());
    match wire.push_back(e1) {
        Ok(()) => {},
        Err(e) => return Err(e),
    }
    assert(wire@ =~= loft_boundary(c0, e0, c1, e1));
    assert(wire@[0] == c0[0]);
    Face::try_new(wire, director)
}

/// What edges and wires share as the operands of a homotopy: a chain of edges with two ends,
/// which may be closed and may be cut in two.
pub trait CurveElement: Sized {
    /// The edges the element stands for, in order.
    spec fn chain(&self) -> Seq<Edge>;

    /// Whether the element counts as closed.
    spec fn closed_spec(&self) -> bool;

    /// The vertex the element starts at.
    fn front_vertex(&self) -> (r: Vertex)
        requires
            self.chain().len() > 0,
        ensures
            r == self.chain()[0].front_spec(),
    ;

    /// The vertex the element ends at.
    fn back_vertex(&self) -> (r: Vertex)
        requires
            self.chain().len() > 0,
        ensures
            r == self.chain().last().back_spec(),
    ;

    /// The element as a wire.
    fn clone_wire(&self) -> (r: Wire)
        ensures
            r@ == self.chain(),
    ;

    /// Whether the element is closed; a closed element is a closed chain.
    fn is_closed(&self) -> (r: bool)
        ensures
            r == self.closed_spec(),
            r ==> closed_chain(self.chain()),
    ;

    /// Cuts the element in two halves at the middle edge, when it has at least two edges.
    fn split_wire(&self) -> (r: Option<(Wire, Wire)>)
        requires
            connected(self.chain()),
        ensures
            self.chain().len() >= 2 ==> r is Some,
            r matches Some(halves) ==> self.chain().len() >= 2 && halves.0@ == first_half(
                self.chain(),
            ) && halves.1@ == second_half(self.chain()) && halves.0.wf() && halves.1.wf(),
    ;
}

/// Lofts a surface between `elem0` and `elem1`. Two open elements give one face, two closed
/// ones give two (see `is_open_loft` and `is_closed_loft`); an open and a closed one, whatever
/// their edges, fail with `DifferentHomotopyType`, leaving the session as it was. Otherwise the only failure is
/// `IdExhausted`, when the session has fewer than three (open) or four (closed) identities
/// left.
pub fn homotopy<C0: CurveElement, C1: CurveElement>(elem0: &C0, elem1: &C1, director: &mut Director) -> (r: Result<
    Lofted,
    Error,
>)
    requires
        elem0.closed_spec() == elem1.closed_spec() ==> is_operand(
            elem0.chain(),
            elem0.closed_spec(),
        ) && is_operand(elem1.chain(), elem1.closed_spec()),
    ensures
        (r == Err::<Lofted, Error>(Error::DifferentHomotopyType)) <==> (elem0.closed_spec()
            != elem1.closed_spec()),
        elem0.closed_spec() != elem1.closed_spec() ==> final(director).next_spec() == old(
            director,
        ).next_spec(),
        !elem0.closed_spec() && !elem1.closed_spec() ==> r.is_ok() == old(director).has_room(3),
        elem0.closed_spec() && elem1.closed_spec() ==> r.is_ok() == old(director).has_room(4),
        r matches Ok(l) ==> if elem0.closed_spec() {
            is_closed_loft(elem0.chain(), elem1.chain(), old(director).next_spec() as int, l)
        } else {
            is_open_loft(elem0.chain(), elem1.chain(), old(director).next_spec() as int, l)
        },
        r matches Err(e) ==> e == Error::DifferentHomotopyType || e == Error::IdExhausted,
        elem0.closed_spec() == elem1.closed_spec() ==> (r matches Err(e) ==> e == Error::IdExhausted),
{
    let closed0 = elem0.is_closed();
    let closed1 = elem1.is_closed();
    if closed0 && closed1 {
        closed_homotopy(elem0, elem1, director)
    } else if !closed0 && !closed1 {
        open_homotopy(elem0, elem1, director)
    } else {
        Err(Error::DifferentHomotopyType)
    }
}

/// A chain that can take part in a homotopy: connected and nonempty, and with two edges at least
/// when it is closed, so that it can be cut in halves.
pub open spec fn is_operand(s: Seq<Edge>, closed: bool) -> bool {
    connected(s) && s.len() > 0 && (closed ==> s.len() >= 2)
}

fn open_homotopy<C0: CurveElement, C1: CurveElement>(
    elem0: &C0,
    elem1: &C1,
    director: &mut Director,
) -> (r: Result<Lofted, Error>)
    requires
        is_operand(elem0.chain(), false),
        is_operand(elem1.chain(), false),
    ensures
        r.is_ok() == old(director).has_room(3),
        r matches Ok(l) ==> is_open_loft(
            elem0.chain(),
            elem1.chain(),
            old(director).next_spec() as int,
            l,
        ),
        r matches Err(e) ==> e == Error::IdExhausted,
{
    let edge0 = match director.line(elem0.back_vertex(), elem1.back_vertex()) {
        Ok(e) => e,
        Err(e) => return Err(e),
    };
    let edge1 = match director.line(elem1.front_vertex(), elem0.front_vertex()) {
        Ok(e) => e,
        Err(e) => return Err(e),
    };
    let wire0 = elem0.clone_wire();
    let wire1 = elem1.clone_wire();
    let face = match loft_face(wire0, edge0, &wire1, edge1, director) {
        Ok(f) => f,
        Err(e) => return Err(e),
    };
    let mut faces: Vec<Face> = Vec::new();
    faces.push(face);
    let mut rails: Vec<(Wire, Wire)> = Vec::new();
    rails.push((elem0.clone_wire(), wire1));
    Ok(Lofted { shell: Shell::from_faces(faces), rails })
}

fn closed_homotopy<C0: CurveElement, C1: CurveElement>(
    elem0: &C0,
    elem1: &C1,
    director: &mut Director,
) -> (r: Result<Lofted, Error>)
    requires
        is_operand(elem0.chain(), true),
        is_operand(elem1.chain(), true),
        elem0.closed_spec(),
        elem1.closed_spec(),
        closed_chain(elem0.chain()),
        closed_chain(elem1.chain()),
    ensures
        r.is_ok() == old(director).has_room(4),
        r matches Ok(l) ==> is_closed_loft(
            elem0.chain(),
            elem1.chain(),
            old(director).next_spec() as int,
            l,
        ),
        r matches Err(e) ==> e == Error::IdExhausted,
{
    let ghost c0 = elem0.chain();
    let ghost c1 = elem1.chain();
    let (wire0, wire1) = elem0.split_wire().unwrap();
    let (wire2, wire3) = elem1.split_wire().unwrap();
    proof {
        assert(c0 =~= wire0@ + wire1@);
        assert(c1 =~= wire2@ + wire3@);
        assert(c0[cut_point(c0) - 1].back_spec() == c0[cut_point(c0)].front_spec());
        assert(c1[cut_point(c1) - 1].back_spec() == c1[cut_point(c1)].front_spec());
    }
    let edge0 = match director.line(wire0.edge(0).front(), wire2.edge(0).front()) {
        Ok(e) => e,
        Err(e) => return Err(e),
    };
    let edge1 = match director.line(
        wire0.edge(wire0.len() - 1).back(),
        wire2.edge(wire2.len() - 1).back(),
    ) {
        Ok(e) => e,
        Err(e) => return Err(e),
    };
    let face0 = match loft_face(wire0.clone_wire(), edge1, &wire2, edge0.inverse(), director) {
        Ok(f) => f,
        Err(e) => return Err(e),
    };
    let face1 = match loft_face(wire1.clone_wire(), edge0, &wire3, edge1.inverse(), director) {
        Ok(f) => f,
        Err(e) => return Err(e),
    };
    let mut faces: Vec<Face> = Vec::new();
    faces.push(face0);
    faces.push(face1);
    let mut rails: Vec<(Wire, Wire)> = Vec::new();
    rails.push((wire0, wire2));
    rails.push((wire1, wire3));
    Ok(Lofted { shell: Shell::from_faces(faces), rails })
}

impl CurveElement for Edge {
    open spec fn chain(&self) -> Seq<Edge> {
        seq![*self]
    }

    open spec fn closed_spec(&self) -> bool {
        false
    }

    fn front_vertex(&self) -> (r: Vertex) {
        self.front()
    }

    fn back_vertex(&self) -> (r: Vertex) {
        self.back()
    }

    fn clone_wire(&self) -> (r: Wire) {
        Wire::from_edge(*self)
    }

    fn is_closed(&self) -> (r: bool) {
        false
    }

    fn split_wire(&self) -> (r: Option<(Wire, Wire)>) {
        None
    }
}

impl CurveElement for Wire {
    open spec fn chain(&self) -> Seq<Edge> {
        self@
    }

    open spec fn closed_spec(&self) -> bool {
        closed_chain(self@)
    }

    fn front_vertex(&self) -> (r: Vertex) {
        self.edge(0).front()
    }

    fn back_vertex(&self) -> (r: Vertex) {
        self.edge(self.len() - 1).back()
    }

    fn clone_wire(&self) -> (r: Wire) {
        Wire::clone_wire(self)
    }

    fn is_closed(&self) -> (r: bool) {
        Wire::is_closed(self)
    }

    fn split_wire(&self) -> (r: Option<(Wire, Wire)>) {
        let n = self.len();
        if n < 2 {
            None
        } else {
            let mut part0 = Wire::clone_wire(self);
            let part1 = part0.split_off(n / 2);
            Some((part0, part1))
        }
    }
}

} // verus!
