use vstd::prelude::*;

use crate::errors::Error;

verus! {

/// A vertex: an identity, whose point lives in the geometry binding.
#[derive(Clone, Copy, Debug, PartialEq, Eq, Structural)]
pub struct Vertex {
    pub id: u64,
}

/// An edge: an identity, its two vertices in forward order, and an orientation bit.
/// With `forward` false the edge is walked from `absolute_back` to `absolute_front`.
#[derive(Clone, Copy, Debug, PartialEq, Eq, Structural)]
pub struct Edge {
    pub id: u64,
    pub absolute_front: Vertex,
    pub absolute_back: Vertex,
    pub forward: bool,
}

impl Edge {
    /// The vertex the oriented edge starts at.
    pub open spec fn front_spec(self) -> Vertex {
        if self.forward { self.absolute_front } else { self.absolute_back }
    }

    /// The vertex the oriented edge ends at.
    pub open spec fn back_spec(self) -> Vertex {
        if self.forward { self.absolute_back } else { self.absolute_front }
    }

    /// The same edge walked the other way.
    pub open spec fn inverted(self) -> Edge {
        Edge { forward: !self.forward, ..self }
    }

    pub fn front(&self) -> (r: Vertex)
        ensures
            r == self.front_spec(),
    {
        if self.forward { self.absolute_front } else { self.absolute_back }
    }

    pub fn back(&self) -> (r: Vertex)
        ensures
            r == self.back_spec(),
    {
        if self.forward { self.absolute_back } else { self.absolute_front }
    }

    /// Returns the edge with the same identity and the orientation bit flipped.
    pub fn inverse(&self) -> (r: Edge)
        ensures
            r == self.inverted(),
    {
        Edge {
            id: self.id,
            absolute_front: self.absolute_front,
            absolute_back: self.absolute_back,
            forward: !self.forward,
        }
    }

    /// Whether two edges carry the same identity, whatever their orientation.
    pub fn is_same(&self, other: &Edge) -> (r: bool)
        ensures
            r == (self.id == other.id),
    {
        self.id == other.id
    }
}

/// Inverting an edge twice gives the edge back.
pub proof fn lemma_edge_inverse_involution(e: Edge)
    ensures
        e.inverted().inverted() == e,
        e.inverted().id == e.id,
        e.inverted().front_spec() == e.back_spec(),
        e.inverted().back_spec() == e.front_spec(),
{
}


/// Consecutive edges meet: each one ends where the next one starts.
pub open spec fn connected(s: Seq<Edge>) -> bool {
    forall|i: int| 0 <= i < s.len() - 1 ==> #[trigger] s[i].back_spec() == s[i + 1].front_spec()
}

/// A nonempty chain whose last edge ends where its first edge starts.
pub open spec fn closed_chain(s: Seq<Edge>) -> bool {
    s.len() > 0 && s[0].front_spec() == s[s.len() - 1].back_spec()
}

/// The chain walked backwards: the edges in reverse order, each inverted.
pub open spec fn inverted_chain(s: Seq<Edge>) -> Seq<Edge> {
    Seq::new(s.len(), |i: int| s[s.len() - 1 - i].inverted())
}

/// The first vertex of a chain, if it has an edge.
pub open spec fn chain_front(s: Seq<Edge>) -> Option<Vertex> {
    if s.len() == 0 { None } else { Some(s[0].front_spec()) }
}

/// The last vertex of a chain, if it has an edge.
pub open spec fn chain_back(s: Seq<Edge>) -> Option<Vertex> {
    if s.len() == 0 { None } else { Some(s[s.len() - 1].back_spec()) }
}

/// Whether the chain `b` may follow the chain `a`: one of them is empty, or `b` starts where
/// `a` ends.
pub open spec fn joinable(a: Seq<Edge>, b: Seq<Edge>) -> bool {
    a.len() == 0 || b.len() == 0 || a[a.len() - 1].back_spec() == b[0].front_spec()
}

/// Two connected chains that are joinable make a connected chain.
pub proof fn lemma_join_connected(a: Seq<Edge>, b: Seq<Edge>)
    requires
        connected(a),
        connected(b),
        joinable(a, b),
    ensures
        connected(a + b),
{
    let c = a + b;
    assert forall|i: int| 0 <= i < c.len() - 1 implies #[trigger] c[i].back_spec()
        == c[i + 1].front_spec() by {
        if i < a.len() - 1 {
            assert(c[i] == a[i] && c[i + 1] == a[i + 1]);
        } else if i == a.len() - 1 {
            assert(c[i] == a[i] && c[i + 1] == b[0]);
        } else {
            assert(c[i] == b[i - a.len()] && c[i + 1] == b[i + 1 - a.len()]);
        }
    }
}

/// A connected chain walked backwards is connected, and its ends are swapped.
pub proof fn lemma_inverted_chain(s: Seq<Edge>)
    requires
        connected(s),
    ensures
        connected(inverted_chain(s)),
        inverted_chain(s).len() == s.len(),
        s.len() > 0 ==> inverted_chain(s)[0].front_spec() == s[s.len() - 1].back_spec(),
        s.len() > 0 ==> inverted_chain(s)[s.len() - 1].back_spec() == s[0].front_spec(),
{
    let r = inverted_chain(s);
    assert forall|i: int| 0 <= i < r.len() - 1 implies #[trigger] r[i].back_spec()
        == r[i + 1].front_spec() by {
        let j = s.len() - 2 - i;
        assert(s[j].back_spec() == s[j + 1].front_spec());
    }
}

/// Walking a chain backwards twice gives the chain back.
pub proof fn lemma_inverted_chain_involution(s: Seq<Edge>)
    ensures
        inverted_chain(inverted_chain(s)) == s,
{
    assert(inverted_chain(inverted_chain(s)) =~= s);
}

/// Every part of a connected chain is connected.
pub proof fn lemma_subrange_connected(s: Seq<Edge>, lo: int, hi: int)
    requires
        connected(s),
        0 <= lo <= hi <= s.len(),
    ensures
        connected(s.subrange(lo, hi)),
{
    let t = s.subrange(lo, hi);
    assert forall|i: int| 0 <= i < t.len() - 1 implies #[trigger] t[i].back_spec()
        == t[i + 1].front_spec() by {
        assert(s[lo + i].back_spec() == s[lo + i + 1].front_spec());
    }
}

/// A wire: a chain of oriented edges, each one starting where the one before it ends.
#[derive(Debug)]
pub struct Wire {
    edges: Vec<Edge>,
}

impl View for Wire {
    type V = Seq<Edge>;

    closed spec fn view(&self) -> Seq<Edge> {
        self.edges@
    }
}

impl Wire {
    /// The wire's edges are connected.
    pub open spec fn wf(&self) -> bool {
        connected(self@)
    }

    /// The empty wire.
    pub fn new() -> (r: Wire)
        ensures
            r@ == Seq::<Edge>::empty(),
            r.wf(),
    {
        Wire { edges: Vec::new() }
    }

    /// The wire of one edge.
    pub fn from_edge(edge: Edge) -> (r: Wire)
        ensures
            r@ == seq![edge],
            r.wf(),
    {
        let mut edges: Vec<Edge> = Vec::new();
        edges.push(edge);
        Wire { edges }
    }

    pub fn len(&self) -> (r: usize)
        ensures
            r == self@.len(),
    {
        self.edges.len()
    }

    pub fn is_empty(&self) -> (r: bool)
        ensures
            r == (self@.len() == 0),
    {
        self.edges.len() == 0
    }

    /// The edge at position `i`.
    pub fn edge(&self, i: usize) -> (r: Edge)
        requires
            i < self@.len(),
        ensures
            r == self@[i as int],
    {
        self.edges[i]
    }

    /// The edges of the wire, in order.
    pub fn edges(&self) -> (r: Vec<Edge>)
        ensures
            r@ == self@,
    {
        let mut r: Vec<Edge> = Vec::new();
        let mut i: usize = 0;
        while i < self.edges.len()
            invariant
                i <= self.edges@.len(),
                r@ == self.edges@.subrange(0, i as int),
            decreases self.edges@.len() - i,
        {
            r.push(self.edges[i]);
            i = i + 1;
            assert(r@ =~= self.edges@.subrange(0, i as int));
        }
        assert(r@ =~= self.edges@);
        r
    }

    /// A copy of the wire.
    pub fn clone_wire(&self) -> (r: Wire)
        ensures
            r@ == self@,
    {
        Wire { edges: self.edges() }
    }

    /// The vertex the wire starts at, `None` for the empty wire.
    pub fn front_vertex(&self) -> (r: Option<Vertex>)
        ensures
            r == chain_front(self@),
    {
        if self.edges.len() == 0 {
            None
        } else {
            Some(self.edges[0].front())
        }
    }

    /// The vertex the wire ends at, `None` for the empty wire.
    pub fn back_vertex(&self) -> (r: Option<Vertex>)
        ensures
            r == chain_back(self@),
    {
        if self.edges.len() == 0 {
            None
        } else {
            Some(self.edges[self.edges.len() - 1].back())
        }
    }

    /// Whether the wire is nonempty and ends where it starts.
    pub fn is_closed(&self) -> (r: bool)
        ensures
            r == closed_chain(self@),
    {
        if self.edges.len() == 0 {
            false
        } else {
            self.edges[0].front() == self.edges[self.edges.len() - 1].back()
        }
    }

    /// Puts `edge` at the end of the wire. Fails, leaving the wire as it was, when the wire is
    /// nonempty and ends elsewhere than where `edge` starts; the error carries the wire's back
    /// vertex and the edge's front vertex.
    pub fn push_back(&mut self, edge: Edge) -> (r: Result<(), Error>)
        requires
            old(self).wf(),
        ensures
            final(self).wf(),
            r.is_ok() == joinable(old(self)@, seq![edge]),
            r.is_ok() ==> final(self)@ == old(self)@.push(edge),
            r matches Err(e) ==> final(self)@ == old(self)@ && e == Error::CannotAddEdge(
                old(self)@.last().back_spec(),
                edge.front_spec(),
            ),
    {
        let n = self.edges.len();
        if n > 0 {
            let back = self.edges[n - 1].back();
            let front = edge.front();
            if back != front {
                return Err(Error::CannotAddEdge(back, front));
            }
        }
        proof {
            lemma_join_connected(self@, seq![edge]);
            assert(self@ + seq![edge] =~= self@.push(edge));
        }
        self.edges.push(edge);
        Ok(())
    }

    /// Puts the edges of `other` at the end of the wire. Fails, leaving the wire as it was, when
    /// both are nonempty and `other` starts elsewhere than where the wire ends.
    pub fn append(&mut self, other: Wire) -> (r: Result<(), Error>)
        requires
            old(self).wf(),
            other.wf(),
        ensures
            final(self).wf(),
            r.is_ok() == joinable(old(self)@, other@),
            r.is_ok() ==> final(self)@ == old(self)@ + other@,
            r matches Err(e) ==> final(self)@ == old(self)@ && e == Error::CannotAddEdge(
                old(self)@.last().back_spec(),
                other@[0].front_spec(),
            ),
    {
        let n = self.edges.len();
        if n > 0 && other.edges.len() > 0 {
            let back = self.edges[n - 1].back();
            let front = other.edges[0].front();
            if back != front {
                return Err(Error::CannotAddEdge(back, front));
            }
        }
        proof {
            lemma_join_connected(self@, other@);
        }
        let mut tail = other.edges;
        self.edges.append(&mut tail);
        Ok(())
    }

    /// The wire walked backwards: its edges in reverse order, each one inverted.
    pub fn inverse(&self) -> (r: Wire)
        requires
            self.wf(),
        ensures
            r@ == inverted_chain(self@),
            r.wf(),
    {
        let n = self.edges.len();
        let mut edges: Vec<Edge> = Vec::new();
        let mut i: usize = 0;
        while i < n
            invariant
                n == self.edges@.len(),
                i <= n,
                edges@ == inverted_chain(self@).subrange(0, i as int),
            decreases n - i,
        {
            edges.push(self.edges[n - 1 - i].inverse());
            i = i + 1;
            assert(edges@ =~= inverted_chain(self@).subrange(0, i as int));
        }
        assert(edges@ =~= inverted_chain(self@));
        proof {
            lemma_inverted_chain(self@);
        }
        Wire { edges }
    }

    /// Cuts the wire at `at`: the wire keeps the first `at` edges and the rest is returned.
    pub fn split_off(&mut self, at: usize) -> (r: Wire)
        requires
            old(self).wf(),
            at <= old(self)@.len(),
        ensures
            final(self)@ == old(self)@.subrange(0, at as int),
            r@ == old(self)@.subrange(at as int, old(self)@.len() as int),
            final(self).wf(),
            r.wf(),
    {
        proof {
            lemma_subrange_connected(self@, 0, at as int);
            lemma_subrange_connected(self@, at as int, self@.len() as int);
        }
        let rest = self.edges.split_off(at);
        Wire { edges: rest }
    }
}

/// A closed wire ends at the vertex it starts at.
pub proof fn lemma_closed_wire_ends_meet(w: &Wire)
    requires
        closed_chain(w@),
    ensures
        chain_front(w@) is Some,
        chain_front(w@) == chain_back(w@),
{
}


/// The modeling session: it hands out the identities of new vertices, edges and faces from a
/// counter that only grows.
#[derive(Debug)]
pub struct Director {
    next_id: u64,
}

impl Director {
    /// The identity the next new entity will get.
    pub closed spec fn next_spec(&self) -> u64 {
        self.next_id
    }

    /// Whether `k` more identities can still be handed out.
    pub open spec fn has_room(&self, k: int) -> bool {
        self.next_spec() + k <= u64::MAX
    }

    /// Whether `k` more identities can still be handed out.
    pub fn has_room_for(&self, k: u64) -> (r: bool)
        ensures
            r == self.has_room(k as int),
    {
        self.next_id <= u64::MAX - k
    }

    /// A session whose counter starts at zero.
    pub fn new() -> (r: Director)
        ensures
            r.next_spec() == 0,
    {
        Director { next_id: 0 }
    }

    /// A session that resumes with `next_id` as the next identity.
    pub fn with_next_id(next_id: u64) -> (r: Director)
        ensures
            r.next_spec() == next_id,
    {
        Director { next_id }
    }

    /// The identity the next new entity will get.
    pub fn next_id(&self) -> (r: u64)
        ensures
            r == self.next_spec(),
    {
        self.next_id
    }

    /// Takes the next identity. Fails with `IdExhausted`, changing nothing, once the counter has
    /// reached its largest value.
    pub fn fresh_id(&mut self) -> (r: Result<u64, Error>)
        ensures
            r.is_ok() == old(self).has_room(1),
            r matches Ok(id) ==> id == old(self).next_spec() && final(self).next_spec() == id + 1,
            r matches Err(e) ==> e == Error::IdExhausted && final(self).next_spec()
                == old(self).next_spec(),
    {
        if self.next_id == u64::MAX {
            Err(Error::IdExhausted)
        } else {
            let id = self.next_id;
            self.next_id = id + 1;
            Ok(id)
        }
    }

    /// A new vertex.
    pub fn vertex(&mut self) -> (r: Result<Vertex, Error>)
        ensures
            r.is_ok() == old(self).has_room(1),
            r matches Ok(v) ==> v.id == old(self).next_spec() && final(self).next_spec() == v.id
                + 1,
            r matches Err(e) ==> e == Error::IdExhausted && final(self).next_spec()
                == old(self).next_spec(),
    {
        match self.fresh_id() {
            Ok(id) => Ok(Vertex { id }),
            Err(e) => Err(e),
        }
    }

    /// A new edge from `v0` to `v1`, in forward orientation.
    pub fn line(&mut self, v0: Vertex, v1: Vertex) -> (r: Result<Edge, Error>)
        ensures
            r.is_ok() == old(self).has_room(1),
            r matches Ok(e) ==> e == (Edge {
                id: old(self).next_spec(),
                absolute_front: v0,
                absolute_back: v1,
                forward: true,
            }) && final(self).next_spec() == e.id + 1,
            r matches Err(e) ==> e == Error::IdExhausted && final(self).next_spec()
                == old(self).next_spec(),
    {
        match self.fresh_id() {
            Ok(id) => Ok(Edge { id, absolute_front: v0, absolute_back: v1, forward: true }),
            Err(e) => Err(e),
        }
    }
}

/// A face: an identity, a closed boundary wire, and an orientation bit. With `forward` false the
/// face is turned over and its boundary is walked backwards.
#[derive(Debug)]
pub struct Face {
    pub id: u64,
    pub forward: bool,
    pub boundary: Wire,
}

impl Face {
    /// The boundary as it was given to the face, whatever its orientation.
    pub open spec fn absolute_boundary(&self) -> Seq<Edge> {
        self.boundary@
    }

    /// The boundary in the face's orientation.
    pub open spec fn boundary_spec(&self) -> Seq<Edge> {
        if self.forward {
            self.absolute_boundary()
        } else {
            inverted_chain(self.absolute_boundary())
        }
    }

    /// The boundary is a closed wire.
    pub open spec fn wf(&self) -> bool {
        connected(self.absolute_boundary()) && closed_chain(self.absolute_boundary())
    }

    /// Whether `self` is `other` turned over: same identity and boundary, other orientation.
    pub open spec fn is_inverse_of(&self, other: &Face) -> bool {
        self.id == other.id && self.forward == !other.forward && self.absolute_boundary()
            == other.absolute_boundary()
    }

    /// A face bounded by `wire`, with a new identity. Fails with `EmptyWire` on a wire without
    /// edges, with `NotClosedWire` on one that does not end where it starts, and with
    /// `IdExhausted` when no identity is left; the session changes only on success.
    pub fn try_new(wire: Wire, director: &mut Director) -> (r: Result<Face, Error>)
        requires
            wire.wf(),
        ensures
            r.is_ok() == (closed_chain(wire@) && old(director).has_room(1)),
            r matches Err(e) ==> final(director).next_spec() == old(director).next_spec() && e == (
            if wire@.len() == 0 {
                Error::EmptyWire
            } else if !closed_chain(wire@) {
                Error::NotClosedWire
            } else {
                Error::IdExhausted
            }),
            r matches Ok(f) ==> f.wf() && f.forward && f.absolute_boundary() == wire@ && f.id
                == old(director).next_spec() && final(director).next_spec() == f.id + 1,
    {
        if wire.is_empty() {
            return Err(Error::EmptyWire);
        }
        if !wire.is_closed() {
            return Err(Error::NotClosedWire);
        }
        match director.fresh_id() {
            Ok(id) => Ok(Face { id, forward: true, boundary: wire }),
            Err(e) => Err(e),
        }
    }

    /// The boundary wire in the face's orientation.
    pub fn boundary(&self) -> (r: Wire)
        requires
            self.wf(),
        ensures
            r@ == self.boundary_spec(),
            r.wf(),
    {
        if self.forward {
            self.boundary.clone_wire()
        } else {
            self.boundary.inverse()
        }
    }

    /// The same face turned over.
    pub fn inverse(&self) -> (r: Face)
        ensures
            r.is_inverse_of(self),
            r.wf() == self.wf(),
    {
        Face { id: self.id, forward: !self.forward, boundary: self.boundary.clone_wire() }
    }
}

/// Turning a face over twice gives back its identity, orientation and boundary; turning it over
/// once walks its boundary backwards.
pub proof fn lemma_face_inverse_involution(f: &Face, g: &Face, h: &Face)
    requires
        g.is_inverse_of(f),
        h.is_inverse_of(g),
    ensures
        h.id == f.id,
        h.forward == f.forward,
        h.boundary_spec() == f.boundary_spec(),
        g.boundary_spec() == inverted_chain(f.boundary_spec()),
{
    lemma_inverted_chain_involution(f.absolute_boundary());
}

/// The boundary of a face is a connected, closed chain in either orientation.
pub proof fn lemma_face_boundary_chain(f: &Face)
    requires
        f.wf(),
    ensures
        connected(f.boundary_spec()),
        closed_chain(f.boundary_spec()),
{
    lemma_inverted_chain(f.absolute_boundary());
}

/// The boundary of a face is a closed chain in either orientation: each edge ends where the next
/// one starts, and the last ends where the first starts.
pub proof fn lemma_face_boundary_closed(f: &Face)
    requires
        f.wf(),
    ensures
        connected(f.boundary_spec()),
        closed_chain(f.boundary_spec()),
        forall|i: int|
            0 <= i < f.boundary_spec().len() ==> #[trigger] f.boundary_spec()[i].back_spec()
                == f.boundary_spec()[(i + 1) % (f.boundary_spec().len() as int)].front_spec(),
{
    lemma_face_boundary_chain(f);
    let b = f.boundary_spec();
    assert forall|i: int| 0 <= i < b.len() implies #[trigger] b[i].back_spec() == b[(i + 1)
        % (b.len() as int)].front_spec() by {
        if i < b.len() - 1 {
            vstd::arithmetic::div_mod::lemma_small_mod((i + 1) as nat, b.len());
        } else {
            vstd::arithmetic::div_mod::lemma_mod_self_0(b.len() as int);
        }
    }
}

/// The edges of the faces' boundaries, face after face, each in its face's orientation.
pub open spec fn shell_edges(faces: Seq<Face>) -> Seq<Edge>
    decreases faces.len(),
{
    if faces.len() == 0 {
        Seq::empty()
    } else {
        shell_edges(faces.drop_last()) + faces.last().boundary_spec()
    }
}

/// How many times the identity `id` occurs in `s`.
pub open spec fn id_count(s: Seq<Edge>, id: u64) -> nat {
    s.filter(with_id(id)).len()
}

/// Whether an edge has the identity `id`.
pub open spec fn with_id(id: u64) -> spec_fn(Edge) -> bool {
    |e: Edge| e.id == id
}

/// Whether an edge's identity occurs exactly once in `all`.
pub open spec fn once_in(all: Seq<Edge>) -> spec_fn(Edge) -> bool {
    |e: Edge| id_count(all, e.id) == 1
}

/// The edges of the faces whose identity occurs in one face boundary only, in the order of
/// `shell_edges`.
pub open spec fn boundary_edges_spec(faces: Seq<Face>) -> Seq<Edge> {
    shell_edges(faces).filter(once_in(shell_edges(faces)))
}

/// No identity occurs more than twice.
pub open spec fn manifold_chain(all: Seq<Edge>) -> bool {
    forall|i: int| 0 <= i < all.len() ==> id_count(all, #[trigger] all[i].id) <= 2
}

/// Two occurrences of one identity are walked in opposite directions.
pub open spec fn oriented_chain(all: Seq<Edge>) -> bool {
    forall|i: int, j: int|
        0 <= i < j < all.len() && #[trigger] all[i].id == #[trigger] all[j].id ==> all[i].forward
            != all[j].forward
}

/// What keeps the faces from bounding a solid, checked in this order: an edge on one face only,
/// an edge on more than two faces, an edge walked the same way twice.
pub open spec fn shell_error(faces: Seq<Face>) -> Option<Error> {
    let all = shell_edges(faces);
    if boundary_edges_spec(faces).len() != 0 {
        Some(Error::NotClosedShell)
    } else if !manifold_chain(all) {
        Some(Error::NotManifold)
    } else if !oriented_chain(all) {
        Some(Error::NotOrientable)
    } else {
        None
    }
}

/// The error of the first shell that has one.
pub open spec fn solid_error(shells: Seq<Seq<Face>>) -> Option<Error>
    decreases shells.len(),
{
    if shells.len() == 0 {
        None
    } else {
        match solid_error(shells.drop_last()) {
            Some(e) => Some(e),
            None => shell_error(shells.last()),
        }
    }
}

/// Filtering a sequence with one more element at the end.
proof fn lemma_filter_push(s: Seq<Edge>, x: Edge, pred: spec_fn(Edge) -> bool)
    ensures
        s.push(x).filter(pred) == if pred(x) {
            s.filter(pred).push(x)
        } else {
            s.filter(pred)
        },
{
    reveal(Seq::filter);
    assert(s.push(x).drop_last() =~= s);
}

/// Counts the edges of `s` with identity `id`.
fn count_id(s: &Vec<Edge>, id: u64) -> (r: usize)
    ensures
        r == id_count(s@, id),
{
    let mut r: usize = 0;
    let mut j: usize = 0;
    while j < s.len()
        invariant
            j <= s@.len(),
            r == s@.subrange(0, j as int).filter(with_id(id)).len(),
            r <= j,
        decreases s@.len() - j,
    {
        proof {
            lemma_filter_push(s@.subrange(0, j as int), s@[j as int], with_id(id));
            assert(s@.subrange(0, j as int).push(s@[j as int]) =~= s@.subrange(0, j + 1));
        }
        if s[j].id == id {
            r = r + 1;
        }
        j = j + 1;
    }
    assert(s@.subrange(0, s@.len() as int) =~= s@);
    r
}

/// Some other position of `s` holds the identity at position `p`.
pub open spec fn paired(s: Seq<Edge>, p: int) -> bool {
    exists|q: int| 0 <= q < s.len() && q != p && #[trigger] s[q].id == s[p].id
}

/// An identity at some position occurs at least once.
proof fn lemma_id_count_one(s: Seq<Edge>, p: int)
    requires
        0 <= p < s.len(),
    ensures
        id_count(s, s[p].id) >= 1,
    decreases s.len(),
{
    reveal(Seq::filter);
    let d = s.drop_last();
    if p < s.len() - 1 {
        assert(d[p] == s[p]);
        lemma_id_count_one(d, p);
    }
}

/// An identity at two positions occurs at least twice.
proof fn lemma_id_count_two(s: Seq<Edge>, p: int, q: int)
    requires
        0 <= p < q < s.len(),
        s[p].id == s[q].id,
    ensures
        id_count(s, s[p].id) >= 2,
    decreases s.len(),
{
    reveal(Seq::filter);
    let d = s.drop_last();
    assert(d[p] == s[p]);
    if q == s.len() - 1 {
        lemma_id_count_one(d, p);
    } else {
        assert(d[q] == s[q]);
        lemma_id_count_two(d, p, q);
    }
}

/// A filter that no element passes is empty.
proof fn lemma_filter_none(s: Seq<Edge>, pred: spec_fn(Edge) -> bool)
    requires
        forall|i: int| 0 <= i < s.len() ==> !pred(#[trigger] s[i]),
    ensures
        s.filter(pred).len() == 0,
    decreases s.len(),
{
    reveal(Seq::filter);
    if s.len() > 0 {
        let d = s.drop_last();
        assert forall|i: int| 0 <= i < d.len() implies !pred(#[trigger] d[i]) by {
            assert(d[i] == s[i]);
        }
        lemma_filter_none(d, pred);
    }
}

/// When every edge of the faces shares its identity with another, no edge lies on one face only.
pub proof fn lemma_all_paired_closed(faces: Seq<Face>)
    requires
        forall|p: int| 0 <= p < shell_edges(faces).len() ==> paired(shell_edges(faces), p),
    ensures
        boundary_edges_spec(faces).len() == 0,
{
    let all = shell_edges(faces);
    assert forall|p: int| 0 <= p < all.len() implies !once_in(all)(#[trigger] all[p]) by {
        assert(paired(all, p));
        let q = choose|q: int| 0 <= q < all.len() && q != p && #[trigger] all[q].id == all[p].id;
        if p < q {
            lemma_id_count_two(all, p, q);
        } else {
            lemma_id_count_two(all, q, p);
        }
    }
    lemma_filter_none(all, once_in(all));
}

/// How many flags are set.
pub open spec fn count_set(flags: Seq<bool>) -> nat
    decreases flags.len(),
{
    if flags.len() == 0 {
        0
    } else {
        count_set(flags.drop_last()) + if flags.last() {
            1nat
        } else {
            0nat
        }
    }
}

/// Setting one flag that was clear adds one to the count.
proof fn lemma_count_set_update(flags: Seq<bool>, i: int)
    requires
        0 <= i < flags.len(),
        !flags[i],
    ensures
        count_set(flags.update(i, true)) == count_set(flags) + 1,
        count_set(flags) < flags.len(),
    decreases flags.len(),
{
    let g = flags.update(i, true);
    if i == flags.len() - 1 {
        assert(g.drop_last() =~= flags.drop_last());
        lemma_count_set_bound(flags.drop_last());
    } else {
        assert(g.drop_last() =~= flags.drop_last().update(i, true));
        lemma_count_set_update(flags.drop_last(), i);
    }
}

/// No more flags are set than there are flags.
proof fn lemma_count_set_bound(flags: Seq<bool>)
    ensures
        count_set(flags) <= flags.len(),
    decreases flags.len(),
{
    if flags.len() > 0 {
        lemma_count_set_bound(flags.drop_last());
    }
}

/// The edges of all the wires, one wire after the other.
pub open spec fn joined(ws: Seq<Wire>) -> Seq<Edge>
    decreases ws.len(),
{
    if ws.len() == 0 {
        Seq::empty()
    } else {
        joined(ws.drop_last()) + ws.last()@
    }
}

/// The edges of `b` whose flag is set, in order.
pub open spec fn used_items(b: Seq<Edge>, used: Seq<bool>) -> Seq<Edge>
    decreases used.len(),
{
    if used.len() == 0 {
        Seq::empty()
    } else {
        used_items(b, used.drop_last()) + if used.last() {
            seq![b[used.len() - 1]]
        } else {
            Seq::empty()
        }
    }
}

/// Setting the flag of position `j` adds the edge there to the used ones.
proof fn lemma_used_items_update(b: Seq<Edge>, used: Seq<bool>, j: int)
    requires
        0 <= j < used.len(),
        !used[j],
    ensures
        used_items(b, used.update(j, true)).to_multiset() =~= used_items(
            b,
            used,
        ).to_multiset().insert(b[j]),
    decreases used.len(),
{
    broadcast use vstd::seq_lib::group_to_multiset_ensures, vstd::seq_lib::lemma_multiset_commutative, vstd::multiset::group_multiset_axioms;

    let u = used.update(j, true);
    let d = used.drop_last();
    if j == used.len() - 1 {
        assert(u.drop_last() =~= d);
        assert(used_items(b, used) =~= used_items(b, d));
        assert(used_items(b, u) =~= used_items(b, d).push(b[j]));
    } else {
        assert(u.drop_last() =~= d.update(j, true));
        lemma_used_items_update(b, d, j);
        let tail = if used.last() {
            seq![b[used.len() - 1]]
        } else {
            Seq::<Edge>::empty()
        };
        assert(used_items(b, u) == used_items(b, d.update(j, true)) + tail);
        assert(used_items(b, used) == used_items(b, d) + tail);
    }
}

/// With every flag set, the used edges are all of `b`.
proof fn lemma_used_items_all(b: Seq<Edge>, used: Seq<bool>)
    requires
        used.len() <= b.len(),
        forall|j: int| 0 <= j < used.len() ==> #[trigger] used[j],
    ensures
        used_items(b, used) =~= b.subrange(0, used.len() as int),
    decreases used.len(),
{
    if used.len() > 0 {
        let d = used.drop_last();
        assert forall|j: int| 0 <= j < d.len() implies #[trigger] d[j] by {
            assert(d[j] == used[j]);
        }
        lemma_used_items_all(b, d);
        assert(used[used.len() - 1]);
    }
}

/// A shell: a collection of faces.
#[derive(Debug)]
pub struct Shell {
    faces: Vec<Face>,
}

impl View for Shell {
    type V = Seq<Face>;

    closed spec fn view(&self) -> Seq<Face> {
        self.faces@
    }
}

impl Shell {
    /// The shell without faces.
    pub fn new() -> (r: Shell)
        ensures
            r@ == Seq::<Face>::empty(),
    {
        Shell { faces: Vec::new() }
    }

    /// The shell of the given faces, in order.
    pub fn from_faces(faces: Vec<Face>) -> (r: Shell)
        ensures
            r@ == faces@,
    {
        Shell { faces }
    }

    /// Adds a face at the end.
    pub fn push(&mut self, face: Face)
        ensures
            final(self)@ == old(self)@.push(face),
    {
        self.faces.push(face);
    }

    pub fn len(&self) -> (r: usize)
        ensures
            r == self@.len(),
    {
        self.faces.len()
    }

    /// The faces, in order.
    pub fn faces(&self) -> (r: &Vec<Face>)
        ensures
            r@ == self@,
    {
        &self.faces
    }

    /// Every face has a closed boundary wire.
    pub open spec fn wf(&self) -> bool {
        forall|i: int| 0 <= i < self@.len() ==> (#[trigger] self@[i]).wf()
    }

    /// The edges of the faces' boundaries, face after face, each in its face's orientation.
    pub fn edges(&self) -> (r: Vec<Edge>)
        requires
            self.wf(),
        ensures
            r@ == shell_edges(self@),
    {
        let mut r: Vec<Edge> = Vec::new();
        let mut k: usize = 0;
        while k < self.faces.len()
            invariant
                self.wf(),
                k <= self@.len(),
                r@ == shell_edges(self@.subrange(0, k as int)),
            decreases self@.len() - k,
        {
            let b = self.faces[k].boundary();
            let mut es = b.edges();
            proof {
                assert(self@.subrange(0, k + 1).drop_last() =~= self@.subrange(0, k as int));
            }
            r.append(&mut es);
            k = k + 1;
        }
        assert(self@.subrange(0, self@.len() as int) =~= self@);
        r
    }

    /// The edges that lie on one face only: the open boundary of the shell, in the order of
    /// `edges`.
    pub fn boundary_edges(&self) -> (r: Vec<Edge>)
        requires
            self.wf(),
        ensures
            r@ == boundary_edges_spec(self@),
    {
        let all = self.edges();
        let mut r: Vec<Edge> = Vec::new();
        let mut j: usize = 0;
        while j < all.len()
            invariant
                j <= all@.len(),
                r@ == all@.subrange(0, j as int).filter(once_in(all@)),
            decreases all@.len() - j,
        {
            proof {
                lemma_filter_push(all@.subrange(0, j as int), all@[j as int], once_in(all@));
                assert(all@.subrange(0, j as int).push(all@[j as int]) =~= all@.subrange(0, j + 1));
            }
            if count_id(&all, all[j].id) == 1 {
                r.push(all[j]);
            }
            j = j + 1;
        }
        assert(all@.subrange(0, all@.len() as int) =~= all@);
        r
    }

    /// The open boundary of the shell as wires: the edges that lie on one face only, each used
    /// once (the wires, joined, hold the same edges as `boundary_edges_spec`), chained into
    /// connected nonempty wires.
    pub fn extract_boundaries(&self) -> (r: Vec<Wire>)
        requires
            self.wf(),
        ensures
            forall|k: int| 0 <= k < r@.len() ==> (#[trigger] r@[k]).wf() && r@[k]@.len() > 0,
            forall|k: int, i: int|
                0 <= k < r@.len() && 0 <= i < r@[k]@.len() ==> boundary_edges_spec(self@).contains(
                    #[trigger] r@[k]@[i],
                ),
            joined(r@).to_multiset() == boundary_edges_spec(self@).to_multiset(),
    {
        let b = self.boundary_edges();
        let n = b.len();
        let mut used: Vec<bool> = Vec::new();
        let mut i: usize = 0;
        while i < n
            invariant
                i <= n,
                used@.len() == i,
                forall|j: int| 0 <= j < i ==> !(#[trigger] used@[j]),
                count_set(used@) == 0,
                used_items(b@, used@) =~= Seq::<Edge>::empty(),
            decreases n - i,
        {
            proof {
                assert(used@.push(false).drop_last() =~= used@);
            }
            used.push(false);
            i = i + 1;
        }
        let mut r: Vec<Wire> = Vec::new();
        let mut s: usize = 0;
        while s < n
            invariant
                n == b@.len(),
                b@ == boundary_edges_spec(self@),
                used@.len() == n,
                s <= n,
                forall|j: int| 0 <= j < s ==> #[trigger] used@[j],
                count_set(used@) <= n,
                joined(r@).to_multiset() == used_items(b@, used@).to_multiset(),
                forall|k: int| 0 <= k < r@.len() ==> (#[trigger] r@[k]).wf() && r@[k]@.len() > 0,
                forall|k: int, i: int|
                    0 <= k < r@.len() && 0 <= i < r@[k]@.len() ==> b@.contains(#[trigger] r@[k]@[i]),
            decreases n - s,
        {
            if used[s] {
                s = s + 1;
                continue;
            }
            proof {
                lemma_count_set_update(used@, s as int);
                lemma_used_items_update(b@, used@, s as int);
                lemma_count_set_bound(used@.update(s as int, true));
            }
            let ghost before_r = joined(r@);
            used.set(s, true);
            let mut w = Wire::from_edge(b[s]);
            proof {
                broadcast use vstd::seq_lib::group_to_multiset_ensures;
                assert(before_r + w@ =~= before_r.push(b@[s as int]));
            }
            assert(b@.contains(b@[s as int]));
            loop
                invariant
                    n == b@.len(),
                    used@.len() == n,
                    s < n,
                    forall|j: int| 0 <= j <= s ==> #[trigger] used@[j],
                    count_set(used@) <= n,
                    (joined(r@) + w@).to_multiset() == used_items(b@, used@).to_multiset(),
                    w.wf(),
                    w@.len() > 0,
                    forall|i: int| 0 <= i < w@.len() ==> b@.contains(#[trigger] w@[i]),
                decreases n - count_set(used@),
            {
                let back = w.edge(w.len() - 1).back();
                let mut j: usize = 0;
                while j < n
                    invariant
                        n == b@.len(),
                        used@.len() == n,
                        j <= n,
                    ensures
                        j <= n,
                        j < n ==> !used@[j as int] && b@[j as int].front_spec() == back,
                    decreases n - j,
                {
                    if !used[j] && b[j].front() == back {
                        break;
                    }
                    j = j + 1;
                }
                if j == n {
                    break;
                }
                proof {
                    lemma_count_set_update(used@, j as int);
                    lemma_used_items_update(b@, used@, j as int);
                    lemma_count_set_bound(used@.update(j as int, true));
                    assert(b@.contains(b@[j as int]));
                }
                used.set(j, true);
                let ghost w0 = w@;
                match w.push_back(b[j]) {
                    Ok(()) => {},
                    Err(_) => {},
                }
                assert(w@ == w0.push(b@[j as int]));
                proof {
                    broadcast use vstd::seq_lib::group_to_multiset_ensures;
                    assert(joined(r@) + w@ =~= (joined(r@) + w0).push(b@[j as int]));
                }
                assert forall|i: int| 0 <= i < w@.len() implies b@.contains(#[trigger] w@[i]) by {
                    if i < w0.len() {
                        assert(w@[i] == w0[i]);
                    }
                }
            }
            let ghost r0 = r@;
            r.push(w);
            proof {
                assert(r@.drop_last() =~= r0);
                assert(joined(r@) == joined(r0) + w@);
            }
            s = s + 1;
        }
        proof {
            lemma_used_items_all(b@, used@);
            assert(b@.subrange(0, n as int) =~= b@);
        }
        r
    }

    /// Why the shell cannot bound a solid, if it cannot.
    pub fn check_solid(&self) -> (r: Option<Error>)
        requires
            self.wf(),
        ensures
            r == shell_error(self@),
    {
        if !self.is_closed() {
            return Some(Error::NotClosedShell);
        }
        let all = self.edges();
        let n = all.len();
        let mut i: usize = 0;
        while i < n
            invariant
                n == all@.len(),
                all@ == shell_edges(self@),
                boundary_edges_spec(self@).len() == 0,
                i <= n,
                forall|k: int| 0 <= k < i ==> id_count(all@, #[trigger] all@[k].id) <= 2,
            decreases n - i,
        {
            if count_id(&all, all[i].id) > 2 {
                assert(id_count(all@, all@[i as int].id) > 2);
                return Some(Error::NotManifold);
            }
            i = i + 1;
        }
        let mut i: usize = 0;
        while i < n
            invariant
                n == all@.len(),
                all@ == shell_edges(self@),
                boundary_edges_spec(self@).len() == 0,
                i <= n,
                manifold_chain(all@),
                forall|a: int, b: int|
                    0 <= a < i && a < b < n && #[trigger] all@[a].id == #[trigger] all@[b].id
                        ==> all@[a].forward != all@[b].forward,
            decreases n - i,
        {
            let mut j: usize = i + 1;
            while j < n
                invariant
                    n == all@.len(),
                    all@ == shell_edges(self@),
                    boundary_edges_spec(self@).len() == 0,
                    manifold_chain(all@),
                    i < n,
                    i + 1 <= j <= n,
                    forall|a: int, b: int|
                        0 <= a < i && a < b < n && #[trigger] all@[a].id == #[trigger] all@[b].id
                            ==> all@[a].forward != all@[b].forward,
                    forall|b: int|
                        i < b < j && all@[i as int].id == #[trigger] all@[b].id ==> all@[i as int].forward
                            != all@[b].forward,
                decreases n - j,
            {
                if all[i].id == all[j].id && all[i].forward == all[j].forward {
                    assert(all@[i as int].id == all@[j as int].id);
                    return Some(Error::NotOrientable);
                }
                j = j + 1;
            }
            i = i + 1;
        }
        None
    }

    /// Whether every edge of the shell lies on two faces or more: the shell has no open
    /// boundary.
    pub fn is_closed(&self) -> (r: bool)
        requires
            self.wf(),
        ensures
            r == (boundary_edges_spec(self@).len() == 0),
    {
        self.boundary_edges().len() == 0
    }
}

/// A solid: shells that are closed, manifold and consistently oriented.
#[derive(Debug)]
pub struct Solid {
    shells: Vec<Shell>,
}

/// The views of the shells.
pub open spec fn shells_view(shells: Seq<Shell>) -> Seq<Seq<Face>> {
    shells.map_values(|s: Shell| s@)
}

impl Solid {
    /// The shells, in order.
    pub closed spec fn shells_spec(&self) -> Seq<Shell> {
        self.shells@
    }

    /// The solid bounded by `shells`. Fails with the error of the first shell that has an edge
    /// on one face only (`NotClosedShell`), an edge on more than two faces (`NotManifold`) or an
    /// edge walked the same way by two faces (`NotOrientable`).
    pub fn try_new(shells: Vec<Shell>) -> (r: Result<Solid, Error>)
        requires
            forall|k: int| 0 <= k < shells@.len() ==> (#[trigger] shells@[k]).wf(),
        ensures
            r.is_ok() == (solid_error(shells_view(shells@)) is None),
            r matches Ok(s) ==> s.shells_spec() == shells@,
            r matches Err(e) ==> solid_error(shells_view(shells@)) == Some(e),
    {
        let mut k: usize = 0;
        while k < shells.len()
            invariant
                k <= shells@.len(),
                forall|j: int| 0 <= j < shells@.len() ==> (#[trigger] shells@[j]).wf(),
                solid_error(shells_view(shells@.subrange(0, k as int))) is None,
            decreases shells@.len() - k,
        {
            let ghost pre = shells_view(shells@.subrange(0, k + 1));
            proof {
                assert(pre.drop_last() =~= shells_view(shells@.subrange(0, k as int)));
            }
            match shells[k].check_solid() {
                Some(e) => {
                    proof {
                        assert(pre.last() == shells@[k as int]@);
                        assert(solid_error(pre) == Some(e));
                        assert(shells_view(shells@).subrange(0, k + 1) =~= pre);
                        lemma_solid_error_prefix(shells_view(shells@), k + 1);
                    }
                    return Err(e);
                },
                None => {},
            }
            k = k + 1;
        }
        assert(shells@.subrange(0, shells@.len() as int) =~= shells@);
        Ok(Solid { shells })
    }

    /// The shells, in order.
    pub fn boundaries(&self) -> (r: &Vec<Shell>)
        ensures
            r@ == self.shells_spec(),
    {
        &self.shells
    }
}

/// An error in a prefix of the shells is the error of all of them.
proof fn lemma_solid_error_prefix(shells: Seq<Seq<Face>>, k: int)
    requires
        0 <= k <= shells.len(),
        solid_error(shells.subrange(0, k)) is Some,
    ensures
        solid_error(shells) == solid_error(shells.subrange(0, k)),
    decreases shells.len() - k,
{
    if k < shells.len() {
        assert(shells.subrange(0, k + 1).drop_last() =~= shells.subrange(0, k));
        lemma_solid_error_prefix(shells, k + 1);
    } else {
        assert(shells.subrange(0, k) =~= shells);
    }
}

} // verus!
