use vstd::prelude::*;

use crate::curve_element::{is_loft_face, loft_boundary, loft_face};
use crate::errors::Error;
use crate::topology::{
    boundary_edges_spec, closed_chain, connected, lemma_all_paired_closed, paired, shell_edges,
    Director, Edge, Face, Shell, Vertex, Wire,
};

verus! {

/// Whether the map has an entry for `v`.
pub open spec fn has_key<T>(m: Seq<(Vertex, T)>, v: Vertex) -> bool {
    exists|j: int| 0 <= j < m.len() && (#[trigger] m[j]).0 == v
}

/// The position of the entry for `v`.
pub open spec fn key_index<T>(m: Seq<(Vertex, T)>, v: Vertex) -> int {
    choose|j: int| 0 <= j < m.len() && (#[trigger] m[j]).0 == v
}

/// The edge a vertex was swept along.
pub open spec fn vertical_of(m: Seq<(Vertex, Edge)>, v: Vertex) -> Edge {
    m[key_index(m, v)].1
}

/// What the map holds for `v`.
pub open spec fn image_of<T>(m: Seq<(Vertex, T)>, v: Vertex) -> T {
    m[key_index(m, v)].1
}

/// One entry per vertex.
pub open spec fn keys_unique<T>(m: Seq<(Vertex, T)>) -> bool {
    forall|i: int, j: int| 0 <= i < j < m.len() ==> (#[trigger] m[i]).0 != (#[trigger] m[j]).0
}

/// The entry found at position `j` is the one `key_index` picks.
proof fn lemma_key_at<T>(m: Seq<(Vertex, T)>, j: int)
    requires
        keys_unique(m),
        0 <= j < m.len(),
    ensures
        has_key(m, m[j].0),
        key_index(m, m[j].0) == j,
        image_of(m, m[j].0) == m[j].1,
{
    let v = m[j].0;
    assert(has_key(m, v));
    let k = key_index(m, v);
    if k != j {
        if k < j {
            assert(m[k].0 != m[j].0);
        } else {
            assert(m[j].0 != m[k].0);
        }
    }
}

/// A map from each swept vertex to the forward edge it was swept along, which starts at it; one
/// entry per vertex.
pub open spec fn verticals_wf(m: Seq<(Vertex, Edge)>) -> bool {
    &&& forall|i: int, j: int| 0 <= i < j < m.len() ==> (#[trigger] m[i]).0 != (#[trigger] m[j]).0
    &&& forall|j: int|
        0 <= j < m.len() ==> (#[trigger] m[j]).1.absolute_front == m[j].0 && m[j].1.forward
}

/// The entry found at position `j` is the one `vertical_of` picks.
proof fn lemma_vertical_at(m: Seq<(Vertex, Edge)>, j: int)
    requires
        verticals_wf(m),
        0 <= j < m.len(),
    ensures
        has_key(m, m[j].0),
        key_index(m, m[j].0) == j,
        vertical_of(m, m[j].0) == m[j].1,
{
    lemma_key_at(m, j);
}

/// `m1` has the entries of `m0`, unchanged.
pub open spec fn extends(m0: Seq<(Vertex, Edge)>, m1: Seq<(Vertex, Edge)>) -> bool {
    forall|v: Vertex| has_key(m0, v) ==> has_key(m1, v) && vertical_of(m1, v) == vertical_of(m0, v)
}

/// The edge `v` is swept along: the one in the map, or a new line from `v` to a new vertex,
/// which is then put in the map.
fn lift_vertex(m: &mut Vec<(Vertex, Edge)>, v: Vertex, director: &mut Director) -> (r: Result<
    Edge,
    Error,
>)
    requires
        verticals_wf(old(m)@),
    ensures
        verticals_wf(final(m)@),
        extends(old(m)@, final(m)@),
        final(m)@.len() <= old(m)@.len() + 1,
        final(director).next_spec() == old(director).next_spec() + 2 * (final(m)@.len()
            - old(m)@.len()),
        old(director).has_room(2) || has_key(old(m)@, v) ==> r.is_ok(),
        has_key(old(m)@, v) ==> final(m)@ == old(m)@,
        final(m)@ == old(m)@ || final(m)@ == old(m)@.push(
            (
                v,
                Edge {
                    id: (old(director).next_spec() + 1) as u64,
                    absolute_front: v,
                    absolute_back: Vertex { id: old(director).next_spec() },
                    forward: true,
                },
            ),
        ),
        r matches Ok(e) ==> has_key(final(m)@, v) && e == vertical_of(final(m)@, v),
        r matches Err(e) ==> e == Error::IdExhausted,
{
    let mut j: usize = 0;
    while j < m.len()
        invariant
            m@ == old(m)@,
            *director == *old(director),
            verticals_wf(m@),
            j <= m@.len(),
            forall|k: int| 0 <= k < j ==> (#[trigger] m@[k]).0 != v,
        decreases m@.len() - j,
    {
        if m[j].0 == v {
            proof {
                lemma_vertical_at(m@, j as int);
            }
            return Ok(m[j].1);
        }
        j = j + 1;
    }
    assert(!has_key(m@, v));
    if !director.has_room_for(2) {
        return Err(Error::IdExhausted);
    }
    let top = match director.vertex() {
        Ok(t) => t,
        Err(e) => return Err(e),
    };
    let e = match director.line(v, top) {
        Ok(e) => e,
        Err(e) => return Err(e),
    };
    let ghost m0 = m@;
    m.push((v, e));
    proof {
        let m1 = m@;
        assert(m1[m0.len() as int].0 == v);
        lemma_vertical_at(m1, m0.len() as int);
        assert forall|u: Vertex| has_key(m0, u) implies has_key(m1, u) && vertical_of(m1, u)
            == vertical_of(m0, u) by {
            let k = key_index(m0, u);
            assert(m1[k] == m0[k]);
            lemma_vertical_at(m0, k);
            lemma_vertical_at(m1, k);
        }
    }
    Ok(e)
}

/// The four edges around the side face swept by `e`: `e`, up the vertical at its back, back
/// along `top`, and down the vertical at its front.
pub open spec fn side_boundary(m: Seq<(Vertex, Edge)>, e: Edge, top: Edge) -> Seq<Edge> {
    seq![e, vertical_of(m, e.back_spec()), top.inverted(), vertical_of(m, e.front_spec()).inverted()]
}

/// What sweeping a chain of edges makes: the edge each vertex is swept along, the edge each edge
/// is swept to, and the face each edge sweeps, in the order of the chain.
#[derive(Debug)]
pub struct Swept {
    pub verticals: Vec<(Vertex, Edge)>,
    pub tops: Vec<Edge>,
    pub sides: Vec<Face>,
}

/// `m`, `tops` and `sides` are a sweep of the chain `s`: every vertex of `s` has its vertical
/// edge; the top edge of each edge runs forward between the tops of the verticals at its ends;
/// and each side face is a new forward face bounded by `side_boundary`.
#[verifier::opaque]
pub open spec fn is_sweep_of(
    s: Seq<Edge>,
    m: Seq<(Vertex, Edge)>,
    tops: Seq<Edge>,
    sides: Seq<Face>,
) -> bool {
    &&& verticals_wf(m)
    &&& tops.len() == s.len()
    &&& sides.len() == s.len()
    &&& forall|i: int|
        0 <= i < s.len() ==> {
            &&& has_key(m, (#[trigger] s[i]).front_spec())
            &&& has_key(m, s[i].back_spec())
            &&& tops[i].forward
            &&& tops[i].absolute_front == vertical_of(m, s[i].front_spec()).absolute_back
            &&& tops[i].absolute_back == vertical_of(m, s[i].back_spec()).absolute_back
            &&& sides[i].forward
            &&& sides[i].wf()
            &&& sides[i].absolute_boundary() == side_boundary(m, s[i], tops[i])
        }
}

/// The identities a sweep hands out from `start`: the top vertex and the edge of the vertical
/// at position `j` of the map take the `j`-th pair, then the top edge and side face of the edge at
/// position `i` take the pair after the verticals'. All are new, pairwise distinct, and distinct
/// from anything numbered below `start`.
pub open spec fn is_fresh_sweep(
    start: int,
    m: Seq<(Vertex, Edge)>,
    tops: Seq<Edge>,
    sides: Seq<Face>,
) -> bool {
    &&& forall|j: int|
        0 <= j < m.len() ==> (#[trigger] m[j]).1.absolute_back.id == start + 2 * j && m[j].1.id
            == start + 2 * j + 1
    &&& forall|i: int|
        0 <= i < tops.len() ==> (#[trigger] tops[i]).id == start + 2 * m.len() + 2 * i
            && sides[i].id == start + 2 * m.len() + 2 * i + 1
}

/// Sweeps the wire `w` into a shell of side faces: each vertex once, along a new edge to a new
/// vertex, and each edge to a new top edge and a new side face. Fails with `IdExhausted` only,
/// and not while the session has six identities left for each edge.
pub fn tsweep_wire(w: &Wire, director: &mut Director) -> (r: Result<Swept, Error>)
    requires
        w.wf(),
    ensures
        old(director).has_room(6 * w@.len() as int) ==> r.is_ok(),
        r matches Ok(sw) ==> is_sweep_of(w@, sw.verticals@, sw.tops@, sw.sides@),
        r is Ok ==> final(director).next_spec() <= old(director).next_spec() + 6 * w@.len(),
        r matches Ok(sw) ==> is_fresh_sweep(
            old(director).next_spec() as int,
            sw.verticals@,
            sw.tops@,
            sw.sides@,
        ) && final(director).next_spec() == old(director).next_spec() + 2 * sw.verticals@.len() + 2
            * w@.len(),
        r matches Err(e) ==> e == Error::IdExhausted,
{
    let es = w.edges();
    let n = es.len();
    let ghost start = director.next_spec();
    let mut m: Vec<(Vertex, Edge)> = Vec::new();
    let mut i: usize = 0;
    while i < n
        invariant
            n == es@.len(),
            es@ == w@,
            i <= n,
            verticals_wf(m@),
            m@.len() <= 2 * i,
            director.next_spec() == start + 2 * m@.len(),
            start == old(director).next_spec(),
            forall|j: int|
                0 <= j < m@.len() ==> (#[trigger] m@[j]).1.absolute_back.id == start + 2 * j
                    && m@[j].1.id == start + 2 * j + 1,
            forall|k: int|
                0 <= k < i ==> has_key(m@, (#[trigger] es@[k]).front_spec()) && has_key(
                    m@,
                    es@[k].back_spec(),
                ),
        decreases n - i,
    {
        let ghost m0 = m@;
        match lift_vertex(&mut m, es[i].front(), director) {
            Ok(_) => {},
            Err(e) => return Err(e),
        }
        match lift_vertex(&mut m, es[i].back(), director) {
            Ok(_) => {},
            Err(e) => return Err(e),
        }
        proof {
            assert forall|k: int| 0 <= k < i + 1 implies has_key(m@, (#[trigger] es@[k]).front_spec())
                && has_key(m@, es@[k].back_spec()) by {
                if k < i {
                    assert(has_key(m0, es@[k].front_spec()) && has_key(m0, es@[k].back_spec()));
                }
            }
        }
        i = i + 1;
    }
    let ghost mid = director.next_spec();
    let mut tops: Vec<Edge> = Vec::new();
    let mut sides: Vec<Face> = Vec::new();
    let mut i: usize = 0;
    while i < n
        invariant
            n == es@.len(),
            es@ == w@,
            i <= n,
            verticals_wf(m@),
            mid <= old(director).next_spec() + 4 * n,
            mid == old(director).next_spec() + 2 * m@.len(),
            director.next_spec() == mid + 2 * i,
            forall|j: int|
                0 <= j < m@.len() ==> (#[trigger] m@[j]).1.absolute_back.id == old(director).next_spec() + 2 * j
                    && m@[j].1.id == old(director).next_spec() + 2 * j + 1,
            forall|k: int|
                0 <= k < i ==> (#[trigger] tops@[k]).id == mid + 2 * k && sides@[k].id == mid + 2 * k + 1,
            forall|k: int|
                0 <= k < n ==> has_key(m@, (#[trigger] es@[k]).front_spec()) && has_key(
                    m@,
                    es@[k].back_spec(),
                ),
            tops@.len() == i,
            sides@.len() == i,
            forall|k: int|
                0 <= k < i ==> {
                    &&& (#[trigger] tops@[k]).forward
                    &&& tops@[k].absolute_front == vertical_of(m@, es@[k].front_spec()).absolute_back
                    &&& tops@[k].absolute_back == vertical_of(m@, es@[k].back_spec()).absolute_back
                    &&& sides@[k].forward
                    &&& sides@[k].wf()
                    &&& sides@[k].absolute_boundary() == side_boundary(m@, es@[k], tops@[k])
                },
        decreases n - i,
    {
        let e = es[i];
        let vf = match lift_vertex(&mut m, e.front(), director) {
            Ok(v) => v,
            Err(err) => return Err(err),
        };
        let vb = match lift_vertex(&mut m, e.back(), director) {
            Ok(v) => v,
            Err(err) => return Err(err),
        };
        proof {
            let jf = key_index(m@, e.front_spec());
            let jb = key_index(m@, e.back_spec());
            assert(m@[jf].0 == e.front_spec());
            assert(m@[jb].0 == e.back_spec());
        }
        let top = match director.line(vf.back(), vb.back()) {
            Ok(t) => t,
            Err(err) => return Err(err),
        };
        let side = match loft_face(Wire::from_edge(e), vb, &Wire::from_edge(top), vf.inverse(), director) {
            Ok(f) => f,
            Err(err) => return Err(err),
        };
        proof {
            assert(loft_boundary(seq![e], vb, seq![top], vf.inverted()) =~= side_boundary(m@, e, top));
        }
        tops.push(top);
        sides.push(side);
        i = i + 1;
    }
    proof {
        reveal(is_sweep_of);
    }
    Ok(Swept { verticals: m, tops, sides })
}

/// Sweeps a vertex into an edge: a new forward edge from `v` to a new vertex.
pub fn tsweep_vertex(v: Vertex, director: &mut Director) -> (r: Result<Edge, Error>)
    ensures
        r.is_ok() == old(director).has_room(2),
        r matches Ok(e) ==> e == (Edge {
            id: (old(director).next_spec() + 1) as u64,
            absolute_front: v,
            absolute_back: Vertex { id: old(director).next_spec() },
            forward: true,
        }) && final(director).next_spec() == old(director).next_spec() + 2,
        r matches Err(e) ==> e == Error::IdExhausted,
{
    if !director.has_room_for(2) {
        return Err(Error::IdExhausted);
    }
    let top = match director.vertex() {
        Ok(t) => t,
        Err(e) => return Err(e),
    };
    director.line(v, top)
}

/// Sweeps an edge into a face bounded by the edge, the vertical at its back, its top edge
/// walked backwards and the vertical at its front walked downwards.
pub fn tsweep_edge(e: Edge, director: &mut Director) -> (r: Result<Face, Error>)
    ensures
        old(director).has_room(6) ==> r.is_ok(),
        r matches Ok(f) ==> f.forward && f.wf() && f.absolute_boundary().len() == 4
            && f.absolute_boundary()[0] == e
            && f.absolute_boundary()[1].forward
            && f.absolute_boundary()[1].absolute_front == e.back_spec()
            && f.absolute_boundary()[3].absolute_front == e.front_spec()
            && !f.absolute_boundary()[3].forward,
        r matches Ok(f) ==> {
            let (lo, hi) = (old(director).next_spec(), final(director).next_spec());
            let b = f.absolute_boundary();
            &&& lo <= f.id < hi
            &&& forall|q: int| 1 <= q < 4 ==> lo <= #[trigger] b[q].id < hi
            &&& lo <= b[1].absolute_back.id < hi
            &&& lo <= b[3].absolute_back.id < hi
            &&& f.id != b[1].id && f.id != b[2].id && f.id != b[3].id
            &&& b[1].id != b[2].id && b[2].id != b[3].id
            &&& e.front_spec() != e.back_spec() ==> b[1].id != b[3].id && b[1].absolute_back
                != b[3].absolute_back
        },
        r matches Err(err) ==> err == Error::IdExhausted,
{
    let w = Wire::from_edge(e);
    let mut sw = match tsweep_wire(&w, director) {
        Ok(sw) => sw,
        Err(err) => return Err(err),
    };
    proof {
        let m = sw.verticals@;
        reveal(is_sweep_of);
        assert(w@[0] == e);
        lemma_vertical_front(m, e.front_spec());
        lemma_vertical_front(m, e.back_spec());
        let jf = key_index(m, e.front_spec());
        let jb = key_index(m, e.back_spec());
        assert(0 <= jf < m.len() && m[jf].0 == e.front_spec());
        assert(0 <= jb < m.len() && m[jb].0 == e.back_spec());
        assert(m[jf].1.id == old(director).next_spec() + 2 * jf + 1);
        assert(m[jb].1.id == old(director).next_spec() + 2 * jb + 1);
        assert(sw.tops@[0].id == old(director).next_spec() + 2 * m.len());
    }
    Ok(sw.sides.remove(0))
}

/// The vertical edge of a vertex in the map starts at it and is forward.
proof fn lemma_vertical_front(m: Seq<(Vertex, Edge)>, v: Vertex)
    requires
        verticals_wf(m),
        has_key(m, v),
    ensures
        vertical_of(m, v).absolute_front == v,
        vertical_of(m, v).forward,
{
    let j = key_index(m, v);
    assert(m[j].0 == v);
}

/// The top edges of a sweep run between the tops of the verticals at the ends of their edges.
pub proof fn lemma_sweep_tops(s: Seq<Edge>, m: Seq<(Vertex, Edge)>, tops: Seq<Edge>, sides: Seq<Face>)
    requires
        is_sweep_of(s, m, tops, sides),
    ensures
        tops.len() == s.len(),
        sides.len() == s.len(),
        forall|i: int|
            0 <= i < s.len() ==> {
                &&& (#[trigger] tops[i]).forward
                &&& tops[i].absolute_front == vertical_of(m, s[i].front_spec()).absolute_back
                &&& tops[i].absolute_back == vertical_of(m, s[i].back_spec()).absolute_back
            },
{
    reveal(is_sweep_of);
    assert forall|i: int| 0 <= i < s.len() implies {
        &&& (#[trigger] tops[i]).forward
        &&& tops[i].absolute_front == vertical_of(m, s[i].front_spec()).absolute_back
        &&& tops[i].absolute_back == vertical_of(m, s[i].back_spec()).absolute_back
    } by {
        assert(has_key(m, s[i].front_spec()));
    }
}

/// The top edges of a chain's sweep, as a wire; closed when the chain is.
fn wire_of_tops(tops: &Vec<Edge>, bs: Ghost<Seq<Edge>>, m: Ghost<Seq<(Vertex, Edge)>>) -> (r: Wire)
    requires
        bs@.len() == tops@.len(),
        connected(bs@),
        forall|i: int|
            0 <= i < bs@.len() ==> {
                &&& (#[trigger] tops@[i]).forward
                &&& tops@[i].absolute_front == vertical_of(m@, bs@[i].front_spec()).absolute_back
                &&& tops@[i].absolute_back == vertical_of(m@, bs@[i].back_spec()).absolute_back
            },
    ensures
        r@ == tops@,
        r.wf(),
        closed_chain(bs@) ==> closed_chain(r@),
{
    let n = tops.len();
    let mut top_wire = Wire::new();
    let mut i: usize = 0;
    while i < n
        invariant
            n == bs@.len(),
            n == tops@.len(),
            i <= n,
            top_wire.wf(),
            top_wire@ == tops@.subrange(0, i as int),
            connected(bs@),
            forall|i: int|
                0 <= i < bs@.len() ==> {
                    &&& (#[trigger] tops@[i]).forward
                    &&& tops@[i].absolute_front == vertical_of(m@, bs@[i].front_spec()).absolute_back
                    &&& tops@[i].absolute_back == vertical_of(m@, bs@[i].back_spec()).absolute_back
                },
        decreases n - i,
    {
        proof {
            if i > 0 {
                let k = (i - 1) as int;
                assert(bs@[k].back_spec() == bs@[k + 1].front_spec());
                assert(top_wire@.last() == tops@[k]);
                assert(tops@[k + 1].forward);
            }
        }
        match top_wire.push_back(tops[i]) {
            Ok(()) => {},
            Err(_) => {},
        }
        i = i + 1;
        assert(top_wire@ =~= tops@.subrange(0, i as int));
    }
    assert(tops@.subrange(0, n as int) =~= tops@);
    proof {
        if n > 0 {
            assert(tops@[0].forward && tops@[n - 1].forward);
        }
    }
    top_wire
}

/// A prism: the edges and shell that sweeping a face makes.
#[derive(Debug)]
pub struct Prism {
    pub verticals: Vec<(Vertex, Edge)>,
    pub tops: Vec<Edge>,
    pub shell: Shell,
}

/// Sweeps a face into the shell of a prism: the face turned over, the side faces its boundary
/// sweeps (in the order of the boundary), and a new forward face bounded by the top edges.
pub fn tsweep_face(f: &Face, director: &mut Director) -> (r: Result<Prism, Error>)
    requires
        f.wf(),
    ensures
        old(director).has_room(6 * f.boundary_spec().len() as int + 1) ==> r.is_ok(),
        r matches Ok(p) ==> {
            let n = f.boundary_spec().len() as int;
            &&& p.shell@.len() == n + 2
            &&& p.shell@[0].is_inverse_of(f)
            &&& is_sweep_of(f.boundary_spec(), p.verticals@, p.tops@, p.shell@.subrange(1, n + 1))
            &&& p.shell@[n + 1].forward
            &&& p.shell@[n + 1].wf()
            &&& p.shell@[n + 1].absolute_boundary() == p.tops@
            &&& is_fresh_sweep(
                old(director).next_spec() as int,
                p.verticals@,
                p.tops@,
                p.shell@.subrange(1, n + 1),
            )
            &&& p.shell@[n + 1].id == old(director).next_spec() + 2 * p.verticals@.len() + 2 * n
            &&& final(director).next_spec() == p.shell@[n + 1].id + 1
        },
        r matches Err(e) ==> e == Error::IdExhausted,
{
    let b = f.boundary();
    let ghost bs = b@;
    let n = b.len();
    let sw = match tsweep_wire(&b, director) {
        Ok(sw) => sw,
        Err(e) => return Err(e),
    };
    let Swept { verticals, tops, sides } = sw;
    let ghost m = verticals@;
    proof {
        crate::topology::lemma_face_boundary_chain(f);
        lemma_sweep_tops(bs, m, tops@, sides@);
    }
    let top_wire = wire_of_tops(&tops, Ghost(bs), Ghost(m));
    let top = match Face::try_new(top_wire, director) {
        Ok(t) => t,
        Err(e) => return Err(e),
    };
    let mut faces: Vec<Face> = Vec::new();
    faces.push(f.inverse());
    let mut rest = sides;
    faces.append(&mut rest);
    faces.push(top);
    proof {
        assert(faces@.subrange(1, n + 1) =~= sides@);
    }
    Ok(Prism { verticals, tops, shell: Shell::from_faces(faces) })
}

/// The edge `v` is swept along onto `target`: the one in the map, or a new line from `v` to
/// `target`, which is then put in the map.
fn lift_onto(m: &mut Vec<(Vertex, Edge)>, v: Vertex, target: Vertex, director: &mut Director) -> (r:
    Result<Edge, Error>)
    requires
        verticals_wf(old(m)@),
    ensures
        verticals_wf(final(m)@),
        extends(old(m)@, final(m)@),
        has_key(old(m)@, v) ==> r.is_ok() && final(m)@ == old(m)@,
        old(director).has_room(1) ==> r.is_ok(),
        final(m)@ == old(m)@ && final(director).next_spec() == old(director).next_spec()
            || final(m)@ == old(m)@.push(
            (
                v,
                Edge {
                    id: old(director).next_spec(),
                    absolute_front: v,
                    absolute_back: target,
                    forward: true,
                },
            ),
        ) && final(director).next_spec() == old(director).next_spec() + 1,
        r matches Ok(e) ==> has_key(final(m)@, v) && e == vertical_of(final(m)@, v),
        r matches Err(e) ==> e == Error::IdExhausted,
{
    let mut j: usize = 0;
    while j < m.len()
        invariant
            m@ == old(m)@,
            *director == *old(director),
            verticals_wf(m@),
            j <= m@.len(),
            forall|k: int| 0 <= k < j ==> (#[trigger] m@[k]).0 != v,
        decreases m@.len() - j,
    {
        if m[j].0 == v {
            proof {
                lemma_vertical_at(m@, j as int);
            }
            return Ok(m[j].1);
        }
        j = j + 1;
    }
    assert(!has_key(m@, v));
    let e = match director.line(v, target) {
        Ok(e) => e,
        Err(e) => return Err(e),
    };
    let ghost m0 = m@;
    m.push((v, e));
    proof {
        let m1 = m@;
        assert(m1[m0.len() as int].0 == v);
        lemma_vertical_at(m1, m0.len() as int);
        assert forall|u: Vertex| has_key(m0, u) implies has_key(m1, u) && vertical_of(m1, u)
            == vertical_of(m0, u) by {
            let k = key_index(m0, u);
            assert(m1[k] == m0[k]);
            lemma_vertical_at(m0, k);
            lemma_vertical_at(m1, k);
        }
    }
    Ok(e)
}

/// `m` and `sides` are a ring of side faces between the chains `s` and `t`: every vertex of `s`
/// has its vertical edge, and the side face at each position is a new forward face bounded by
/// `side_boundary` with the edge of `t` at that position as its top.
pub open spec fn is_ring_of(s: Seq<Edge>, m: Seq<(Vertex, Edge)>, t: Seq<Edge>, sides: Seq<Face>) -> bool {
    &&& verticals_wf(m)
    &&& t.len() == s.len()
    &&& sides.len() == s.len()
    &&& forall|i: int|
        0 <= i < s.len() ==> {
            &&& has_key(m, (#[trigger] s[i]).front_spec())
            &&& has_key(m, s[i].back_spec())
            &&& sides[i].forward
            &&& sides[i].wf()
            &&& sides[i].absolute_boundary() == side_boundary(m, s[i], t[i])
        }
}

/// One end of the edge at position `i`: its back when `back`, else its front.
pub open spec fn endpoint(s: Seq<Edge>, i: int, back: bool) -> Vertex {
    if back {
        s[i].back_spec()
    } else {
        s[i].front_spec()
    }
}

/// `t` has the length of `s`, and ends that meet in `s` meet in `t` at the same places: the
/// vertices of `s` map onto those of `t`.
pub open spec fn follows(s: Seq<Edge>, t: Seq<Edge>) -> bool {
    &&& s.len() == t.len()
    &&& forall|i: int, k: int, b: bool, c: bool|
        0 <= i < s.len() && 0 <= k < s.len() && #[trigger] endpoint(s, i, b) == #[trigger] endpoint(
            s,
            k,
            c,
        ) ==> endpoint(t, i, b) == endpoint(t, k, c)
}

/// Every vertex of the map is an end of an edge of `s`.
pub open spec fn keys_are_ends(m: Seq<(Vertex, Edge)>, s: Seq<Edge>) -> bool {
    forall|j: int|
        0 <= j < m.len() ==> exists|i: int, b: bool|
            0 <= i < s.len() && (#[trigger] m[j]).0 == #[trigger] endpoint(s, i, b)
}

/// Every vertical starts at an end of `s` and rises to the end of `t` at the same place.
pub open spec fn verticals_onto(m: Seq<(Vertex, Edge)>, s: Seq<Edge>, t: Seq<Edge>) -> bool {
    forall|j: int, i: int, b: bool|
        0 <= j < m.len() && 0 <= i < s.len() && (#[trigger] m[j]).0 == #[trigger] endpoint(s, i, b)
            ==> m[j].1.absolute_back == endpoint(t, i, b)
}

/// Sweeps the chain `s` onto the chain `t` that follows it: each vertex of `s` along one new edge
/// to the vertex of `t` at the same place, and each edge of `s` into a new side face whose top is
/// the edge of `t` at its position. Fails with `IdExhausted` only, and not while the session has
/// three identities left for each edge.
fn sweep_onto(s: &Wire, t: &Wire, director: &mut Director) -> (r: Result<(Vec<(Vertex, Edge)>, Vec<Face>), Error>)
    requires
        s.wf(),
        t.wf(),
        follows(s@, t@),
    ensures
        old(director).has_room(3 * s@.len() as int) ==> r.is_ok(),
        r matches Ok(ring) ==> is_ring_of(s@, ring.0@, t@, ring.1@),
        r matches Ok(ring) ==> verticals_onto(ring.0@, s@, t@) && keys_are_ends(ring.0@, s@),
        r matches Ok(ring) ==> forall|j: int|
            0 <= j < ring.0@.len() ==> old(director).next_spec() <= (#[trigger] ring.0@[j]).1.id
                < final(director).next_spec(),
        r matches Ok(ring) ==> ids_increasing_in(
            ring.1@,
            old(director).next_spec() as int,
            final(director).next_spec() as int,
        ),
        r is Ok ==> old(director).next_spec() <= final(director).next_spec(),
        r matches Err(e) ==> e == Error::IdExhausted,
{
    let n = s.len();
    let ghost start = director.next_spec();
    let mut m: Vec<(Vertex, Edge)> = Vec::new();
    let mut i: usize = 0;
    while i < n
        invariant
            n == s@.len(),
            n == t@.len(),
            follows(s@, t@),
            i <= n,
            verticals_wf(m@),
            verticals_onto(m@, s@, t@),
            keys_are_ends(m@, s@),
            m@.len() <= 2 * i,
            start == old(director).next_spec(),
            director.next_spec() == start + m@.len(),
            forall|j: int| 0 <= j < m@.len() ==> start <= (#[trigger] m@[j]).1.id < director.next_spec(),
            forall|k: int|
                0 <= k < i ==> has_key(m@, (#[trigger] s@[k]).front_spec()) && has_key(
                    m@,
                    s@[k].back_spec(),
                ),
        decreases n - i,
    {
        let e = s.edge(i);
        let top = t.edge(i);
        let ghost m0 = m@;
        match lift_onto(&mut m, e.front(), top.front(), director) {
            Ok(_) => {},
            Err(err) => return Err(err),
        }
        proof {
            if m@ != m0 {
                assert(m@.drop_last() =~= m0);
            }
            lemma_onto_push(m0, m@, s@, t@, i as int, false);
        }
        let ghost m1 = m@;
        match lift_onto(&mut m, e.back(), top.back(), director) {
            Ok(_) => {},
            Err(err) => return Err(err),
        }
        proof {
            if m@ != m1 {
                assert(m@.drop_last() =~= m1);
            }
            lemma_onto_push(m1, m@, s@, t@, i as int, true);
            assert forall|k: int| 0 <= k < i + 1 implies has_key(m@, (#[trigger] s@[k]).front_spec())
                && has_key(m@, s@[k].back_spec()) by {
                if k < i {
                    assert(has_key(m0, s@[k].front_spec()) && has_key(m0, s@[k].back_spec()));
                }
            }
        }
        i = i + 1;
    }
    let ghost mid = director.next_spec();
    let mut sides: Vec<Face> = Vec::new();
    let mut i: usize = 0;
    while i < n
        invariant
            n == s@.len(),
            n == t@.len(),
            i <= n,
            verticals_wf(m@),
            verticals_onto(m@, s@, t@),
            keys_are_ends(m@, s@),
            start == old(director).next_spec(),
            start <= mid <= start + 2 * n,
            director.next_spec() == mid + i,
            forall|j: int| 0 <= j < m@.len() ==> start <= (#[trigger] m@[j]).1.id < mid,
            forall|k: int|
                0 <= k < n ==> has_key(m@, (#[trigger] s@[k]).front_spec()) && has_key(
                    m@,
                    s@[k].back_spec(),
                ),
            sides@.len() == i,
            forall|k: int|
                0 <= k < i ==> {
                    &&& (#[trigger] sides@[k]).forward
                    &&& sides@[k].wf()
                    &&& sides@[k].absolute_boundary() == side_boundary(m@, s@[k], t@[k])
                    &&& sides@[k].id == mid + k
                },
        decreases n - i,
    {
        let e = s.edge(i);
        let top = t.edge(i);
        let vf = match lift_onto(&mut m, e.front(), top.front(), director) {
            Ok(v) => v,
            Err(err) => return Err(err),
        };
        let vb = match lift_onto(&mut m, e.back(), top.back(), director) {
            Ok(v) => v,
            Err(err) => return Err(err),
        };
        proof {
            let jf = key_index(m@, e.front_spec());
            let jb = key_index(m@, e.back_spec());
            assert(m@[jf].0 == endpoint(s@, i as int, false));
            assert(m@[jb].0 == endpoint(s@, i as int, true));
        }
        let side = match loft_face(Wire::from_edge(e), vb, &Wire::from_edge(top), vf.inverse(), director) {
            Ok(f) => f,
            Err(err) => return Err(err),
        };
        proof {
            assert(loft_boundary(seq![e], vb, seq![top], vf.inverted()) =~= side_boundary(m@, e, top));
        }
        sides.push(side);
        i = i + 1;
    }
    assert forall|k: int, l: int| 0 <= k < l < sides@.len() implies (#[trigger] sides@[k]).id < (
    #[trigger] sides@[l]).id by {
        assert(sides@[k].id == mid + k && sides@[l].id == mid + l);
    }
    Ok((m, sides))
}

/// A vertical added for the end `back` of the edge at `i`, rising to the matching end of `t`,
/// keeps every vertical rising to the end of `t` at its place.
proof fn lemma_onto_push(
    m0: Seq<(Vertex, Edge)>,
    m1: Seq<(Vertex, Edge)>,
    s: Seq<Edge>,
    t: Seq<Edge>,
    i: int,
    back: bool,
)
    requires
        follows(s, t),
        0 <= i < s.len(),
        verticals_onto(m0, s, t),
        keys_are_ends(m0, s),
        m1 == m0 || (m1.len() == m0.len() + 1 && m1.drop_last() == m0 && m1.last().0 == endpoint(
            s,
            i,
            back,
        ) && m1.last().1.absolute_back == endpoint(t, i, back)),
    ensures
        verticals_onto(m1, s, t),
        keys_are_ends(m1, s),
{
    if m1 != m0 {
        assert forall|j: int| 0 <= j < m1.len() implies exists|i2: int, b2: bool|
            0 <= i2 < s.len() && (#[trigger] m1[j]).0 == #[trigger] endpoint(s, i2, b2) by {
            if j < m0.len() {
                assert(m1[j] == m1.drop_last()[j]);
            } else {
                assert(m1[j].0 == endpoint(s, i, back));
            }
        }
        assert forall|j: int, k: int, b: bool|
            0 <= j < m1.len() && 0 <= k < s.len() && (#[trigger] m1[j]).0 == #[trigger] endpoint(s, k, b)
                implies m1[j].1.absolute_back == endpoint(t, k, b) by {
            if j < m0.len() {
                assert(m1[j] == m1.drop_last()[j]);
            } else {
                assert(endpoint(s, i, back) == endpoint(s, k, b));
            }
        }
    }
}

/// Sweeps the wire `w` around an axis in `divisions` steps, each one a ring of side faces as in
/// `tsweep_wire`. With `full_turn` the last step comes back onto `w` itself, so that a closed
/// wire sweeps a closed shell. The shell holds `divisions` faces for each edge of `w`, ring after
/// ring; the faces are new, numbered in increasing order, and every edge on them is an edge of
/// `w` or new. Fails with `IdExhausted` only, and not while the session has six identities left
/// for each edge and step.
pub fn rsweep_wire(w: &Wire, divisions: usize, full_turn: bool, director: &mut Director) -> (r:
    Result<Shell, Error>)
    requires
        w.wf(),
        divisions >= 1,
        full_turn ==> divisions >= 2,
    ensures
        old(director).has_room(6 * w@.len() * divisions) ==> r.is_ok(),
        r matches Err(e) ==> e == Error::IdExhausted,
        r matches Ok(shell) ==> ids_increasing_in(
            shell@,
            old(director).next_spec() as int,
            final(director).next_spec() as int,
        ),
        r matches Ok(shell) ==> edges_new_or_of(
            shell@,
            w@,
            old(director).next_spec() as int,
            final(director).next_spec() as int,
        ),
        r matches Ok(shell) ==> vertices_new_or_of(
            shell@,
            w@,
            old(director).next_spec() as int,
            final(director).next_spec() as int,
        ),
        r matches Ok(shell) ==> shell@.len() == divisions * w@.len() && forall|i: int|
            0 <= i < shell@.len() ==> (#[trigger] shell@[i]).wf() && shell@[i].forward,
        r matches Ok(shell) ==> full_turn && closed_chain(w@) ==> boundary_edges_spec(shell@).len()
            == 0,
{
    let n = w.len();
    let steps = if full_turn { divisions - 1 } else { divisions };
    let mut faces: Vec<Face> = Vec::new();
    let mut cur = w.clone_wire();
    let ghost start = director.next_spec();
    assert forall|i: int| 0 <= i < cur@.len() implies new_or_of(
        (#[trigger] cur@[i]).id,
        w@,
        start as int,
        director.next_spec() as int,
    ) by {
        assert(w@[i].id == cur@[i].id);
    }
    assert forall|i: int| 0 <= i < cur@.len() implies edge_vertices_new_or_of(
        #[trigger] cur@[i],
        w@,
        start as int,
        director.next_spec() as int,
    ) by {
        assert(w@[i] == cur@[i]);
    }
    let mut j: usize = 0;
    while j < steps
        invariant
            start == old(director).next_spec(),
            start <= director.next_spec() <= start + 6 * n * j,
            !full_turn ==> steps == divisions,
            steps <= divisions,
            j <= steps,
            n == w@.len(),
            cur.wf(),
            cur@.len() == n,
            faces@.len() == j * n,
            forall|i: int| 0 <= i < faces@.len() ==> (#[trigger] faces@[i]).wf() && faces@[i].forward,
            closed_chain(w@) ==> closed_chain(cur@) && rings_paired(faces@, n as int, w@, cur@),
            follows(cur@, w@),
            ids_increasing_in(faces@, start as int, director.next_spec() as int),
            edges_new_or_of(faces@, w@, start as int, director.next_spec() as int),
            vertices_new_or_of(faces@, w@, start as int, director.next_spec() as int),
            forall|i: int|
                0 <= i < cur@.len() ==> edge_vertices_new_or_of(
                    #[trigger] cur@[i],
                    w@,
                    start as int,
                    director.next_spec() as int,
                ),
            forall|i: int|
                0 <= i < cur@.len() ==> new_or_of(
                    (#[trigger] cur@[i]).id,
                    w@,
                    start as int,
                    director.next_spec() as int,
                ),
        decreases steps - j,
    {
        let ghost at = director.next_spec();
        proof {
            if old(director).has_room(6 * n * divisions) {
                assert(at + 6 * n <= start + 6 * n * divisions) by (nonlinear_arith)
                    requires
                        at <= start + 6 * n * j,
                        j < divisions,
                        n >= 0,
                ;
            }
        }
        let sw = match tsweep_wire(&cur, director) {
            Ok(sw) => sw,
            Err(e) => return Err(e),
        };
        proof {
            assert(director.next_spec() <= start + 6 * n * (j + 1)) by (nonlinear_arith)
                requires
                    director.next_spec() <= at + 6 * n,
                    at <= start + 6 * n * j,
            ;
        }
        let Swept { verticals, tops, sides } = sw;
        proof {
            lemma_sweep_sides(cur@, verticals@, tops@, sides@);
            lemma_sweep_tops(cur@, verticals@, tops@, sides@);
            lemma_sweep_follows(cur@, verticals@, tops@, sides@, at as int, w@);
        }
        let next = wire_of_tops(&tops, Ghost(cur@), Ghost(verticals@));
        let ghost before = faces@;
        proof {
            if closed_chain(w@) {
                lemma_sweep_is_ring(cur@, verticals@, tops@, sides@);
                lemma_add_ring(before, w@, cur@, verticals@, tops@, sides@);
            }
        }
        let mut rest = sides;
        faces.append(&mut rest);
        proof {
            assert(faces@.len() == (j + 1) * n) by (nonlinear_arith)
                requires
                    faces@.len() == before.len() + n,
                    before.len() == j * n,
            ;
            assert forall|i: int| 0 <= i < faces@.len() implies (#[trigger] faces@[i]).wf()
                && faces@[i].forward by {
                if i >= before.len() {
                    assert(faces@[i] == sides@[i - before.len()]);
                } else {
                    assert(faces@[i] == before[i]);
                }
            }
            lemma_sweep_step_ids(before, cur@, verticals@, tops@, sides@, w@, start as int, at as int);
        }
        cur = next;
        j = j + 1;
    }
    if full_turn {
        let ghost at = director.next_spec();
        proof {
            if old(director).has_room(6 * n * divisions) {
                assert(at + 3 * n <= start + 6 * n * divisions) by (nonlinear_arith)
                    requires
                        at <= start + 6 * n * (divisions - 1),
                        n >= 0,
                ;
            }
        }
        let (ring_m, sides) = match sweep_onto(&cur, w, director) {
            Ok(ring) => ring,
            Err(e) => return Err(e),
        };
        let ghost before = faces@;
        proof {
            if closed_chain(w@) {
                lemma_add_ring(before, w@, cur@, ring_m@, w@, sides@);
            }
        }
        let mut rest = sides;
        faces.append(&mut rest);
        proof {
            if closed_chain(w@) {
                lemma_close_rings(faces@, w@);
                lemma_paired_slots_closed(faces@);
            }
            assert(faces@.len() == divisions * n) by (nonlinear_arith)
                requires
                    faces@.len() == before.len() + n,
                    before.len() == (divisions - 1) * n,
            ;
            assert forall|i: int| 0 <= i < faces@.len() implies (#[trigger] faces@[i]).wf()
                && faces@[i].forward by {
                if i >= before.len() {
                    assert(faces@[i] == sides@[i - before.len()]);
                    assert(has_key(ring_m@, cur@[i - before.len()].front_spec()));
                } else {
                    assert(faces@[i] == before[i]);
                }
            }
            lemma_onto_step_ids(
                before,
                cur@,
                ring_m@,
                sides@,
                w@,
                start as int,
                at as int,
                director.next_spec() as int,
            );
        }
    }
    Ok(Shell::from_faces(faces))
}

/// `x` is the identity of an edge of `w`, or a new one in `[lo, hi)`.
pub open spec fn new_or_of(x: u64, w: Seq<Edge>, lo: int, hi: int) -> bool {
    lo <= x < hi || exists|i: int| 0 <= i < w.len() && #[trigger] w[i].id == x
}

/// Every boundary edge of the faces is an edge of `w` or new, numbered in `[lo, hi)`.
pub open spec fn edges_new_or_of(fs: Seq<Face>, w: Seq<Edge>, lo: int, hi: int) -> bool {
    forall|f: int, q: int|
        0 <= f < fs.len() && 0 <= q < fs[f].absolute_boundary().len() ==> new_or_of(
            #[trigger] fs[f].absolute_boundary()[q].id,
            w,
            lo,
            hi,
        )
}

/// `v` is a vertex of an edge of `w`, or a new one in `[lo, hi)`.
pub open spec fn vertex_new_or_of(v: Vertex, w: Seq<Edge>, lo: int, hi: int) -> bool {
    lo <= v.id < hi || exists|i: int|
        0 <= i < w.len() && (#[trigger] w[i].absolute_front == v || w[i].absolute_back == v)
}

/// Both vertices of `e` are vertices of `w` or new.
pub open spec fn edge_vertices_new_or_of(e: Edge, w: Seq<Edge>, lo: int, hi: int) -> bool {
    vertex_new_or_of(e.absolute_front, w, lo, hi) && vertex_new_or_of(e.absolute_back, w, lo, hi)
}

/// Every vertex on the faces is a vertex of `w` or new, numbered in `[lo, hi)`.
pub open spec fn vertices_new_or_of(fs: Seq<Face>, w: Seq<Edge>, lo: int, hi: int) -> bool {
    forall|f: int, q: int|
        0 <= f < fs.len() && 0 <= q < fs[f].absolute_boundary().len() ==> edge_vertices_new_or_of(
            #[trigger] fs[f].absolute_boundary()[q],
            w,
            lo,
            hi,
        )
}

/// A ring between chains whose vertices are old or new, with verticals rising to old or new
/// vertices, has old or new vertices only.
proof fn lemma_ring_vertices(
    s: Seq<Edge>,
    m: Seq<(Vertex, Edge)>,
    t: Seq<Edge>,
    sides: Seq<Face>,
    w: Seq<Edge>,
    lo: int,
    hi: int,
)
    requires
        is_ring_of(s, m, t, sides),
        forall|i: int| 0 <= i < s.len() ==> edge_vertices_new_or_of(#[trigger] s[i], w, lo, hi),
        forall|i: int| 0 <= i < t.len() ==> edge_vertices_new_or_of(#[trigger] t[i], w, lo, hi),
        forall|j: int|
            0 <= j < m.len() ==> vertex_new_or_of((#[trigger] m[j]).1.absolute_back, w, lo, hi),
    ensures
        vertices_new_or_of(sides, w, lo, hi),
{
    assert forall|f: int, q: int|
        0 <= f < sides.len() && 0 <= q < sides[f].absolute_boundary().len() implies edge_vertices_new_or_of(
        #[trigger] sides[f].absolute_boundary()[q],
        w,
        lo,
        hi,
    ) by {
        assert(has_key(m, s[f].front_spec()) && has_key(m, s[f].back_spec()));
        let jf = key_index(m, s[f].front_spec());
        let jb = key_index(m, s[f].back_spec());
        assert(0 <= jf < m.len() && 0 <= jb < m.len());
        assert(m[jf].0 == s[f].front_spec() && m[jb].0 == s[f].back_spec());
        assert(edge_vertices_new_or_of(s[f], w, lo, hi));
        assert(edge_vertices_new_or_of(t[f], w, lo, hi));
        assert(vertex_new_or_of(m[jf].1.absolute_back, w, lo, hi));
        assert(vertex_new_or_of(m[jb].1.absolute_back, w, lo, hi));
    }
}

/// Old-or-new vertices stay so as the range of new identities grows, and across concatenation.
proof fn lemma_vertices_append(a: Seq<Face>, b: Seq<Face>, w: Seq<Edge>, lo: int, hi: int, hi2: int)
    requires
        hi <= hi2,
        vertices_new_or_of(a, w, lo, hi),
        vertices_new_or_of(b, w, lo, hi2),
    ensures
        vertices_new_or_of(a + b, w, lo, hi2),
{
    let c = a + b;
    assert forall|f: int, q: int|
        0 <= f < c.len() && 0 <= q < c[f].absolute_boundary().len() implies edge_vertices_new_or_of(
        #[trigger] c[f].absolute_boundary()[q],
        w,
        lo,
        hi2,
    ) by {
        if f < a.len() {
            assert(c[f] == a[f]);
            assert(edge_vertices_new_or_of(a[f].absolute_boundary()[q], w, lo, hi));
        } else {
            assert(c[f] == b[f - a.len()]);
            assert(edge_vertices_new_or_of(b[f - a.len()].absolute_boundary()[q], w, lo, hi2));
        }
    }
}

/// A ring between chains of old or new edges, with new verticals, has old or new edges only.
proof fn lemma_ring_edges(
    s: Seq<Edge>,
    m: Seq<(Vertex, Edge)>,
    t: Seq<Edge>,
    sides: Seq<Face>,
    w: Seq<Edge>,
    lo: int,
    hi: int,
)
    requires
        is_ring_of(s, m, t, sides),
        forall|i: int| 0 <= i < s.len() ==> new_or_of((#[trigger] s[i]).id, w, lo, hi),
        forall|i: int| 0 <= i < t.len() ==> new_or_of((#[trigger] t[i]).id, w, lo, hi),
        forall|j: int| 0 <= j < m.len() ==> lo <= (#[trigger] m[j]).1.id < hi,
    ensures
        edges_new_or_of(sides, w, lo, hi),
{
    assert forall|f: int, q: int|
        0 <= f < sides.len() && 0 <= q < sides[f].absolute_boundary().len() implies new_or_of(
        #[trigger] sides[f].absolute_boundary()[q].id,
        w,
        lo,
        hi,
    ) by {
        assert(has_key(m, s[f].front_spec()) && has_key(m, s[f].back_spec()));
        let jf = key_index(m, s[f].front_spec());
        let jb = key_index(m, s[f].back_spec());
        assert(0 <= jf < m.len() && 0 <= jb < m.len());
        assert(new_or_of(s[f].id, w, lo, hi));
        assert(new_or_of(t[f].id, w, lo, hi));
        assert(lo <= m[jf].1.id < hi && lo <= m[jb].1.id < hi);
    }
}

/// Old-or-new edges stay so as the range of new identities grows, and across concatenation.
proof fn lemma_edges_append(a: Seq<Face>, b: Seq<Face>, w: Seq<Edge>, lo: int, hi: int, hi2: int)
    requires
        hi <= hi2,
        edges_new_or_of(a, w, lo, hi),
        edges_new_or_of(b, w, lo, hi2),
    ensures
        edges_new_or_of(a + b, w, lo, hi2),
{
    let c = a + b;
    assert forall|f: int, q: int|
        0 <= f < c.len() && 0 <= q < c[f].absolute_boundary().len() implies new_or_of(
        #[trigger] c[f].absolute_boundary()[q].id,
        w,
        lo,
        hi2,
    ) by {
        if f < a.len() {
            assert(c[f] == a[f]);
            assert(new_or_of(a[f].absolute_boundary()[q].id, w, lo, hi));
        } else {
            assert(c[f] == b[f - a.len()]);
            assert(new_or_of(b[f - a.len()].absolute_boundary()[q].id, w, lo, hi2));
        }
    }
}

/// Adding a fresh sweep of `s`, made from `at` on, keeps the faces and edges numbered as new or
/// old, and its tops are new.
#[verifier::rlimit(40)]
proof fn lemma_sweep_step_ids(
    before: Seq<Face>,
    s: Seq<Edge>,
    m: Seq<(Vertex, Edge)>,
    tops: Seq<Edge>,
    sides: Seq<Face>,
    w: Seq<Edge>,
    start: int,
    at: int,
)
    requires
        start <= at,
        is_sweep_of(s, m, tops, sides),
        is_fresh_sweep(at, m, tops, sides),
        ids_increasing_in(before, start, at),
        edges_new_or_of(before, w, start, at),
        forall|i: int| 0 <= i < s.len() ==> new_or_of((#[trigger] s[i]).id, w, start, at),
        vertices_new_or_of(before, w, start, at),
        forall|i: int| 0 <= i < s.len() ==> edge_vertices_new_or_of(#[trigger] s[i], w, start, at),
    ensures
        vertices_new_or_of(before + sides, w, start, at + 2 * m.len() + 2 * s.len()),
        forall|i: int|
            0 <= i < tops.len() ==> edge_vertices_new_or_of(
                #[trigger] tops[i],
                w,
                start,
                at + 2 * m.len() + 2 * s.len(),
            ),
        ids_increasing_in(before + sides, start, at + 2 * m.len() + 2 * s.len()),
        edges_new_or_of(before + sides, w, start, at + 2 * m.len() + 2 * s.len()),
        forall|i: int|
            0 <= i < tops.len() ==> new_or_of(
                (#[trigger] tops[i]).id,
                w,
                start,
                at + 2 * m.len() + 2 * s.len(),
            ),
{
    let hi = at + 2 * m.len() + 2 * s.len();
    lemma_sweep_is_ring(s, m, tops, sides);
    lemma_fresh_sweep_ids(at, m, tops, sides);
    lemma_ids_append(before, sides, start, at, hi);
    assert forall|i: int| 0 <= i < s.len() implies new_or_of((#[trigger] s[i]).id, w, start, hi) by {
        assert(new_or_of(s[i].id, w, start, at));
    }
    assert forall|i: int| 0 <= i < tops.len() implies new_or_of((#[trigger] tops[i]).id, w, start, hi) by {
        assert(tops[i].id == at + 2 * m.len() + 2 * i);
    }
    assert forall|k: int| 0 <= k < m.len() implies start <= (#[trigger] m[k]).1.id < hi by {
        assert(m[k].1.id == at + 2 * k + 1);
    }
    lemma_ring_edges(s, m, tops, sides, w, start, hi);
    lemma_edges_append(before, sides, w, start, at, hi);
    reveal(is_sweep_of);
    assert forall|i: int| 0 <= i < s.len() implies edge_vertices_new_or_of(#[trigger] s[i], w, start, hi) by {
        assert(edge_vertices_new_or_of(s[i], w, start, at));
    }
    assert forall|k: int| 0 <= k < m.len() implies vertex_new_or_of((#[trigger] m[k]).1.absolute_back, w, start, hi) by {
        assert(m[k].1.absolute_back.id == at + 2 * k);
    }
    assert forall|i: int| 0 <= i < tops.len() implies edge_vertices_new_or_of(#[trigger] tops[i], w, start, hi) by {
        assert(has_key(m, s[i].front_spec()) && has_key(m, s[i].back_spec()));
        let jf = key_index(m, s[i].front_spec());
        let jb = key_index(m, s[i].back_spec());
        assert(0 <= jf < m.len() && 0 <= jb < m.len());
        assert(vertex_new_or_of(m[jf].1.absolute_back, w, start, hi));
        assert(vertex_new_or_of(m[jb].1.absolute_back, w, start, hi));
    }
    lemma_ring_vertices(s, m, tops, sides, w, start, hi);
    lemma_vertices_append(before, sides, w, start, at, hi);
}

/// Adding the closing ring of `s` onto `w`, made in `[at, hi)`, keeps the faces and edges
/// numbered as new or old.
proof fn lemma_onto_step_ids(
    before: Seq<Face>,
    s: Seq<Edge>,
    m: Seq<(Vertex, Edge)>,
    sides: Seq<Face>,
    w: Seq<Edge>,
    start: int,
    at: int,
    hi: int,
)
    requires
        start <= at <= hi,
        is_ring_of(s, m, w, sides),
        forall|j: int| 0 <= j < m.len() ==> at <= (#[trigger] m[j]).1.id < hi,
        ids_increasing_in(sides, at, hi),
        ids_increasing_in(before, start, at),
        edges_new_or_of(before, w, start, at),
        forall|i: int| 0 <= i < s.len() ==> new_or_of((#[trigger] s[i]).id, w, start, at),
        vertices_new_or_of(before, w, start, at),
        forall|i: int| 0 <= i < s.len() ==> edge_vertices_new_or_of(#[trigger] s[i], w, start, at),
        verticals_onto(m, s, w),
        keys_are_ends(m, s),
    ensures
        ids_increasing_in(before + sides, start, hi),
        edges_new_or_of(before + sides, w, start, hi),
        vertices_new_or_of(before + sides, w, start, hi),
{
    lemma_ids_append(before, sides, start, at, hi);
    assert forall|i: int| 0 <= i < s.len() implies new_or_of((#[trigger] s[i]).id, w, start, hi) by {
        assert(new_or_of(s[i].id, w, start, at));
    }
    assert forall|i: int| 0 <= i < w.len() implies new_or_of((#[trigger] w[i]).id, w, start, hi) by {}
    assert forall|k: int| 0 <= k < m.len() implies start <= (#[trigger] m[k]).1.id < hi by {}
    lemma_ring_edges(s, m, w, sides, w, start, hi);
    lemma_edges_append(before, sides, w, start, at, hi);
    assert forall|i: int| 0 <= i < s.len() implies edge_vertices_new_or_of(#[trigger] s[i], w, start, hi) by {
        assert(edge_vertices_new_or_of(s[i], w, start, at));
    }
    assert forall|i: int| 0 <= i < w.len() implies edge_vertices_new_or_of(#[trigger] w[i], w, start, hi) by {}
    assert forall|k: int| 0 <= k < m.len() implies vertex_new_or_of((#[trigger] m[k]).1.absolute_back, w, start, hi) by {
        let v = m[k].0;
        assert(verticals_wf(m));
        assert(keys_are_ends(m, s));
        let (i, b) = choose|i: int, b: bool| 0 <= i < s.len() && v == #[trigger] endpoint(s, i, b);
        assert(m[k].1.absolute_back == endpoint(w, i, b));
        if b {
            assert(w[i].back_spec() == w[i].absolute_front || w[i].back_spec() == w[i].absolute_back);
        } else {
            assert(w[i].front_spec() == w[i].absolute_front || w[i].front_spec() == w[i].absolute_back);
        }
    }
    lemma_ring_vertices(s, m, w, sides, w, start, hi);
    lemma_vertices_append(before, sides, w, start, at, hi);
}

/// The faces have new identities in `[lo, hi)`, increasing along the sequence, so pairwise
/// distinct.
pub open spec fn ids_increasing_in(fs: Seq<Face>, lo: int, hi: int) -> bool {
    &&& forall|i: int| 0 <= i < fs.len() ==> lo <= (#[trigger] fs[i]).id < hi
    &&& forall|i: int, k: int| 0 <= i < k < fs.len() ==> (#[trigger] fs[i]).id < (#[trigger] fs[k]).id
}

/// Faces numbered in `[lo, at)` followed by faces numbered in `[at, hi)`.
proof fn lemma_ids_append(a: Seq<Face>, b: Seq<Face>, lo: int, at: int, hi: int)
    requires
        lo <= at <= hi,
        ids_increasing_in(a, lo, at),
        ids_increasing_in(b, at, hi),
    ensures
        ids_increasing_in(a + b, lo, hi),
{
    let c = a + b;
    assert forall|i: int| 0 <= i < c.len() implies lo <= (#[trigger] c[i]).id < hi by {
        if i < a.len() {
            assert(c[i] == a[i]);
        } else {
            assert(c[i] == b[i - a.len()]);
        }
    }
    assert forall|i: int, k: int| 0 <= i < k < c.len() implies (#[trigger] c[i]).id < (
    #[trigger] c[k]).id by {
        if k < a.len() {
            assert(c[i] == a[i] && c[k] == a[k]);
        } else if i < a.len() {
            assert(c[i] == a[i] && c[k] == b[k - a.len()]);
        } else {
            assert(c[i] == b[i - a.len()] && c[k] == b[k - a.len()]);
        }
    }
}

/// The side faces of a fresh sweep are numbered in increasing order after its verticals.
proof fn lemma_fresh_sweep_ids(start: int, m: Seq<(Vertex, Edge)>, tops: Seq<Edge>, sides: Seq<Face>)
    requires
        is_fresh_sweep(start, m, tops, sides),
        sides.len() == tops.len(),
        m.len() >= 0,
    ensures
        ids_increasing_in(sides, start, start + 2 * m.len() + 2 * tops.len()),
{
    assert forall|i: int| 0 <= i < sides.len() implies start <= (#[trigger] sides[i]).id < start + 2
        * m.len() + 2 * tops.len() by {
        assert(tops[i].id == start + 2 * m.len() + 2 * i);
    }
    assert forall|i: int, k: int| 0 <= i < k < sides.len() implies (#[trigger] sides[i]).id < (
    #[trigger] sides[k]).id by {
        assert(tops[i].id == start + 2 * m.len() + 2 * i);
        assert(tops[k].id == start + 2 * m.len() + 2 * k);
    }
}

/// The tops of a fresh sweep of a chain that follows `w` follow `w` too: their ends meet only
/// where the swept ends meet, since each vertical rises to a vertex of its own.
proof fn lemma_sweep_follows(
    s: Seq<Edge>,
    m: Seq<(Vertex, Edge)>,
    tops: Seq<Edge>,
    sides: Seq<Face>,
    start: int,
    w: Seq<Edge>,
)
    requires
        is_sweep_of(s, m, tops, sides),
        is_fresh_sweep(start, m, tops, sides),
        follows(s, w),
    ensures
        follows(tops, w),
{
    reveal(is_sweep_of);
    assert forall|i: int, k: int, b: bool, c: bool|
        0 <= i < tops.len() && 0 <= k < tops.len() && #[trigger] endpoint(tops, i, b)
            == #[trigger] endpoint(tops, k, c) implies endpoint(w, i, b) == endpoint(w, k, c) by {
        assert(has_key(m, s[i].front_spec()) && has_key(m, s[k].front_spec()));
        let x = endpoint(s, i, b);
        let y = endpoint(s, k, c);
        let jx = key_index(m, x);
        let jy = key_index(m, y);
        assert(0 <= jx < m.len() && m[jx].0 == x);
        assert(0 <= jy < m.len() && m[jy].0 == y);
        assert(endpoint(tops, i, b) == m[jx].1.absolute_back);
        assert(endpoint(tops, k, c) == m[jy].1.absolute_back);
        assert(m[jx].1.absolute_back.id == start + 2 * jx);
        assert(m[jy].1.absolute_back.id == start + 2 * jy);
        assert(jx == jy);
        assert(endpoint(s, i, b) == endpoint(s, k, c));
    }
}

/// The side faces of a sweep are forward faces with closed boundaries.
pub proof fn lemma_sweep_sides(s: Seq<Edge>, m: Seq<(Vertex, Edge)>, tops: Seq<Edge>, sides: Seq<Face>)
    requires
        is_sweep_of(s, m, tops, sides),
    ensures
        sides.len() == s.len(),
        forall|i: int| 0 <= i < sides.len() ==> (#[trigger] sides[i]).wf() && sides[i].forward,
{
    reveal(is_sweep_of);
    assert forall|i: int| 0 <= i < sides.len() implies (#[trigger] sides[i]).wf()
        && sides[i].forward by {
        assert(has_key(m, s[i].front_spec()));
    }
}

/// Every face is forward and has four boundary edges.
pub open spec fn four_sided(faces: Seq<Face>) -> bool {
    forall|f: int|
        0 <= f < faces.len() ==> (#[trigger] faces[f]).forward && faces[f].absolute_boundary().len()
            == 4
}

/// The identity of the edge in slot `q` of the boundary of face `f`.
pub open spec fn slot_id(faces: Seq<Face>, f: int, q: int) -> u64 {
    faces[f].absolute_boundary()[q].id
}

/// Another slot of the faces holds the identity of slot `q` of face `f`.
pub open spec fn slot_paired(faces: Seq<Face>, f: int, q: int) -> bool {
    exists|g: int, r: int|
        0 <= g < faces.len() && 0 <= r < 4 && (g != f || r != q) && #[trigger] slot_id(faces, g, r)
            == slot_id(faces, f, q)
}

/// The rings swept so far from the closed chain `w`, the last of whose tops is `cur`: every slot is
/// paired but the bottoms of the first ring, which hold `w`, and the tops of the last ring, which
/// hold `cur`.
pub open spec fn rings_paired(faces: Seq<Face>, n: int, w: Seq<Edge>, cur: Seq<Edge>) -> bool {
    &&& four_sided(faces)
    &&& faces.len() == 0 ==> cur == w
    &&& faces.len() > 0 ==> faces.len() >= n && forall|i: int|
        0 <= i < n ==> slot_id(faces, i, 0) == (#[trigger] w[i]).id && slot_id(
            faces,
            faces.len() - n + i,
            2,
        ) == cur[i].id
    &&& forall|f: int, q: int|
        0 <= f < faces.len() && 0 <= q < 4 ==> #[trigger] slot_paired(faces, f, q) || (f < n && q
            == 0) || (faces.len() - n <= f && q == 2)
}

/// A sweep is a ring whose tops are the top edges.
proof fn lemma_sweep_is_ring(s: Seq<Edge>, m: Seq<(Vertex, Edge)>, tops: Seq<Edge>, sides: Seq<Face>)
    requires
        is_sweep_of(s, m, tops, sides),
    ensures
        is_ring_of(s, m, tops, sides),
{
    reveal(is_sweep_of);
}

/// Adding the ring of a closed chain `s` to the rings whose last tops are `s` keeps every slot
/// paired but the first bottoms and the new tops `t`.
#[verifier::rlimit(40)]
proof fn lemma_add_ring(
    faces: Seq<Face>,
    w: Seq<Edge>,
    s: Seq<Edge>,
    m: Seq<(Vertex, Edge)>,
    t: Seq<Edge>,
    sides: Seq<Face>,
)
    requires
        s.len() == w.len(),
        s.len() > 0,
        connected(s),
        closed_chain(s),
        is_ring_of(s, m, t, sides),
        rings_paired(faces, s.len() as int, w, s),
    ensures
        rings_paired(faces + sides, s.len() as int, w, t),
{
    let n = s.len() as int;
    let fs = faces + sides;
    let big_f = faces.len() as int;
    assert forall|i: int| 0 <= i < n implies {
        &&& (#[trigger] sides[i]).absolute_boundary()[0] == s[i]
        &&& sides[i].absolute_boundary()[1] == vertical_of(m, s[i].back_spec())
        &&& sides[i].absolute_boundary()[2] == t[i].inverted()
        &&& sides[i].absolute_boundary()[3] == vertical_of(m, s[i].front_spec()).inverted()
        &&& sides[i].forward
        &&& sides[i].absolute_boundary().len() == 4
        &&& fs[big_f + i] == sides[i]
    } by {
        assert(has_key(m, s[i].front_spec()));
    }
    assert forall|f: int| 0 <= f < big_f implies #[trigger] fs[f] == faces[f] by {}
    assert(four_sided(fs)) by {
        assert forall|f: int| 0 <= f < fs.len() implies (#[trigger] fs[f]).forward
            && fs[f].absolute_boundary().len() == 4 by {
            if f >= big_f {
                assert(fs[f] == sides[f - big_f]);
            }
        }
    }
    // old slots keep their pairs
    assert forall|f: int, q: int| 0 <= f < big_f && 0 <= q < 4 && slot_paired(faces, f, q)
        implies #[trigger] slot_paired(fs, f, q) by {
        let (g, r) = choose|g: int, r: int|
            0 <= g < faces.len() && 0 <= r < 4 && (g != f || r != q) && #[trigger] slot_id(faces, g, r)
                == slot_id(faces, f, q);
        assert(slot_id(fs, g, r) == slot_id(fs, f, q));
    }
    assert forall|f: int, q: int| 0 <= f < fs.len() && 0 <= q < 4 implies #[trigger] slot_paired(
        fs,
        f,
        q,
    ) || (f < n && q == 0) || (fs.len() - n <= f && q == 2) by {
        if f < big_f {
            if slot_paired(faces, f, q) {
            } else if f < n && q == 0 {
            } else {
                // an old top: paired with the bottom of the new side below it
                let i = f - (big_f - n);
                assert(slot_id(faces, i, 0) == w[i].id);
                assert(fs[f] == faces[f]);
                assert(slot_id(fs, big_f + i, 0) == s[i].id);
                assert(slot_id(fs, f, 2) == s[i].id);
            }
        } else {
            let i = f - big_f;
            if q == 0 {
                if big_f > 0 {
                    assert(slot_id(faces, i, 0) == w[i].id);
                    assert(fs[big_f - n + i] == faces[big_f - n + i]);
                    assert(slot_id(fs, big_f - n + i, 2) == s[i].id);
                    assert(slot_id(fs, f, 0) == s[i].id);
                }
            } else if q == 1 {
                let i2 = if i + 1 < n { i + 1 } else { 0 };
                assert(s[i].back_spec() == s[i2].front_spec());
                assert(slot_id(fs, big_f + i2, 3) == slot_id(fs, f, 1));
            } else if q == 3 {
                let i2 = if i > 0 { i - 1 } else { n - 1 };
                assert(s[i2].back_spec() == s[i].front_spec());
                assert(slot_id(fs, big_f + i2, 1) == slot_id(fs, f, 3));
            }
        }
    }
    assert forall|i: int| 0 <= i < n implies slot_id(fs, i, 0) == (#[trigger] w[i]).id && slot_id(
        fs,
        fs.len() - n + i,
        2,
    ) == t[i].id by {
        if big_f == 0 {
            assert(fs[i] == sides[i]);
        } else {
            assert(fs[i] == faces[i]);
        }
        assert(fs[fs.len() - n + i] == sides[i]);
    }
}

/// Once the last tops are the first bottoms, every slot is paired.
proof fn lemma_close_rings(faces: Seq<Face>, w: Seq<Edge>)
    requires
        w.len() > 0,
        faces.len() > 0,
        rings_paired(faces, w.len() as int, w, w),
    ensures
        forall|f: int, q: int| 0 <= f < faces.len() && 0 <= q < 4 ==> #[trigger] slot_paired(faces, f, q),
{
    let n = w.len() as int;
    assert forall|f: int, q: int| 0 <= f < faces.len() && 0 <= q < 4 implies #[trigger] slot_paired(
        faces,
        f,
        q,
    ) by {
        if f < n && q == 0 {
            assert(slot_id(faces, faces.len() - n + f, 2) == w[f].id);
        } else if faces.len() - n <= f && q == 2 {
            let i = f - (faces.len() - n);
            assert(slot_id(faces, i, 0) == w[i].id);
        }
    }
}

/// Four-sided faces list their edges four by four.
proof fn lemma_four_sided_edges(faces: Seq<Face>)
    requires
        four_sided(faces),
    ensures
        shell_edges(faces).len() == 4 * faces.len(),
        forall|f: int, q: int|
            0 <= f < faces.len() && 0 <= q < 4 ==> shell_edges(faces)[4 * f + q] == (#[trigger] faces[f].absolute_boundary()[q]),
    decreases faces.len(),
{
    if faces.len() > 0 {
        let d = faces.drop_last();
        assert forall|f: int| 0 <= f < d.len() implies (#[trigger] d[f]).forward
            && d[f].absolute_boundary().len() == 4 by {
            assert(d[f] == faces[f]);
        }
        lemma_four_sided_edges(d);
        let last = faces.last();
        assert(last == faces[faces.len() - 1]);
        assert forall|f: int, q: int| 0 <= f < faces.len() && 0 <= q < 4 implies shell_edges(faces)[4
            * f + q] == (#[trigger] faces[f].absolute_boundary()[q]) by {
            if f < d.len() {
                assert(d[f] == faces[f]);
                assert(d[f].absolute_boundary()[q] == faces[f].absolute_boundary()[q]);
            }
        }
    }
}

/// Fully paired four-sided faces leave no edge on one face only.
proof fn lemma_paired_slots_closed(faces: Seq<Face>)
    requires
        four_sided(faces),
        forall|f: int, q: int| 0 <= f < faces.len() && 0 <= q < 4 ==> #[trigger] slot_paired(faces, f, q),
    ensures
        boundary_edges_spec(faces).len() == 0,
{
    lemma_four_sided_edges(faces);
    let all = shell_edges(faces);
    assert forall|p: int| 0 <= p < all.len() implies paired(all, p) by {
        let f = p / 4;
        let q = p % 4;
        assert(p == 4 * f + q);
        assert(slot_paired(faces, f, q));
        let (g, r) = choose|g: int, r: int|
            0 <= g < faces.len() && 0 <= r < 4 && (g != f || r != q) && #[trigger] slot_id(faces, g, r)
                == slot_id(faces, f, q);
        assert(all[4 * g + r] == faces[g].absolute_boundary()[r]);
        assert(all[4 * f + q] == faces[f].absolute_boundary()[q]);
        assert(4 * g + r != p);
        assert(all[4 * g + r].id == all[p].id);
    }
    lemma_all_paired_closed(faces);
}

/// The copy of the vertex `v`: the one in the map, or a new vertex, which is then put in the map.
fn copy_vertex(m: &mut Vec<(Vertex, Vertex)>, v: Vertex, director: &mut Director) -> (r: Result<
    Vertex,
    Error,
>)
    requires
        keys_unique(old(m)@),
    ensures
        keys_unique(final(m)@),
        forall|u: Vertex|
            has_key(old(m)@, u) ==> has_key(final(m)@, u) && image_of(final(m)@, u) == image_of(
                old(m)@,
                u,
            ),
        final(m)@.len() <= old(m)@.len() + 1,
        final(director).next_spec() == old(director).next_spec() + (final(m)@.len()
            - old(m)@.len()),
        old(director).has_room(1) || has_key(old(m)@, v) ==> r.is_ok(),
        has_key(old(m)@, v) ==> final(m)@ == old(m)@,
        final(m)@ == old(m)@ || final(m)@ == old(m)@.push(
            (v, Vertex { id: old(director).next_spec() }),
        ),
        r matches Ok(c) ==> has_key(final(m)@, v) && c == image_of(final(m)@, v),
        r matches Err(e) ==> e == Error::IdExhausted,
{
    let mut j: usize = 0;
    while j < m.len()
        invariant
            m@ == old(m)@,
            *director == *old(director),
            keys_unique(m@),
            j <= m@.len(),
            forall|k: int| 0 <= k < j ==> (#[trigger] m@[k]).0 != v,
        decreases m@.len() - j,
    {
        if m[j].0 == v {
            proof {
                lemma_key_at(m@, j as int);
            }
            return Ok(m[j].1);
        }
        j = j + 1;
    }
    assert(!has_key(m@, v));
    let c = match director.vertex() {
        Ok(c) => c,
        Err(e) => return Err(e),
    };
    let ghost m0 = m@;
    m.push((v, c));
    proof {
        let m1 = m@;
        assert(m1[m0.len() as int].0 == v);
        lemma_key_at(m1, m0.len() as int);
        assert forall|u: Vertex| has_key(m0, u) implies has_key(m1, u) && image_of(m1, u)
            == image_of(m0, u) by {
            let k = key_index(m0, u);
            assert(m1[k] == m0[k]);
            lemma_key_at(m0, k);
            lemma_key_at(m1, k);
        }
    }
    Ok(c)
}

/// `c` copies the chain `s` through the vertex map `m`: edge for edge, each with the orientation
/// of the original and the copies of its vertices.
pub open spec fn is_copy_of(s: Seq<Edge>, m: Seq<(Vertex, Vertex)>, c: Seq<Edge>) -> bool {
    &&& keys_unique(m)
    &&& c.len() == s.len()
    &&& forall|i: int|
        0 <= i < s.len() ==> {
            &&& has_key(m, (#[trigger] s[i]).absolute_front)
            &&& has_key(m, s[i].absolute_back)
            &&& c[i].forward == s[i].forward
            &&& c[i].absolute_front == image_of(m, s[i].absolute_front)
            &&& c[i].absolute_back == image_of(m, s[i].absolute_back)
        }
}

/// The identities a copy hands out from `start`: the copy of the vertex at position `j` of the
/// map takes `start + j`, then the copy of the edge at position `i` takes the next after the
/// vertices'. All are new, pairwise distinct, and distinct from anything numbered below `start`.
pub open spec fn is_fresh_copy(start: int, m: Seq<(Vertex, Vertex)>, c: Seq<Edge>) -> bool {
    &&& forall|j: int| 0 <= j < m.len() ==> (#[trigger] m[j]).1.id == start + j
    &&& forall|i: int| 0 <= i < c.len() ==> (#[trigger] c[i]).id == start + m.len() + i
}

/// The topology of a moved copy of `w` (a rotation or translation of it): a new vertex for each
/// vertex and a new edge for each edge, with the same orientations. The copy is a wire, closed
/// when `w` is. The vertex map is returned beside it, so that the moved geometry can be bound.
/// Fails with `IdExhausted` only, and not while the session has three identities left for each
/// edge.
pub fn copy_wire(w: &Wire, director: &mut Director) -> (r: Result<(Wire, Vec<(Vertex, Vertex)>), Error>)
    requires
        w.wf(),
    ensures
        old(director).has_room(3 * w@.len() as int) ==> r.is_ok(),
        r matches Ok(c) ==> is_copy_of(w@, c.1@, c.0@) && c.0.wf() && (closed_chain(w@)
            ==> closed_chain(c.0@)),
        r matches Ok(c) ==> is_fresh_copy(old(director).next_spec() as int, c.1@, c.0@)
            && final(director).next_spec() == old(director).next_spec() + c.1@.len() + w@.len(),
        r matches Err(e) ==> e == Error::IdExhausted,
{
    let es = w.edges();
    let n = es.len();
    let ghost start = director.next_spec();
    let mut m: Vec<(Vertex, Vertex)> = Vec::new();
    let mut i: usize = 0;
    while i < n
        invariant
            n == es@.len(),
            es@ == w@,
            i <= n,
            keys_unique(m@),
            m@.len() <= 2 * i,
            director.next_spec() == start + m@.len(),
            start == old(director).next_spec(),
            forall|j: int| 0 <= j < m@.len() ==> (#[trigger] m@[j]).1.id == start + j,
            forall|k: int|
                0 <= k < i ==> has_key(m@, (#[trigger] es@[k]).absolute_front) && has_key(
                    m@,
                    es@[k].absolute_back,
                ),
        decreases n - i,
    {
        let ghost m0 = m@;
        match copy_vertex(&mut m, es[i].absolute_front, director) {
            Ok(_) => {},
            Err(e) => return Err(e),
        }
        match copy_vertex(&mut m, es[i].absolute_back, director) {
            Ok(_) => {},
            Err(e) => return Err(e),
        }
        proof {
            assert forall|k: int| 0 <= k < i + 1 implies has_key(m@, (#[trigger] es@[k]).absolute_front)
                && has_key(m@, es@[k].absolute_back) by {
                if k < i {
                    assert(has_key(m0, es@[k].absolute_front) && has_key(m0, es@[k].absolute_back));
                }
            }
        }
        i = i + 1;
    }
    let ghost mid = director.next_spec();
    let mut copy = Wire::new();
    let mut i: usize = 0;
    while i < n
        invariant
            n == es@.len(),
            es@ == w@,
            connected(w@),
            i <= n,
            keys_unique(m@),
            mid <= old(director).next_spec() + 2 * n,
            mid == old(director).next_spec() + m@.len(),
            director.next_spec() == mid + i,
            forall|j: int| 0 <= j < m@.len() ==> (#[trigger] m@[j]).1.id == old(director).next_spec() + j,
            forall|k: int| 0 <= k < i ==> (#[trigger] copy@[k]).id == mid + k,
            forall|k: int|
                0 <= k < n ==> has_key(m@, (#[trigger] es@[k]).absolute_front) && has_key(
                    m@,
                    es@[k].absolute_back,
                ),
            copy.wf(),
            copy@.len() == i,
            forall|k: int|
                0 <= k < i ==> {
                    &&& (#[trigger] copy@[k]).forward == es@[k].forward
                    &&& copy@[k].absolute_front == image_of(m@, es@[k].absolute_front)
                    &&& copy@[k].absolute_back == image_of(m@, es@[k].absolute_back)
                },
        decreases n - i,
    {
        let e = es[i];
        let front = match copy_vertex(&mut m, e.absolute_front, director) {
            Ok(v) => v,
            Err(err) => return Err(err),
        };
        let back = match copy_vertex(&mut m, e.absolute_back, director) {
            Ok(v) => v,
            Err(err) => return Err(err),
        };
        let fresh = match director.line(front, back) {
            Ok(f) => f,
            Err(err) => return Err(err),
        };
        let c = if e.forward { fresh } else { fresh.inverse() };
        proof {
            if i > 0 {
                let k = (i - 1) as int;
                assert(es@[k].back_spec() == es@[k + 1].front_spec());
                assert(copy@.last() == copy@[k]);
            }
        }
        let ghost c0 = copy@;
        match copy.push_back(c) {
            Ok(()) => {},
            Err(err) => return Err(err),
        }
        proof {
            assert forall|k: int| 0 <= k < i + 1 implies {
                &&& (#[trigger] copy@[k]).forward == es@[k].forward
                &&& copy@[k].absolute_front == image_of(m@, es@[k].absolute_front)
                &&& copy@[k].absolute_back == image_of(m@, es@[k].absolute_back)
            } by {
                if k < i {
                    assert(copy@[k] == c0[k]);
                }
            }
        }
        i = i + 1;
    }
    proof {
        if closed_chain(w@) {
            assert(copy@[0].forward == es@[0].forward);
            assert(copy@[n - 1].forward == es@[n - 1].forward);
        }
    }
    Ok((copy, m))
}

} // verus!
