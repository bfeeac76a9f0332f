use vstd::prelude::*;

use crate::topology::Vertex;

verus! {

/// The failures of the modeling operations.
#[derive(Clone, Copy, Debug, PartialEq, Eq, Structural)]
pub enum Error {
    /// An edge cannot be put after the wire: its front is not the wire's back.
    CannotAddEdge(Vertex, Vertex),
    /// A face was asked for on a wire with no edge.
    EmptyWire,
    /// A face was asked for on a wire that does not come back to its start.
    NotClosedWire,
    /// A homotopy was asked between a closed and an open element.
    DifferentHomotopyType,
    /// A solid was asked for on a shell with an edge on one face only.
    NotClosedShell,
    /// A solid was asked for on a shell with an edge on more than two faces.
    NotManifold,
    /// A solid was asked for on a shell with an edge walked the same way by two faces.
    NotOrientable,
    /// No geometry is bound to the entity with this identity.
    NoGeometry(u64),
    /// The identity counter of the session is used up.
    IdExhausted,
}

} // verus!
