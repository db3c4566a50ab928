//! What a rebuild reports: repairs and local failures, and the hard failures
//! that stop it.
use vstd::prelude::*;
use crate::edge::Vid;

verus! {

/// A failure that concerns one vertex and leaves the rest of the mesh alone.
#[derive(Clone, Copy, Debug, PartialEq, Eq, Structural)]
pub enum StructuralError {
    /// The vertex has fewer than two neighbours; it was skipped.
    DegenerateVertex(Vid),
    /// The ring of the vertex has more than one gap; the first was used.
    MultipleGaps(Vid),
    /// The vertex lists itself as a neighbour.
    SelfAdjacency(Vid),
}

/// A repair of the distance-constraint table.
#[derive(Clone, Copy, Debug, PartialEq, Eq, Structural)]
pub enum ConstraintError {
    /// The entry joined a vertex to itself, named a vertex that the
    /// adjacency graph does not have, or belonged to no edge of the graph;
    /// it was removed.
    DanglingEdge(Vid, Vid),
    /// The edge had no entry; it was given the default distance.
    MissingDefault(Vid, Vid),
}

/// One entry of the list that a rebuild or a repair returns.
#[derive(Clone, Copy, Debug, PartialEq, Eq, Structural)]
pub enum Diagnostic {
    /// A vertex could not be swept as a vertex of a manifold.
    Vertex(StructuralError),
    /// The constraint table was repaired.
    Constraint(ConstraintError),
}

/// Input that no rebuild can work on.
#[derive(Clone, Copy, Debug, PartialEq, Eq, Structural)]
pub enum TopoError {
    /// `neighbor` is listed next to `vertex` but is not in the vertex set.
    UnknownVertex { vertex: Vid, neighbor: Vid },
    /// The vertex has two or more neighbours, and the fans hold no spokes
    /// for it or spokes that do not name its neighbours in their order.
    MissingBearings(Vid),
    /// A strict rebuild met a vertex that cannot be swept.
    Rejected(StructuralError),
}

} // verus!
