//! Tables of the cells of a mesh, for the analysis of its topology:
//! winding, overlap, singular vertices and connectivity.
use vstd::prelude::*;

verus! {

/// Place of a vertex in the vertex table.
pub type L0r = usize;

/// Place of an edge in the edge table.
pub type L1r = usize;

/// Place of a triangle in the triangle table.
pub type L2r = usize;

/// The cells of a mesh by dimension: vertices, edges and triangles.
pub struct Topomodel {
    l0: Vec<L0>,
    l1: Vec<L1>,
    l2: Vec<L2>,
}

/// A vertex with the cells around it, counter-clockwise. Around an open
/// vertex there is one edge more than there are triangles; around a closed
/// one there are as many.
struct L0 {
    id: usize,
    l0: Vec<L0r>,
    l1: Vec<L1r>,
    l2: Vec<L2r>,
}

/// An edge with its two ends and its triangles: one where it is open, two
/// where it is closed.
struct L1 {
    l0: [L0r; 2],
    l2: Vec<L2r>,
}

/// A triangle with its three corners and its three edges.
struct L2 {
    l0: [L0r; 3],
    l1: [L1r; 3],
}

impl Topomodel {
    /// The number of vertices, of edges and of triangles.
    pub closed spec fn sizes(&self) -> (nat, nat, nat) {
        (self.l0@.len(), self.l1@.len(), self.l2@.len())
    }

    /// Whether every place that a cell names lies in its table.
    pub closed spec fn wf(&self) -> bool {
        &&& forall|i: int, j: int|
            0 <= i < self.l0@.len() && 0 <= j < self.l0@[i].l0@.len() ==> self.l0@[i].l0@[j]
                < self.l0@.len()
        &&& forall|i: int, j: int|
            0 <= i < self.l0@.len() && 0 <= j < self.l0@[i].l1@.len() ==> self.l0@[i].l1@[j]
                < self.l1@.len()
        &&& forall|i: int, j: int|
            0 <= i < self.l0@.len() && 0 <= j < self.l0@[i].l2@.len() ==> self.l0@[i].l2@[j]
                < self.l2@.len()
        &&& forall|i: int, j: int|
            0 <= i < self.l1@.len() && 0 <= j < 2 ==> self.l1@[i].l0[j] < self.l0@.len()
        &&& forall|i: int, j: int|
            0 <= i < self.l1@.len() && 0 <= j < self.l1@[i].l2@.len() ==> self.l1@[i].l2@[j]
                < self.l2@.len()
        &&& forall|i: int, j: int|
            0 <= i < self.l2@.len() && 0 <= j < 3 ==> self.l2@[i].l0[j] < self.l0@.len()
        &&& forall|i: int, j: int|
            0 <= i < self.l2@.len() && 0 <= j < 3 ==> self.l2@[i].l1[j] < self.l1@.len()
    }

    /// The tables of a mesh without cells.
    pub fn new() -> (model: Self)
        ensures
            model.wf(),
            model.sizes() == (0nat, 0nat, 0nat),
    {
        Topomodel { l0: Vec::new(), l1: Vec::new(), l2: Vec::new() }
    }
}

} // verus!
