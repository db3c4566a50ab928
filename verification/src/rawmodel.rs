//! The mesh model and its rebuilds.
use vstd::prelude::*;
use vstd::std_specs::iter::IteratorSpec;
use std::collections::HashMap;
use std::collections::HashSet;
use crate::constraints::DistanceConstraints;
use crate::edge::{
    canonical_face, face_set, lemma_face_set_push, pair, sort_face, triple, Vid,
};
use crate::faces::{default_constraints, face_constraints, face_graph, link_faces};
use crate::graph::{
    add_arc, graph_view, key_list, lemma_without, linked, neighbors_of, squash_graph,
    squashed_graph, with_link, without_self_loops,
};
use crate::rebuild::{
    fan_fits, fault, find_fault, find_left_out, reports_exactly, sound, strict_fault,
    strictly_sound, sweep_all, swept_border, swept_faces, swept_graph, swept_report,
};
use crate::reconcile::{
    add_defaults, dangling, dangling_entries, drop_dangling, drop_self_loops, drop_strays,
    is_graph_edge, lemma_joined, missing_defaults, reconciled, stray_entries, without_dangling,
};
use crate::report::{ConstraintError, Diagnostic, StructuralError, TopoError};
use crate::sweep::{
    face_bridge, fans_view, graph_bridge, tidy_faces, Continuity, Fan, FanView,
};

verus! {

/// One vertex of the mesh.
///
/// Each number is held as the bit pattern of an IEEE-754 single; the library
/// carries the patterns and never interprets them.
#[derive(Clone, Copy, Debug)]
pub struct RawVertex {
    /// Position: x, then y.
    pub pos: [u32; 2],
    /// Texture coordinate: u, then v.
    pub tex: [u32; 2],
    /// Inverse mass.
    pub im: u32,
}

/// A mesh: its vertices, their adjacency, the border, the triangles and the
/// distance constraints.
#[derive(Debug)]
pub struct Rawmodel {
    /// Names given to vertices by whoever authored the mesh.
    pub name: HashMap<String, Vid>,
    /// The next identifier that `alloc_id` hands out.
    pub id_alloc: Vid,
    /// For each vertex the list of its neighbours.
    pub neigh: HashMap<Vid, Vec<Vid>>,
    /// The vertices on the mesh boundary.
    pub border: HashSet<Vid>,
    /// The vertices by identifier.
    pub vs: HashMap<Vid, RawVertex>,
    /// The target distance of each constrained edge.
    pub dcs: DistanceConstraints,
    /// The triangles, each with its corners in ascending order.
    pub fs: Vec<[Vid; 3]>,
    /// The texture layer that the mesh is drawn with.
    pub tex_layer: i32,
    /// Whether the mesh stays where it is.
    pub is_static: bool,
}

/// What a `Rawmodel` holds, as mathematics. The order of the triangle list
/// is not part of it.
pub struct Model {
    pub name: Map<String, Vid>,
    pub id_alloc: Vid,
    pub neigh: Map<Vid, Seq<Vid>>,
    pub border: Set<Vid>,
    pub vs: Map<Vid, RawVertex>,
    pub dcs: Map<(Vid, Vid), u32>,
    pub fs: Set<(Vid, Vid, Vid)>,
    pub tex_layer: i32,
    pub is_static: bool,
}

impl View for Rawmodel {
    type V = Model;

    open spec fn view(&self) -> Model {
        Model {
            name: self.name@,
            id_alloc: self.id_alloc,
            neigh: graph_view(self.neigh@),
            border: self.border@,
            vs: self.vs@,
            dcs: self.dcs@,
            fs: face_set(self.fs@),
            tex_layer: self.tex_layer,
            is_static: self.is_static,
        }
    }
}

/// The model after a rebuild from its graph: every vertex's ring is ordered
/// and turned, the border and the triangles are those that the sweep finds,
/// and the constraint table is in step with the graph.
pub open spec fn rebuilt_from_graph(m: Model, fans: Map<Vid, FanView>) -> Model {
    let bridge = graph_bridge(m.neigh);
    Model {
        neigh: swept_graph(bridge, m.neigh, m.vs.dom(), fans),
        border: swept_border(bridge, m.neigh, m.vs.dom(), fans),
        fs: swept_faces(bridge, m.neigh, m.vs.dom(), fans),
        dcs: reconciled(m.dcs, m.neigh, m.vs.dom()),
        ..m
    }
}

/// Whether a rebuild from the graph reports `d`: what the sweep reports
/// about the vertices, a missing default for every edge without an entry,
/// and a dangling edge for every entry that belongs to no edge.
pub open spec fn graph_rebuild_reports(m: Model, fans: Map<Vid, FanView>, d: Diagnostic) -> bool {
    match d {
        Diagnostic::Vertex(s) => swept_report(
            graph_bridge(m.neigh),
            m.neigh,
            m.vs.dom(),
            fans,
        ).contains(s),
        Diagnostic::Constraint(ConstraintError::MissingDefault(a, b)) => is_graph_edge(
            m.neigh,
            m.vs.dom(),
            (a, b),
        ) && !m.dcs.contains_key((a, b)),
        Diagnostic::Constraint(ConstraintError::DanglingEdge(a, b)) => m.dcs.contains_key((a, b))
            && !is_graph_edge(m.neigh, m.vs.dom(), (a, b)),
    }
}

/// The model after a rebuild from the triangle list `faces`: the graph is
/// that of the triangles, swept with continuity by triangles, and every edge
/// of a triangle has the default distance.
pub open spec fn rebuilt_from_faces(m: Model, faces: Seq<[Vid; 3]>, fans: Map<Vid, FanView>) -> Model {
    let bridge = face_bridge(face_set(faces));
    let g = face_graph(faces);
    Model {
        neigh: swept_graph(bridge, g, m.vs.dom(), fans),
        border: swept_border(bridge, g, m.vs.dom(), fans),
        dcs: face_constraints(faces),
        ..m
    }
}

/// The model after a repair: no dangling constraint, and no vertex that
/// lists itself.
pub open spec fn repaired(m: Model) -> Model {
    Model { neigh: without_self_loops(m.neigh), dcs: without_dangling(m.dcs, m.neigh), ..m }
}

/// Whether a repair reports `d`.
pub open spec fn repair_reports(m: Model, d: Diagnostic) -> bool {
    match d {
        Diagnostic::Constraint(ConstraintError::DanglingEdge(a, b)) => m.dcs.contains_key((a, b))
            && dangling(m.neigh, (a, b)),
        Diagnostic::Vertex(StructuralError::SelfAdjacency(k)) => m.neigh.contains_key(k)
            && m.neigh[k].contains(k),
        _ => false,
    }
}

/// The graph with the sides of a grid cell and one of its diagonals added:
/// the corners are given row by row, and the diagonal joins the first to the
/// last.
pub open spec fn with_cell(g: Map<Vid, Seq<Vid>>, corners: [Vid; 4]) -> Map<Vid, Seq<Vid>> {
    let top = with_link(g, corners[0], corners[1]);
    let left = with_link(top, corners[0], corners[2]);
    let across = with_link(left, corners[0], corners[3]);
    let right = with_link(across, corners[1], corners[3]);
    with_link(right, corners[2], corners[3])
}

/// The identifier of the grid point in row `row` and column `col` of a grid
/// with `width` points in a row.
pub open spec fn grid_point(row: u64, col: u64, width: u64) -> int {
    row * width + col
}

/// The identifier of the grid point in row `row` and column `col` of a grid
/// with `width` points in a row, where it is an identifier.
pub fn grid_id(row: u64, col: u64, width: u64) -> (id: Option<Vid>)
    ensures
        id == if grid_point(row, col, width) <= u64::MAX {
            Some(grid_point(row, col, width) as Vid)
        } else {
            None
        },
{
    match row.checked_mul(width) {
        Some(start) => start.checked_add(col),
        None => {
            assert(row * width + col > u64::MAX);
            None
        },
    }
}

/// The model without vertices.
pub open spec fn empty_model() -> Model {
    Model {
        name: Map::empty(),
        id_alloc: 0,
        neigh: Map::empty(),
        border: Set::empty(),
        vs: Map::empty(),
        dcs: Map::empty(),
        fs: Set::empty(),
        tex_layer: 0,
        is_static: false,
    }
}

impl Default for Rawmodel {
    fn default() -> (model: Self)
        ensures
            model@ == empty_model(),
            model.fs@.len() == 0,
    {
        Rawmodel::new()
    }
}

/// A set with the members of `set`.
pub fn copy_set(set: &HashSet<Vid>) -> (copy: HashSet<Vid>)
    ensures
        copy@ == set@,
{
    broadcast use vstd::std_specs::hash::group_hash_axioms;

    let mut copy: HashSet<Vid> = HashSet::new();
    let ghost all = set.iter().remaining().unref();
    for k in it: set.iter()
        invariant
            all == it.seq().unref(),
            forall|v: Vid|
                copy@.contains(v) <==> exists|i: int|
                    0 <= i < it.index() && #[trigger] all[i] == v,
    {
        let ghost before = copy@;
        let ghost at = it.index();
        copy.insert(*k);
        proof {
            assert(all[at] == *k);
            assert forall|v: Vid|
                copy@.contains(v) <==> exists|i: int| 0 <= i < at + 1 && #[trigger] all[i] == v by {
                if before.contains(v) {
                    let i = choose|i: int| 0 <= i < at && #[trigger] all[i] == v;
                    assert(0 <= i < at + 1 && all[i] == v);
                }
                if exists|i: int| 0 <= i < at + 1 && #[trigger] all[i] == v {
                    let i = choose|i: int| 0 <= i < at + 1 && #[trigger] all[i] == v;
                    if i < at {
                        assert(before.contains(v));
                    }
                }
            }
        }
    }
    proof {
        assert forall|v: Vid| copy@.contains(v) <==> set@.contains(v) by {
            assert(all.to_set().contains(v) <==> set@.contains(v));
            if all.contains(v) {
                let i = all.index_of(v);
                assert(all[i] == v);
            }
        }
        assert(copy@ =~= set@);
    }
    copy
}

/// A list with the triangles of `fs`, in their order.
pub fn copy_faces(fs: &Vec<[Vid; 3]>) -> (copy: Vec<[Vid; 3]>)
    ensures
        copy@ == fs@,
{
    let mut copy: Vec<[Vid; 3]> = Vec::new();
    let mut i: usize = 0;
    while i < fs.len()
        invariant
            i <= fs.len(),
            copy@ == fs@.take(i as int),
        decreases fs.len() - i,
    {
        copy.push(fs[i]);
        proof {
            assert(fs@.take(i + 1) =~= fs@.take(i as int).push(fs@[i as int]));
        }
        i += 1;
    }
    proof {
        assert(fs@.take(fs.len() as int) =~= fs@);
    }
    copy
}

impl Clone for Rawmodel {
    fn clone(&self) -> (other: Self)
        ensures
            other@ == self@,
            other.fs@ == self.fs@,
    {
        Rawmodel {
            name: self.name.clone(),
            id_alloc: self.id_alloc,
            neigh: self.neigh.clone(),
            border: copy_set(&self.border),
            vs: self.vs.clone(),
            dcs: self.dcs.clone(),
            fs: copy_faces(&self.fs),
            tex_layer: self.tex_layer,
            is_static: self.is_static,
        }
    }
}

/// The vertex with its texture coordinate set to its position.
pub open spec fn textured_by_position(v: RawVertex) -> RawVertex {
    RawVertex { pos: v.pos, tex: v.pos, im: v.im }
}

impl Rawmodel {
    /// A model without vertices.
    pub fn new() -> (model: Self)
        ensures
            model@ == empty_model(),
            model.fs@.len() == 0,
    {
        let model = Rawmodel {
            name: HashMap::new(),
            id_alloc: 0,
            neigh: HashMap::new(),
            border: HashSet::new(),
            vs: HashMap::new(),
            dcs: DistanceConstraints::new(),
            fs: Vec::new(),
            tex_layer: 0,
            is_static: false,
        };
        proof {
            assert(model@.neigh =~= Map::empty());
            assert(model@.fs =~= Set::empty());
        }
        model
    }

    /// Removes the constraints that name a vertex without an adjacency entry
    /// or join a vertex to itself, and takes each vertex out of its own
    /// neighbour list, wherever it stands there. Returns one report for each
    /// constraint removed and one for each vertex that listed itself.
    pub fn fix(&mut self) -> (report: Vec<Diagnostic>)
        ensures
            final(self)@ == repaired(old(self)@),
            final(self).fs@ == old(self).fs@,
            forall|k: Vid| !#[trigger] linked(final(self)@.neigh, k, k),
            report@.no_duplicates(),
            forall|d: Diagnostic| report@.contains(d) <==> repair_reports(old(self)@, d),
    {
        let mut report: Vec<Diagnostic> = Vec::new();
        let ghost before = self@;
        drop_dangling(&mut self.dcs, &self.neigh, &mut report);
        let ghost first = report@;
        drop_self_loops(&mut self.neigh, &mut report);
        proof {
            let gone = dangling_entries(before.dcs, before.neigh);
            assert(first.subrange(0, 0) =~= Seq::<Diagnostic>::empty());
            lemma_joined(first, 0);
            assert forall|i: int, j: int|
                #![trigger report@[i], report@[j]]
                0 <= i < first.len() <= j < report@.len() implies report@[i] != report@[j] by {
                assert(report@.subrange(0, first.len() as int)[i] == first[i]);
                assert(first[i] is Constraint);
                assert(report@[j] is Vertex);
            }
            lemma_joined(report@, first.len() as int);
            assert forall|k: Vid| !#[trigger] linked(self@.neigh, k, k) by {
                if before.neigh.contains_key(k) {
                    lemma_without(before.neigh[k], k);
                }
            }
            assert forall|d: Diagnostic| report@.contains(d) <==> repair_reports(before, d) by {
                if report@.contains(d) {
                    let p = report@.index_of(d);
                    if p < first.len() {
                        assert(report@.subrange(0, first.len() as int)[p] == first[p]);
                        assert(first[p] matches Diagnostic::Constraint(
                            ConstraintError::DanglingEdge(a, b),
                        ) && gone.contains((a, b)));
                    }
                }
                if repair_reports(before, d) {
                    match d {
                        Diagnostic::Constraint(ConstraintError::DanglingEdge(a, b)) => {
                            assert(gone.contains((a, b)));
                            let p = choose|p: int|
                                0 <= p < first.len() && first[p] == Diagnostic::Constraint(
                                    ConstraintError::DanglingEdge(a, b),
                                );
                            assert(report@.subrange(0, first.len() as int)[p] == first[p]);
                        },
                        Diagnostic::Vertex(StructuralError::SelfAdjacency(k)) => {
                            assert(linked(before.neigh, k, k));
                        },
                        _ => {},
                    }
                }
            }
        }
        report
    }

    /// Sets the texture coordinate of every vertex to its position.
    pub fn pos2tex(&mut self)
        ensures
            final(self)@ == (Model {
                vs: Map::new(
                    |k: Vid| old(self)@.vs.contains_key(k),
                    |k: Vid| textured_by_position(old(self)@.vs[k]),
                ),
                ..old(self)@
            }),
            final(self).fs@ == old(self).fs@,
    {
        broadcast use vstd::std_specs::hash::group_hash_axioms;

        let keys = key_list(&self.vs);
        let ghost before = self@;
        let mut i: usize = 0;
        while i < keys.len()
            invariant
                i <= keys.len(),
                keys@.no_duplicates(),
                forall|k: Vid| keys@.contains(k) <==> before.vs.contains_key(k),
                self@ == (Model { vs: self@.vs, ..before }),
                self.fs@ == old(self).fs@,
                self@.vs.dom() == before.vs.dom(),
                forall|j: int|
                    0 <= j < i ==> self@.vs[#[trigger] keys@[j]] == textured_by_position(
                        before.vs[keys@[j]],
                    ),
                forall|j: int|
                    i <= j < keys.len() ==> self@.vs[#[trigger] keys@[j]] == before.vs[keys@[j]],
            decreases keys.len() - i,
        {
            let k = keys[i];
            let ghost mid = self@.vs;
            assert(keys@.contains(k));
            match self.vs.remove(&k) {
                Some(v) => {
                    self.vs.insert(k, RawVertex { pos: v.pos, tex: v.pos, im: v.im });
                },
                None => {},
            }
            proof {
                assert(self@.vs =~= mid.insert(k, textured_by_position(before.vs[k])));
            }
            i += 1;
        }
        proof {
            let goal = Map::new(
                |k: Vid| before.vs.contains_key(k),
                |k: Vid| textured_by_position(before.vs[k]),
            );
            assert forall|k: Vid| self@.vs.contains_key(k) implies self@.vs[k] == goal[k] by {
                assert(keys@.contains(k));
                let j = keys@.index_of(k);
                assert(keys@[j] == k);
            }
            assert(self@.vs =~= goal);
        }
    }

    /// Rebuilds rings, border, triangles and constraints from the adjacency
    /// graph.
    ///
    /// `fans` holds the measured angles: for every vertex with two or more
    /// neighbours one spoke for each entry of its neighbour list, in the
    /// order of the list. Every vertex is swept on its own: one that cannot
    /// be classified is reported and left as it was, and the others are
    /// rebuilt all the same. The constraint table is left with an entry for
    /// every edge of the graph and for nothing else: an entry that belongs
    /// to no edge is removed and reported, and an edge without an entry gets
    /// the default distance and is reported. Where a neighbour is no vertex
    /// or a fan is missing, nothing is changed and the fault is returned.
    pub fn build_topo2(&mut self, fans: &HashMap<Vid, Fan>) -> (res: Result<
        Vec<Diagnostic>,
        TopoError,
    >)
        ensures
            res is Ok <==> sound(old(self)@.neigh, old(self)@.vs.dom(), fans_view(fans@)),
            match res {
                Ok(report) => {
                    &&& final(self)@ == rebuilt_from_graph(old(self)@, fans_view(fans@))
                    &&& tidy_faces(final(self).fs@)
                    &&& report@.no_duplicates()
                    &&& forall|d: Diagnostic|
                        report@.contains(d) <==> graph_rebuild_reports(old(self)@, fans_view(fans@), d)
                },
                Err(e) => {
                    &&& fault(old(self)@.neigh, old(self)@.vs.dom(), fans_view(fans@), e)
                    &&& final(self)@ == old(self)@
                    &&& final(self).fs@ == old(self).fs@
                },
            },
    {
        let ids = key_list(&self.vs);
        let ghost before = self@;
        let ghost bridge = graph_bridge(before.neigh);
        proof {
            assert(ids@.to_set() =~= before.vs.dom());
        }
        match find_fault(&self.neigh, &self.vs, &ids, fans) {
            Err(e) => {
                return Err(e);
            },
            Ok(()) => {},
        }
        proof {
            assert forall|k: Vid|
                ids@.contains(k) && #[trigger] neighbors_of(before.neigh, k).len()
                    >= 2 implies fan_fits(
                fans_view(fans@),
                k,
                neighbors_of(before.neigh, k),
            ) by {
                assert(!fault(before.neigh, before.vs.dom(), fans_view(fans@), TopoError::MissingBearings(k)));
            }
        }
        let how = Continuity::Graph(&self.neigh);
        let swept = sweep_all(&self.neigh, &ids, fans, &how, true);
        let mut report = swept.report;
        let ghost first = report@;
        drop_strays(&mut self.dcs, &self.neigh, &self.vs, &mut report);
        let ghost second = report@;
        let ghost kept = self.dcs@;
        add_defaults(&mut self.dcs, &self.neigh, &ids, &mut report);
        self.neigh = swept.rings;
        self.border = swept.border;
        self.fs = swept.faces;
        proof {
            let vs = before.vs.dom();
            let expected = swept_report(bridge, before.neigh, vs, fans_view(fans@));
            let gone = stray_entries(before.dcs, before.neigh, vs);
            let fresh = missing_defaults(kept, before.neigh, vs);
            assert(self@.dcs =~= reconciled(before.dcs, before.neigh, vs));
            assert forall|i: int| 0 <= i < second.len() implies #[trigger] report@[i]
                == second[i] by {
                assert(report@.subrange(0, second.len() as int)[i] == second[i]);
            }
            assert forall|i: int| 0 <= i < first.len() implies #[trigger] second[i] == first[i] by {
                assert(second.subrange(0, first.len() as int)[i] == first[i]);
            }
            assert forall|i: int, j: int|
                #![trigger second[i], second[j]]
                0 <= i < first.len() <= j < second.len() implies second[i] != second[j] by {
                assert(first[i] is Vertex);
                assert(second[j] is Constraint);
            }
            lemma_joined(second, first.len() as int);
            assert(report@.subrange(0, second.len() as int) =~= second);
            assert forall|i: int, j: int|
                #![trigger report@[i], report@[j]]
                0 <= i < second.len() <= j < report@.len() implies report@[i] != report@[j] by {
                assert(report@[j] matches Diagnostic::Constraint(
                    ConstraintError::MissingDefault(a, b),
                ) && fresh.contains((a, b)));
                if i < first.len() {
                    assert(first[i] is Vertex);
                } else {
                    assert(second[i] matches Diagnostic::Constraint(
                        ConstraintError::DanglingEdge(a, b),
                    ) && gone.contains((a, b)));
                }
            }
            lemma_joined(report@, second.len() as int);
            assert forall|d: Diagnostic|
                report@.contains(d) <==> graph_rebuild_reports(before, fans_view(fans@), d) by {
                if report@.contains(d) {
                    let p = report@.index_of(d);
                    if p < first.len() {
                        assert(first[p] is Vertex);
                        assert(first.contains(d));
                        match d {
                            Diagnostic::Vertex(s) => {
                                assert(expected.contains(s));
                            },
                            _ => {},
                        }
                    } else if p < second.len() {
                        assert(second[p] matches Diagnostic::Constraint(
                            ConstraintError::DanglingEdge(a, b),
                        ) && gone.contains((a, b)));
                    } else {
                        assert(report@[p] matches Diagnostic::Constraint(
                            ConstraintError::MissingDefault(a, b),
                        ) && fresh.contains((a, b)));
                    }
                }
                if graph_rebuild_reports(before, fans_view(fans@), d) {
                    match d {
                        Diagnostic::Vertex(s) => {
                            assert(expected.contains(s));
                            assert(first.contains(d));
                            let p = first.index_of(d);
                            assert(report@[p] == d);
                        },
                        Diagnostic::Constraint(ConstraintError::MissingDefault(a, b)) => {
                            assert(fresh.contains((a, b)));
                        },
                        Diagnostic::Constraint(ConstraintError::DanglingEdge(a, b)) => {
                            assert(gone.contains((a, b)));
                            let p = choose|p: int|
                                first.len() <= p < second.len() && second[p]
                                    == Diagnostic::Constraint(ConstraintError::DanglingEdge(a, b));
                            assert(report@[p] == d);
                        },
                    }
                }
            }
        }
        Ok(report)
    }

    /// Rebuilds from the adjacency graph as `build_topo2` does, but only
    /// where every vertex can be swept: where one lists itself, has fewer
    /// than two neighbours or an undefined direction, nothing is changed and
    /// the vertex is returned as rejected.
    pub fn build_topo2_strict(&mut self, fans: &HashMap<Vid, Fan>) -> (res: Result<
        Vec<Diagnostic>,
        TopoError,
    >)
        ensures
            res is Ok <==> strictly_sound(old(self)@.neigh, old(self)@.vs.dom(), fans_view(fans@)),
            match res {
                Ok(report) => {
                    &&& final(self)@ == rebuilt_from_graph(old(self)@, fans_view(fans@))
                    &&& tidy_faces(final(self).fs@)
                    &&& report@.no_duplicates()
                    &&& forall|d: Diagnostic|
                        report@.contains(d) <==> graph_rebuild_reports(
                            old(self)@,
                            fans_view(fans@),
                            d,
                        )
                },
                Err(e) => {
                    &&& strict_fault(old(self)@.neigh, old(self)@.vs.dom(), fans_view(fans@), e)
                    &&& final(self)@ == old(self)@
                    &&& final(self).fs@ == old(self).fs@
                },
            },
    {
        let ids = key_list(&self.vs);
        let ghost before = self@;
        proof {
            assert(ids@.to_set() =~= before.vs.dom());
        }
        match find_fault(&self.neigh, &self.vs, &ids, fans) {
            Err(e) => {
                return Err(e);
            },
            Ok(()) => {},
        }
        let ghost g = graph_view(self.neigh@);
        proof {
            assert forall|k: Vid|
                ids@.contains(k) && #[trigger] neighbors_of(g, k).len() >= 2 implies fans@.contains_key(
                k,
            ) by {
                assert(!fault(g, before.vs.dom(), fans_view(fans@), TopoError::MissingBearings(k)));
            }
        }
        match find_left_out(&self.neigh, &ids, fans) {
            Some(d) => {
                return Err(TopoError::Rejected(d));
            },
            None => {},
        }
        self.build_topo2(fans)
    }

    /// Rebuilds from the triangle list as `build_topo` does, but only where
    /// every vertex can be swept: where one lists itself, has fewer than two
    /// neighbours or an undefined direction, nothing is changed and the
    /// vertex is returned as rejected.
    pub fn build_topo_strict(&mut self, fans: &HashMap<Vid, Fan>) -> (res: Result<
        Vec<Diagnostic>,
        TopoError,
    >)
        ensures
            res is Ok <==> strictly_sound(
                face_graph(old(self).fs@),
                old(self)@.vs.dom(),
                fans_view(fans@),
            ),
            final(self).fs@ == old(self).fs@,
            match res {
                Ok(report) => {
                    &&& final(self)@ == rebuilt_from_faces(
                        old(self)@,
                        old(self).fs@,
                        fans_view(fans@),
                    )
                    &&& reports_exactly(
                        report@,
                        swept_report(
                            face_bridge(old(self)@.fs),
                            face_graph(old(self).fs@),
                            old(self)@.vs.dom(),
                            fans_view(fans@),
                        ),
                    )
                },
                Err(e) => {
                    &&& strict_fault(
                        face_graph(old(self).fs@),
                        old(self)@.vs.dom(),
                        fans_view(fans@),
                        e,
                    )
                    &&& final(self)@ == old(self)@
                },
            },
    {
        let ids = key_list(&self.vs);
        let graph = link_faces(&self.fs);
        let ghost before = self@;
        let ghost g = graph_view(graph@);
        proof {
            assert(ids@.to_set() =~= before.vs.dom());
        }
        match find_fault(&graph, &self.vs, &ids, fans) {
            Err(e) => {
                return Err(e);
            },
            Ok(()) => {},
        }
        proof {
            assert forall|k: Vid|
                ids@.contains(k) && #[trigger] neighbors_of(g, k).len() >= 2 implies fans@.contains_key(
                k,
            ) by {
                assert(!fault(g, before.vs.dom(), fans_view(fans@), TopoError::MissingBearings(k)));
            }
        }
        match find_left_out(&graph, &ids, fans) {
            Some(d) => {
                return Err(TopoError::Rejected(d));
            },
            None => {},
        }
        self.build_topo(fans)
    }

    /// The adjacency graph that the triangle list implies: each corner of a
    /// triangle next to the other two, every list ascending without
    /// repetition.
    pub fn face_graph(&self) -> (graph: HashMap<Vid, Vec<Vid>>)
        ensures
            graph_view(graph@) == face_graph(self.fs@),
    {
        link_faces(&self.fs)
    }

    /// Rebuilds graph, rings, border and constraints from the triangle list.
    ///
    /// `fans` holds the measured angles for the graph that `face_graph`
    /// returns: for every vertex with two or more neighbours one spoke for
    /// each entry of its neighbour list there, in the order of the list.
    /// Two consecutive neighbours count as joined where the list holds the
    /// triangle that they form with the vertex. Where a corner is no vertex
    /// or a fan is missing, nothing is changed and the fault is returned.
    pub fn build_topo(&mut self, fans: &HashMap<Vid, Fan>) -> (res: Result<
        Vec<Diagnostic>,
        TopoError,
    >)
        ensures
            res is Ok <==> sound(face_graph(old(self).fs@), old(self)@.vs.dom(), fans_view(fans@)),
            final(self).fs@ == old(self).fs@,
            match res {
                Ok(report) => {
                    &&& final(self)@ == rebuilt_from_faces(old(self)@, old(self).fs@, fans_view(fans@))
                    &&& reports_exactly(
                        report@,
                        swept_report(
                            face_bridge(old(self)@.fs),
                            face_graph(old(self).fs@),
                            old(self)@.vs.dom(),
                            fans_view(fans@),
                        ),
                    )
                },
                Err(e) => {
                    &&& fault(face_graph(old(self).fs@), old(self)@.vs.dom(), fans_view(fans@), e)
                    &&& final(self)@ == old(self)@
                },
            },
    {
        let ids = key_list(&self.vs);
        let graph = link_faces(&self.fs);
        let ghost before = self@;
        let ghost g = graph_view(graph@);
        proof {
            assert(ids@.to_set() =~= before.vs.dom());
        }
        match find_fault(&graph, &self.vs, &ids, fans) {
            Err(e) => {
                return Err(e);
            },
            Ok(()) => {},
        }
        proof {
            assert forall|k: Vid|
                ids@.contains(k) && #[trigger] neighbors_of(g, k).len()
                    >= 2 implies fan_fits(
                fans_view(fans@),
                k,
                neighbors_of(g, k),
            ) by {
                assert(!fault(g, before.vs.dom(), fans_view(fans@), TopoError::MissingBearings(k)));
            }
        }
        let how = Continuity::Faces(&self.fs);
        let swept = sweep_all(&graph, &ids, fans, &how, false);
        let dcs = default_constraints(&self.fs);
        self.dcs = dcs;
        self.neigh = swept.rings;
        self.border = swept.border;
        Ok(swept.report)
    }

    /// Appends each of the two vertices to the neighbour list of the other.
    /// Nothing is sorted and nothing is looked up: `squash_neigh` tidies the
    /// lists once all edges are in.
    pub fn add_neigh_raw(&mut self, ids: [Vid; 2])
        ensures
            final(self)@ == (Model {
                neigh: with_link(old(self)@.neigh, pair(ids).0, pair(ids).1),
                ..old(self)@
            }),
            final(self).fs@ == old(self).fs@,
    {
        add_arc(&mut self.neigh, ids[0], ids[1]);
        add_arc(&mut self.neigh, ids[1], ids[0]);
    }

    /// Sorts every neighbour list and frees it of repetitions.
    pub fn squash_neigh(&mut self)
        ensures
            final(self)@ == (Model { neigh: squashed_graph(old(self)@.neigh), ..old(self)@ }),
            final(self).fs@ == old(self).fs@,
    {
        squash_graph(&mut self.neigh);
    }

    /// Hands out an identifier that no earlier call on this model handed out.
    pub fn alloc_id(&mut self) -> (id: Vid)
        requires
            old(self).id_alloc < u64::MAX,
        ensures
            id == old(self).id_alloc,
            final(self)@ == (Model { id_alloc: (id + 1) as Vid, ..old(self)@ }),
            final(self).fs@ == old(self).fs@,
    {
        self.id_alloc += 1;
        self.id_alloc - 1
    }

    /// Adds a vertex under a fresh identifier and returns the identifier.
    pub fn add_vertex(&mut self, v: RawVertex) -> (id: Vid)
        requires
            old(self).id_alloc < u64::MAX,
        ensures
            id == old(self).id_alloc,
            final(self)@ == (Model {
                id_alloc: (id + 1) as Vid,
                vs: old(self)@.vs.insert(id, v),
                ..old(self)@
            }),
            final(self).fs@ == old(self).fs@,
    {
        broadcast use vstd::std_specs::hash::group_hash_axioms;

        let id = self.alloc_id();
        self.vs.insert(id, v);
        id
    }

    /// Appends the triangle with the corners `a`, `b` and `c`, in canonical
    /// form, to the triangle list.
    pub fn add_face(&mut self, a: Vid, b: Vid, c: Vid)
        ensures
            final(self)@ == (Model {
                fs: old(self)@.fs.insert(canonical_face(a, b, c)),
                ..old(self)@
            }),
            final(self).fs@.len() == old(self).fs@.len() + 1,
            final(self).fs@.drop_last() == old(self).fs@,
            triple(final(self).fs@.last()) == canonical_face(a, b, c),
    {
        let f = sort_face(a, b, c);
        self.fs.push(f);
        proof {
            assert(self.fs@.drop_last() =~= old(self).fs@);
            lemma_face_set_push(old(self).fs@, f);
        }
    }

    /// Links the four corners of a grid cell: its sides and the diagonal
    /// from the first corner to the last. The corners are given row by row.
    pub fn add_cell(&mut self, corners: [Vid; 4])
        ensures
            final(self)@ == (Model { neigh: with_cell(old(self)@.neigh, corners), ..old(self)@ }),
            final(self).fs@ == old(self).fs@,
    {
        self.add_neigh_raw([corners[0], corners[1]]);
        self.add_neigh_raw([corners[0], corners[2]]);
        self.add_neigh_raw([corners[0], corners[3]]);
        self.add_neigh_raw([corners[1], corners[3]]);
        self.add_neigh_raw([corners[2], corners[3]]);
    }

    /// Marks the model as static.
    pub fn set_static(&mut self)
        ensures
            final(self)@ == (Model { is_static: true, ..old(self)@ }),
            final(self).fs@ == old(self).fs@,
    {
        self.is_static = true;
    }
}

} // verus!
