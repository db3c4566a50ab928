//! The sweep over all vertices of a model, and what it leaves behind.
use vstd::prelude::*;
use std::collections::HashMap;
use std::collections::HashSet;
use crate::classify::{lemma_small_rings, Verdict, VertexClass};
use crate::edge::{holds_id, Vid};
use crate::graph::{graph_view, neighbors_of};
use crate::rawmodel::RawVertex;
use crate::report::{Diagnostic, StructuralError, TopoError};
use crate::ring::{lemma_ring_order, targets};
use crate::sweep::{
    fan_proposes, fan_ring, fan_verdict, fans_view, invalid_verdict, propose, settle, tidy_faces,
    Continuity, Fan, FanView,
};
use crate::edge::face_set;

verus! {

/// Whether the fans hold, for vertex `k`, one spoke for each entry of the
/// neighbour list `n`, in the order of that list.
pub open spec fn fan_fits(fans: Map<Vid, FanView>, k: Vid, n: Seq<Vid>) -> bool {
    fans.contains_key(k) && targets(fans[k].spokes) == n
}

/// Whether `e` is true of the graph `g`, the vertex set `vs` and the fans.
pub open spec fn fault(g: Map<Vid, Seq<Vid>>, vs: Set<Vid>, fans: Map<Vid, FanView>, e: TopoError) -> bool {
    match e {
        TopoError::UnknownVertex { vertex, neighbor } => vs.contains(vertex) && neighbors_of(
            g,
            vertex,
        ).contains(neighbor) && !vs.contains(neighbor),
        TopoError::MissingBearings(k) => vs.contains(k) && neighbors_of(g, k).len() >= 2
            && !fan_fits(fans, k, neighbors_of(g, k)),
        TopoError::Rejected(_) => false,
    }
}

/// Whether the sweep leaves vertex `k` out: it lists itself, has fewer than
/// two neighbours, or the direction to one of them is undefined.
pub open spec fn left_out(fans: Map<Vid, FanView>, k: Vid, n: Seq<Vid>) -> bool {
    n.contains(k) || n.len() <= 1 || fans[k].undefined
}

/// Whether `e` is true of the input of a strict rebuild, which also stops at
/// a vertex that the sweep would leave out.
pub open spec fn strict_fault(
    g: Map<Vid, Seq<Vid>>,
    vs: Set<Vid>,
    fans: Map<Vid, FanView>,
    e: TopoError,
) -> bool {
    match e {
        TopoError::Rejected(d) => vs.contains(subject(d)) && left_out(
            fans,
            subject(d),
            neighbors_of(g, subject(d)),
        ) && d == if neighbors_of(g, subject(d)).contains(subject(d)) {
            StructuralError::SelfAdjacency(subject(d))
        } else {
            StructuralError::DegenerateVertex(subject(d))
        },
        _ => fault(g, vs, fans, e),
    }
}

/// Whether a strict rebuild can work on the graph: it is sound, and the
/// sweep leaves no vertex out.
pub open spec fn strictly_sound(g: Map<Vid, Seq<Vid>>, vs: Set<Vid>, fans: Map<Vid, FanView>) -> bool {
    sound(g, vs, fans) && forall|k: Vid|
        vs.contains(k) ==> !#[trigger] left_out(fans, k, neighbors_of(g, k))
}

/// The vertex at which a fault was found.
pub open spec fn culprit(e: TopoError) -> Vid {
    match e {
        TopoError::UnknownVertex { vertex, .. } => vertex,
        TopoError::MissingBearings(k) => k,
        TopoError::Rejected(d) => subject(d),
    }
}

/// Whether no fault is found at vertex `k`.
pub open spec fn faultless(g: Map<Vid, Seq<Vid>>, vs: Set<Vid>, fans: Map<Vid, FanView>, k: Vid) -> bool {
    forall|e: TopoError| #[trigger] fault(g, vs, fans, e) ==> culprit(e) != k
}

/// Whether a rebuild can work on the graph: every neighbour of a vertex is a
/// vertex, and every vertex with two or more neighbours has its fan.
pub open spec fn sound(g: Map<Vid, Seq<Vid>>, vs: Set<Vid>, fans: Map<Vid, FanView>) -> bool {
    forall|e: TopoError| !fault(g, vs, fans, e)
}

/// The verdict on vertex `k` with neighbour list `n`.
pub open spec fn vertex_verdict(
    bridge: spec_fn(Vid, Vid, Vid) -> bool,
    fans: Map<Vid, FanView>,
    k: Vid,
    n: Seq<Vid>,
) -> Verdict {
    if n.len() >= 2 {
        fan_verdict(bridge, k, fans[k])
    } else {
        invalid_verdict()
    }
}

/// The neighbour list that vertex `k` is left with.
pub open spec fn vertex_ring(
    bridge: spec_fn(Vid, Vid, Vid) -> bool,
    fans: Map<Vid, FanView>,
    k: Vid,
    n: Seq<Vid>,
) -> Seq<Vid> {
    if n.len() >= 2 {
        fan_ring(bridge, k, fans[k])
    } else {
        n
    }
}

/// Whether the sweep around `k` proposes the triangle `f`.
pub open spec fn vertex_proposes(
    bridge: spec_fn(Vid, Vid, Vid) -> bool,
    fans: Map<Vid, FanView>,
    k: Vid,
    n: Seq<Vid>,
    f: (Vid, Vid, Vid),
) -> bool {
    n.len() >= 2 && fan_proposes(bridge, k, fans[k], f)
}

/// The vertex that a report is about.
pub open spec fn subject(d: StructuralError) -> Vid {
    match d {
        StructuralError::DegenerateVertex(k) => k,
        StructuralError::MultipleGaps(k) => k,
        StructuralError::SelfAdjacency(k) => k,
    }
}

/// Whether the sweep around `k` reports `d`: a vertex that lists itself is
/// reported as such, one with fewer than two neighbours or with an undefined
/// direction as degenerate, and one whose ring has several gaps for those.
pub open spec fn vertex_reports(
    bridge: spec_fn(Vid, Vid, Vid) -> bool,
    fans: Map<Vid, FanView>,
    k: Vid,
    n: Seq<Vid>,
    d: StructuralError,
) -> bool {
    if n.contains(k) {
        d == StructuralError::SelfAdjacency(k)
    } else if n.len() <= 1 || fans[k].undefined {
        d == StructuralError::DegenerateVertex(k)
    } else {
        vertex_verdict(bridge, fans, k, n).multiple_gaps && d == StructuralError::MultipleGaps(k)
    }
}

/// The graph after the sweep over the vertices `vs`.
pub open spec fn swept_graph(
    bridge: spec_fn(Vid, Vid, Vid) -> bool,
    g: Map<Vid, Seq<Vid>>,
    vs: Set<Vid>,
    fans: Map<Vid, FanView>,
) -> Map<Vid, Seq<Vid>> {
    Map::new(
        |k: Vid| g.contains_key(k),
        |k: Vid|
            if vs.contains(k) {
                vertex_ring(bridge, fans, k, g[k])
            } else {
                g[k]
            },
    )
}

/// The vertices of `vs` that the sweep finds on the border.
pub open spec fn swept_border(
    bridge: spec_fn(Vid, Vid, Vid) -> bool,
    g: Map<Vid, Seq<Vid>>,
    vs: Set<Vid>,
    fans: Map<Vid, FanView>,
) -> Set<Vid> {
    Set::new(
        |k: Vid|
            vs.contains(k) && vertex_verdict(bridge, fans, k, neighbors_of(g, k)).class
                == VertexClass::Border,
    )
}

/// The triangles that the sweep over the vertices `vs` proposes.
pub open spec fn swept_faces(
    bridge: spec_fn(Vid, Vid, Vid) -> bool,
    g: Map<Vid, Seq<Vid>>,
    vs: Set<Vid>,
    fans: Map<Vid, FanView>,
) -> Set<(Vid, Vid, Vid)> {
    Set::new(
        |f: (Vid, Vid, Vid)|
            exists|k: Vid|
                vs.contains(k) && #[trigger] vertex_proposes(bridge, fans, k, neighbors_of(g, k), f),
    )
}

/// What the sweep over the vertices `vs` reports.
pub open spec fn swept_report(
    bridge: spec_fn(Vid, Vid, Vid) -> bool,
    g: Map<Vid, Seq<Vid>>,
    vs: Set<Vid>,
    fans: Map<Vid, FanView>,
) -> Set<StructuralError> {
    Set::new(
        |d: StructuralError|
            vs.contains(subject(d)) && vertex_reports(
                bridge,
                fans,
                subject(d),
                neighbors_of(g, subject(d)),
                d,
            ),
    )
}

/// The identifiers at the first `i` places of `ids`.
pub open spec fn first_ids(ids: Seq<Vid>, i: int) -> Set<Vid> {
    Set::new(|k: Vid| exists|j: int| 0 <= j < i && ids[j] == k)
}

/// One more place adds one identifier, which is new where the list has no
/// repetition.
pub proof fn lemma_first_ids(ids: Seq<Vid>, i: int)
    requires
        0 <= i < ids.len(),
        ids.no_duplicates(),
    ensures
        first_ids(ids, i + 1) == first_ids(ids, i).insert(ids[i]),
        !first_ids(ids, i).contains(ids[i]),
        first_ids(ids, 0) == Set::<Vid>::empty(),
{
    assert(first_ids(ids, i + 1) =~= first_ids(ids, i).insert(ids[i]));
    assert(first_ids(ids, 0) =~= Set::<Vid>::empty());
}

/// All places together hold the identifiers of the list; no place holds none.
pub proof fn lemma_first_ids_all(ids: Seq<Vid>)
    ensures
        first_ids(ids, ids.len() as int) == ids.to_set(),
        first_ids(ids, 0) == Set::<Vid>::empty(),
{
    assert(first_ids(ids, ids.len() as int) =~= ids.to_set());
    assert(first_ids(ids, 0) =~= Set::<Vid>::empty());
}

/// Whether the spokes of `fan` name the entries of `list` in their order.
pub fn fan_names(fan: &Fan, list: &Vec<Vid>) -> (fits: bool)
    ensures
        fits == (targets(fan.spokes@) == list@),
{
    if fan.spokes.len() != list.len() {
        return false;
    }
    let mut i: usize = 0;
    while i < list.len()
        invariant
            i <= list.len(),
            fan.spokes.len() == list.len(),
            forall|j: int| 0 <= j < i ==> fan.spokes@[j].to == list@[j],
        decreases list.len() - i,
    {
        if fan.spokes[i].to != list[i] {
            assert(targets(fan.spokes@)[i as int] != list@[i as int]);
            return false;
        }
        i += 1;
    }
    assert(targets(fan.spokes@) =~= list@);
    true
}

fn fault_at(
    graph: &HashMap<Vid, Vec<Vid>>,
    vs: &HashMap<Vid, RawVertex>,
    fans: &HashMap<Vid, Fan>,
    k: Vid,
) -> (res: Result<(), TopoError>)
    requires
        vs@.contains_key(k),
    ensures
        res matches Err(e) ==> fault(graph_view(graph@), vs@.dom(), fans_view(fans@), e),
        res is Ok ==> faultless(graph_view(graph@), vs@.dom(), fans_view(fans@), k),
{
    broadcast use vstd::std_specs::hash::group_hash_axioms;

    let ghost g = graph_view(graph@);
    match graph.get(&k) {
        None => Ok(()),
        Some(list) => {
            assert(neighbors_of(g, k) == list@);
            let mut i: usize = 0;
            while i < list.len()
                invariant
                    i <= list.len(),
                    vs@.contains_key(k),
                    neighbors_of(graph_view(graph@), k) == list@,
                    forall|j: int| 0 <= j < i ==> vs@.contains_key(list@[j]),
                decreases list.len() - i,
            {
                if !vs.contains_key(&list[i]) {
                    assert(list@.contains(list@[i as int]));
                    return Err(TopoError::UnknownVertex { vertex: k, neighbor: list[i] });
                }
                i += 1;
            }
            if list.len() >= 2 {
                match fans.get(&k) {
                    None => Err(TopoError::MissingBearings(k)),
                    Some(fan) => {
                        if fan_names(fan, list) {
                            Ok(())
                        } else {
                            Err(TopoError::MissingBearings(k))
                        }
                    },
                }
            } else {
                Ok(())
            }
        },
    }
}

/// Looks for what would stop a rebuild.
///
/// `ids` lists the vertices of `vs`. The fault returned is true of the
/// input; with several faults it may be any of them.
pub fn find_fault(
    graph: &HashMap<Vid, Vec<Vid>>,
    vs: &HashMap<Vid, RawVertex>,
    ids: &Vec<Vid>,
    fans: &HashMap<Vid, Fan>,
) -> (res: Result<(), TopoError>)
    requires
        forall|k: Vid| ids@.contains(k) <==> vs@.contains_key(k),
    ensures
        res matches Err(e) ==> fault(graph_view(graph@), vs@.dom(), fans_view(fans@), e),
        res is Ok <==> sound(graph_view(graph@), vs@.dom(), fans_view(fans@)),
{
    let ghost g = graph_view(graph@);
    let mut i: usize = 0;
    while i < ids.len()
        invariant
            i <= ids.len(),
            g == graph_view(graph@),
            forall|k: Vid| ids@.contains(k) <==> vs@.contains_key(k),
            forall|j: int| 0 <= j < i ==> faultless(g, vs@.dom(), fans_view(fans@), #[trigger] ids@[j]),
        decreases ids.len() - i,
    {
        assert(ids@.contains(ids@[i as int]));
        match fault_at(graph, vs, fans, ids[i]) {
            Err(e) => {
                return Err(e);
            },
            Ok(()) => {},
        }
        i += 1;
    }
    proof {
        assert forall|e: TopoError| !fault(g, vs@.dom(), fans_view(fans@), e) by {
            if fault(g, vs@.dom(), fans_view(fans@), e) {
                let k = culprit(e);
                assert(ids@.contains(k));
                let j = ids@.index_of(k);
                assert(faultless(g, vs@.dom(), fans_view(fans@), ids@[j]));
            }
        }
    }
    Ok(())
}

/// Looks for a vertex that the sweep would leave out.
///
/// `ids` lists the vertices to look at. The report returned is true of one of
/// them; with several such vertices it may be about any of them.
pub fn find_left_out(
    graph: &HashMap<Vid, Vec<Vid>>,
    ids: &Vec<Vid>,
    fans: &HashMap<Vid, Fan>,
) -> (found: Option<StructuralError>)
    requires
        forall|k: Vid|
            ids@.contains(k) && #[trigger] neighbors_of(graph_view(graph@), k).len() >= 2
                ==> fans@.contains_key(k),
    ensures
        found matches Some(d) ==> strict_fault(
            graph_view(graph@),
            ids@.to_set(),
            fans_view(fans@),
            TopoError::Rejected(d),
        ),
        found is None ==> forall|k: Vid|
            ids@.contains(k) ==> !#[trigger] left_out(
                fans_view(fans@),
                k,
                neighbors_of(graph_view(graph@), k),
            ),
{
    broadcast use vstd::std_specs::hash::group_hash_axioms;

    let ghost g = graph_view(graph@);
    let mut i: usize = 0;
    while i < ids.len()
        invariant
            i <= ids.len(),
            g == graph_view(graph@),
            forall|k: Vid|
                ids@.contains(k) && #[trigger] neighbors_of(g, k).len() >= 2
                    ==> fans@.contains_key(k),
            forall|j: int|
                0 <= j < i ==> !#[trigger] left_out(
                    fans_view(fans@),
                    ids@[j],
                    neighbors_of(g, ids@[j]),
                ),
        decreases ids.len() - i,
    {
        let k = ids[i];
        assert(ids@.contains(k));
        match graph.get(&k) {
            None => {
                assert(!neighbors_of(g, k).contains(k));
                return Some(StructuralError::DegenerateVertex(k));
            },
            Some(list) => {
                assert(neighbors_of(g, k) == list@);
                if holds_id(list, k) {
                    return Some(StructuralError::SelfAdjacency(k));
                }
                if list.len() < 2 {
                    return Some(StructuralError::DegenerateVertex(k));
                }
                match fans.get(&k) {
                    Some(fan) => {
                        assert(fan@ == fans_view(fans@)[k]);
                        if fan.undefined {
                            return Some(StructuralError::DegenerateVertex(k));
                        }
                    },
                    None => {
                        assert(false);
                    },
                }
            },
        }
        i += 1;
    }
    proof {
        assert forall|k: Vid| ids@.contains(k) implies !#[trigger] left_out(
            fans_view(fans@),
            k,
            neighbors_of(g, k),
        ) by {
            let j = ids@.index_of(k);
            assert(ids@[j] == k);
        }
    }
    None
}

/// What the sweep over a set of vertices leaves behind.
pub struct Swept {
    /// The graph with the ring of every swept vertex in place.
    pub rings: HashMap<Vid, Vec<Vid>>,
    /// The swept vertices that are on the border.
    pub border: HashSet<Vid>,
    /// The triangles proposed, where they were asked for.
    pub faces: Vec<[Vid; 3]>,
    /// One report for each swept vertex that has something to report.
    pub report: Vec<Diagnostic>,
}

/// Whether the list holds exactly the reports of `expected`, each once and
/// as a report about a vertex.
pub open spec fn reports_exactly(report: Seq<Diagnostic>, expected: Set<StructuralError>) -> bool {
    &&& report.no_duplicates()
    &&& forall|i: int| 0 <= i < report.len() ==> #[trigger] report[i] is Vertex
    &&& forall|d: StructuralError|
        #![trigger expected.contains(d)]
        report.contains(Diagnostic::Vertex(d)) <==> expected.contains(d)
}

/// Sweeps around every vertex of `ids`.
///
/// With `collect` the triangles that the sweeps propose are gathered;
/// without it the list of triangles stays empty.
pub fn sweep_all(
    graph: &HashMap<Vid, Vec<Vid>>,
    ids: &Vec<Vid>,
    fans: &HashMap<Vid, Fan>,
    how: &Continuity,
    collect: bool,
) -> (out: Swept)
    requires
        ids@.no_duplicates(),
        forall|k: Vid|
            ids@.contains(k) && #[trigger] neighbors_of(graph_view(graph@), k).len() >= 2
                ==> fan_fits(fans_view(fans@), k, neighbors_of(graph_view(graph@), k)),
    ensures
        graph_view(out.rings@) == swept_graph(
            how.bridge(),
            graph_view(graph@),
            ids@.to_set(),
            fans_view(fans@),
        ),
        out.border@ == swept_border(how.bridge(), graph_view(graph@), ids@.to_set(), fans_view(fans@)),
        tidy_faces(out.faces@),
        collect ==> face_set(out.faces@) == swept_faces(
            how.bridge(),
            graph_view(graph@),
            ids@.to_set(),
            fans_view(fans@),
        ),
        !collect ==> out.faces@.len() == 0,
        reports_exactly(
            out.report@,
            swept_report(how.bridge(), graph_view(graph@), ids@.to_set(), fans_view(fans@)),
        ),
{
    broadcast use vstd::std_specs::hash::group_hash_axioms;

    let ghost g = graph_view(graph@);
    let ghost bridge = how.bridge();
    let mut rings: HashMap<Vid, Vec<Vid>> = graph.clone();
    let mut border: HashSet<Vid> = HashSet::new();
    let mut faces: Vec<[Vid; 3]> = Vec::new();
    let mut report: Vec<Diagnostic> = Vec::new();
    proof {
        lemma_first_ids_all(ids@);
        assert(graph_view(rings@) =~= swept_graph(bridge, g, first_ids(ids@, 0), fans_view(fans@)));
        assert(border@ =~= swept_border(bridge, g, first_ids(ids@, 0), fans_view(fans@)));
        assert(face_set(faces@) =~= swept_faces(bridge, g, first_ids(ids@, 0), fans_view(fans@)));
    }
    let mut i: usize = 0;
    while i < ids.len()
        invariant
            i <= ids.len(),
            ids@.no_duplicates(),
            g == graph_view(graph@),
            bridge == how.bridge(),
            forall|k: Vid|
                ids@.contains(k) && #[trigger] neighbors_of(g, k).len() >= 2 ==> fan_fits(
                    fans_view(fans@),
                    k,
                    neighbors_of(g, k),
                ),
            graph_view(rings@) == swept_graph(bridge, g, first_ids(ids@, i as int), fans_view(fans@)),
            border@ == swept_border(bridge, g, first_ids(ids@, i as int), fans_view(fans@)),
            tidy_faces(faces@),
            collect ==> face_set(faces@) == swept_faces(bridge, g, first_ids(ids@, i as int), fans_view(fans@)),
            !collect ==> faces@.len() == 0,
            reports_exactly(report@, swept_report(bridge, g, first_ids(ids@, i as int), fans_view(fans@))),
        decreases ids.len() - i,
    {
        let k = ids[i];
        let ghost done = first_ids(ids@, i as int);
        let ghost next = first_ids(ids@, i + 1);
        let ghost n = neighbors_of(g, k);
        let ghost rings_before = graph_view(rings@);
        let ghost border_before = border@;
        let ghost faces_before = faces@;
        let ghost report_before = report@;
        proof {
            lemma_first_ids(ids@, i as int);
            assert(ids@.contains(k));
        }
        let mut said: Option<StructuralError> = None;
        match graph.get(&k) {
            None => {
                said = Some(StructuralError::DegenerateVertex(k));
                assert(!n.contains(k));
            },
            Some(list) => {
                assert(n == list@);
                if list.len() < 2 {
                    if holds_id(list, k) {
                        said = Some(StructuralError::SelfAdjacency(k));
                    } else {
                        said = Some(StructuralError::DegenerateVertex(k));
                    }
                } else {
                    match fans.get(&k) {
                        None => {
                            assert(false);
                        },
                        Some(fan) => {
                            assert(fan@ == fans_view(fans@)[k]);
                            let settled = settle(k, fan, how);
                            proof {
                                lemma_ring_order(fan.spokes@);
                                lemma_small_rings(settled.bridged@, fan.positive);
                            }
                            match settled.verdict.class {
                                VertexClass::Invalid => {
                                    if holds_id(list, k) {
                                        said = Some(StructuralError::SelfAdjacency(k));
                                    } else {
                                        said = Some(StructuralError::DegenerateVertex(k));
                                    }
                                },
                                VertexClass::Border => {
                                    border.insert(k);
                                    if settled.verdict.multiple_gaps {
                                        said = Some(StructuralError::MultipleGaps(k));
                                    }
                                },
                                VertexClass::Interior => {},
                            }
                            if collect {
                                match settled.verdict.class {
                                    VertexClass::Invalid => {},
                                    _ => {
                                        propose(k, &settled.sorted, &settled.bridged, &mut faces);
                                    },
                                }
                            }
                            rings.insert(k, settled.ring);
                        },
                    }
                }
            },
        }
        match said {
            Some(d) => {
                report.push(Diagnostic::Vertex(d));
            },
            None => {},
        }
        proof {
            let now = graph_view(rings@);
            let goal = swept_graph(bridge, g, next, fans_view(fans@));
            assert(now.dom() =~= goal.dom());
            assert forall|w: Vid| now.contains_key(w) implies now[w] == goal[w] by {
                if w == k {
                    assert(next.contains(k));
                    assert(!done.contains(k));
                    assert(rings_before[k] == g[k]);
                } else {
                    assert(next.contains(w) == done.contains(w));
                    assert(now[w] == rings_before[w]);
                }
            }
            assert(now =~= goal);
            assert(border@ =~= swept_border(bridge, g, next, fans_view(fans@)));
            if collect {
                assert forall|f: (Vid, Vid, Vid)|
                    face_set(faces@).contains(f) <==> swept_faces(bridge, g, next, fans_view(fans@)).contains(
                        f,
                    ) by {
                    if swept_faces(bridge, g, next, fans_view(fans@)).contains(f) {
                        let w = choose|w: Vid|
                            next.contains(w) && #[trigger] vertex_proposes(
                                bridge,
                                fans_view(fans@),
                                w,
                                neighbors_of(g, w),
                                f,
                            );
                        if w != k {
                            assert(done.contains(w));
                            assert(swept_faces(bridge, g, done, fans_view(fans@)).contains(f));
                        }
                    }
                    if swept_faces(bridge, g, done, fans_view(fans@)).contains(f) {
                        let w = choose|w: Vid|
                            done.contains(w) && #[trigger] vertex_proposes(
                                bridge,
                                fans_view(fans@),
                                w,
                                neighbors_of(g, w),
                                f,
                            );
                        assert(next.contains(w));
                    }
                    if vertex_proposes(bridge, fans_view(fans@), k, n, f) {
                        assert(next.contains(k));
                    }
                }
                assert(face_set(faces@) =~= swept_faces(bridge, g, next, fans_view(fans@)));
            }
            let expected = swept_report(bridge, g, next, fans_view(fans@));
            let earlier = swept_report(bridge, g, done, fans_view(fans@));
            assert forall|d: StructuralError|
                #![trigger expected.contains(d)]
                report@.contains(Diagnostic::Vertex(d)) <==> expected.contains(d) by {
                if report@.contains(Diagnostic::Vertex(d)) {
                    let j = report@.index_of(Diagnostic::Vertex(d));
                    if j < report_before.len() {
                        assert(report_before[j] == Diagnostic::Vertex(d));
                        assert(report_before.contains(Diagnostic::Vertex(d)));
                        assert(earlier.contains(d));
                    }
                }
                if earlier.contains(d) {
                    assert(report_before.contains(Diagnostic::Vertex(d)));
                    let j = report_before.index_of(Diagnostic::Vertex(d));
                    assert(report@[j] == Diagnostic::Vertex(d));
                }
                if said == Some(d) {
                    assert(report@[report@.len() - 1] == Diagnostic::Vertex(d));
                }
            }
            assert forall|j: int| 0 <= j < report@.len() implies #[trigger] report@[j] is Vertex by {
                if j < report_before.len() {
                    assert(report_before[j] is Vertex);
                }
            }
            assert forall|a: int, b: int|
                0 <= a < report@.len() && 0 <= b < report@.len() && a != b implies report@[a]
                != report@[b] by {
                let low = if a < b { a } else { b };
                let high = if a < b { b } else { a };
                assert(report_before[low] == report@[low]);
                if high < report_before.len() {
                    assert(report_before[high] == report@[high]);
                } else {
                    assert(report_before[low] is Vertex);
                    assert(report_before.contains(report_before[low]));
                    match report_before[low] {
                        Diagnostic::Vertex(d) => {
                            assert(earlier.contains(d));
                            assert(done.contains(subject(d)));
                        },
                        _ => {},
                    }
                }
            }
        }
        i += 1;
    }
    proof {
        lemma_first_ids_all(ids@);
    }
    Swept { rings, border, faces, report }
}

} // verus!
