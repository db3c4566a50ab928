//! Keeping the distance-constraint table in step with the adjacency graph.
use vstd::prelude::*;
use std::collections::HashMap;
use crate::constraints::{DistanceConstraints, DEFAULT_DISTANCE};
use crate::edge::{canonical_edge, pair, sort_edge, Vid};
use crate::graph::{
    drop_all, graph_view, is_linked, key_list, lemma_without, linked, neighbors_of, other_than,
    without_self_loops,
};
use crate::rawmodel::RawVertex;
use crate::report::{ConstraintError, Diagnostic, StructuralError};
use crate::rebuild::{first_ids, lemma_first_ids, lemma_first_ids_all};

verus! {

/// Whether an entry for `e` names a vertex that the graph has no entry for,
/// or joins a vertex to itself.
pub open spec fn dangling(g: Map<Vid, Seq<Vid>>, e: (Vid, Vid)) -> bool {
    !g.contains_key(e.0) || !g.contains_key(e.1) || e.0 == e.1
}

/// The table without its dangling entries.
pub open spec fn without_dangling(dcs: Map<(Vid, Vid), u32>, g: Map<Vid, Seq<Vid>>) -> Map<
    (Vid, Vid),
    u32,
> {
    Map::new(|e: (Vid, Vid)| dcs.contains_key(e) && !dangling(g, e), |e: (Vid, Vid)| dcs[e])
}

/// Whether `e` is the canonical form of an edge from the vertex `k` to one of
/// the entries of its neighbour list `n` other than `k` itself.
pub open spec fn edge_at(k: Vid, n: Seq<Vid>, e: (Vid, Vid)) -> bool {
    exists|i: int| 0 <= i < n.len() && n[i] != k && e == canonical_edge(k, #[trigger] n[i])
}

/// Whether `e` is the canonical form of an edge of the graph that leaves a
/// vertex of `vs` for another vertex.
pub open spec fn is_graph_edge(g: Map<Vid, Seq<Vid>>, vs: Set<Vid>, e: (Vid, Vid)) -> bool {
    exists|k: Vid| vs.contains(k) && #[trigger] edge_at(k, neighbors_of(g, k), e)
}

/// The table brought in step with the graph: it has an entry for every edge
/// of the graph and for nothing else; an edge keeps the distance that it
/// had and gets the default distance where it had none.
pub open spec fn reconciled(dcs: Map<(Vid, Vid), u32>, g: Map<Vid, Seq<Vid>>, vs: Set<Vid>) -> Map<
    (Vid, Vid),
    u32,
> {
    Map::new(
        |e: (Vid, Vid)| is_graph_edge(g, vs, e),
        |e: (Vid, Vid)|
            if dcs.contains_key(e) {
                dcs[e]
            } else {
                DEFAULT_DISTANCE
            },
    )
}

/// The entries that name a vertex without an entry in the graph or join a
/// vertex to itself.
pub open spec fn dangling_entries(dcs: Map<(Vid, Vid), u32>, g: Map<Vid, Seq<Vid>>) -> Set<
    (Vid, Vid),
> {
    Set::new(|e: (Vid, Vid)| dcs.contains_key(e) && dangling(g, e))
}

/// The entries that belong to no edge of the graph.
pub open spec fn stray_entries(
    dcs: Map<(Vid, Vid), u32>,
    g: Map<Vid, Seq<Vid>>,
    vs: Set<Vid>,
) -> Set<(Vid, Vid)> {
    Set::new(|e: (Vid, Vid)| dcs.contains_key(e) && !is_graph_edge(g, vs, e))
}

/// The table without the entries that belong to no edge of the graph.
pub open spec fn without_strays(
    dcs: Map<(Vid, Vid), u32>,
    g: Map<Vid, Seq<Vid>>,
    vs: Set<Vid>,
) -> Map<(Vid, Vid), u32> {
    Map::new(|e: (Vid, Vid)| dcs.contains_key(e) && is_graph_edge(g, vs, e), |e: (Vid, Vid)| dcs[e])
}

/// The edges from `k` to the entries of `n` that have no entry in the table.
pub open spec fn missing_at(dcs: Map<(Vid, Vid), u32>, k: Vid, n: Seq<Vid>) -> Set<(Vid, Vid)> {
    Set::new(|e: (Vid, Vid)| edge_at(k, n, e) && !dcs.contains_key(e))
}

/// The edges of the graph that have no entry in the table.
pub open spec fn missing_defaults(
    dcs: Map<(Vid, Vid), u32>,
    g: Map<Vid, Seq<Vid>>,
    vs: Set<Vid>,
) -> Set<(Vid, Vid)> {
    Set::new(|e: (Vid, Vid)| is_graph_edge(g, vs, e) && !dcs.contains_key(e))
}

/// Whether no two entries of the list from place `from` on are the same.
pub open spec fn distinct_from(report: Seq<Diagnostic>, from: int) -> bool {
    forall|i: int, j: int| from <= i < j < report.len() ==> report[i] != report[j]
}

/// A list without repetition stays without when entries are added behind it
/// that differ from each other and from those before them.
pub proof fn lemma_joined(report: Seq<Diagnostic>, n: int)
    requires
        0 <= n <= report.len(),
        report.subrange(0, n).no_duplicates(),
        distinct_from(report, n),
        forall|i: int, j: int|
            #![trigger report[i], report[j]]
            0 <= i < n <= j < report.len() ==> report[i] != report[j],
    ensures
        report.no_duplicates(),
{
    let head = report.subrange(0, n);
    assert forall|a: int, b: int|
        0 <= a < report.len() && 0 <= b < report.len() && a != b implies report[a]
        != report[b] by {
        let low = if a < b { a } else { b };
        let high = if a < b { b } else { a };
        if high < n {
            assert(head[low] == report[low] && head[high] == report[high]);
        } else if low < n {
            assert(report[low] != report[high]);
        } else {
            assert(report[low] != report[high]);
        }
    }
}

/// Whether the list is `before` followed by one report of a missing default
/// for each edge of `fresh`, and by nothing else.
pub open spec fn extended_by_defaults(
    report: Seq<Diagnostic>,
    before: Seq<Diagnostic>,
    fresh: Set<(Vid, Vid)>,
) -> bool {
    &&& before.len() <= report.len()
    &&& report.subrange(0, before.len() as int) == before
    &&& distinct_from(report, before.len() as int)
    &&& forall|i: int|
        before.len() <= i < report.len() ==> (#[trigger] report[i] matches Diagnostic::Constraint(
            ConstraintError::MissingDefault(a, b),
        ) && fresh.contains((a, b)))
    &&& forall|e: (Vid, Vid)|
        #![trigger fresh.contains(e)]
        fresh.contains(e) ==> exists|i: int|
            before.len() <= i < report.len() && report[i] == Diagnostic::Constraint(
                ConstraintError::MissingDefault(e.0, e.1),
            )
}

/// Whether `e` is the canonical form of an edge of the graph that leaves a
/// vertex of `vs` for another vertex.
pub fn edge_in_graph(
    graph: &HashMap<Vid, Vec<Vid>>,
    vs: &HashMap<Vid, RawVertex>,
    e: &[Vid; 2],
) -> (found: bool)
    ensures
        found == is_graph_edge(graph_view(graph@), vs@.dom(), pair(*e)),
{
    broadcast use vstd::std_specs::hash::group_hash_axioms;

    let a = e[0];
    let b = e[1];
    let ghost g = graph_view(graph@);
    let found = a < b && ((vs.contains_key(&a) && is_linked(graph, a, b)) || (vs.contains_key(&b)
        && is_linked(graph, b, a)));
    proof {
        if found {
            if vs@.contains_key(a) && linked(g, a, b) {
                let n = neighbors_of(g, a);
                let i = n.index_of(b);
                assert(n[i] != a && pair(*e) == canonical_edge(a, n[i]));
                assert(edge_at(a, n, pair(*e)));
            } else {
                let n = neighbors_of(g, b);
                let i = n.index_of(a);
                assert(n[i] != b && pair(*e) == canonical_edge(b, n[i]));
                assert(edge_at(b, n, pair(*e)));
            }
        }
        if is_graph_edge(g, vs@.dom(), pair(*e)) {
            let k = choose|k: Vid|
                vs@.dom().contains(k) && #[trigger] edge_at(k, neighbors_of(g, k), pair(*e));
            let n = neighbors_of(g, k);
            let i = choose|i: int|
                0 <= i < n.len() && n[i] != k && pair(*e) == canonical_edge(k, #[trigger] n[i]);
            assert(n.contains(n[i]));
        }
    }
    found
}

/// The pairs at the first `i` places of a list of edges.
pub open spec fn first_pairs(edges: Seq<[Vid; 2]>, i: int) -> Set<(Vid, Vid)> {
    Set::new(|e: (Vid, Vid)| exists|j: int| 0 <= j < i && pair(#[trigger] edges[j]) == e)
}

/// Whether no two edges of the list are the same pair.
pub open spec fn distinct_pairs(edges: Seq<[Vid; 2]>) -> bool {
    forall|i: int, j: int|
        0 <= i < j < edges.len() ==> pair(#[trigger] edges[i]) != pair(#[trigger] edges[j])
}

/// The report that the entry for `e` was removed.
pub open spec fn dangling_report(e: [Vid; 2]) -> Diagnostic {
    Diagnostic::Constraint(ConstraintError::DanglingEdge(e[0], e[1]))
}

/// One report of a removed entry for each edge of the list, in its order.
pub open spec fn removal_reports(bad: Seq<[Vid; 2]>) -> Seq<Diagnostic> {
    Seq::new(bad.len(), |j: int| dangling_report(bad[j]))
}

/// Whether the list is `before` followed by one report of a removed entry
/// for each edge of `removed`, and by nothing else.
pub open spec fn extended_by_removals(
    report: Seq<Diagnostic>,
    before: Seq<Diagnostic>,
    removed: Set<(Vid, Vid)>,
) -> bool {
    &&& before.len() <= report.len()
    &&& report.subrange(0, before.len() as int) == before
    &&& distinct_from(report, before.len() as int)
    &&& forall|i: int|
        before.len() <= i < report.len() ==> (#[trigger] report[i] matches Diagnostic::Constraint(
            ConstraintError::DanglingEdge(a, b),
        ) && removed.contains((a, b)))
    &&& forall|e: (Vid, Vid)|
        #![trigger removed.contains(e)]
        removed.contains(e) ==> exists|i: int|
            before.len() <= i < report.len() && report[i] == Diagnostic::Constraint(
                ConstraintError::DanglingEdge(e.0, e.1),
            )
}

/// Reports of the removal of different edges, added behind a list, extend
/// the list by one report for each of the edges.
pub proof fn lemma_removals(
    report: Seq<Diagnostic>,
    said: Seq<Diagnostic>,
    bad: Seq<[Vid; 2]>,
    removed: Set<(Vid, Vid)>,
)
    requires
        report == said + removal_reports(bad),
        distinct_pairs(bad),
        forall|e: (Vid, Vid)| first_pairs(bad, bad.len() as int).contains(e) <==> removed.contains(e),
    ensures
        extended_by_removals(report, said, removed),
{
    let all = first_pairs(bad, bad.len() as int);
    assert(report.subrange(0, said.len() as int) =~= said);
    assert forall|p: int| said.len() <= p < report.len() implies (
    #[trigger] report[p] matches Diagnostic::Constraint(ConstraintError::DanglingEdge(a, b))
        && removed.contains((a, b))) by {
        let j = p - said.len();
        assert(report[p] == dangling_report(bad[j]));
        assert(all.contains(pair(bad[j])));
    }
    assert forall|p: int, q: int| said.len() <= p < q < report.len() implies report[p]
        != report[q] by {
        let a = p - said.len();
        let b = q - said.len();
        assert(report[p] == dangling_report(bad[a]));
        assert(report[q] == dangling_report(bad[b]));
        assert(pair(bad[a]) != pair(bad[b]));
    }
    assert forall|e: (Vid, Vid)| #![trigger removed.contains(e)] removed.contains(e) implies exists|
        p: int,
    |
        said.len() <= p < report.len() && report[p] == Diagnostic::Constraint(
            ConstraintError::DanglingEdge(e.0, e.1),
        ) by {
        assert(all.contains(e));
        let j = choose|j: int| 0 <= j < bad.len() && pair(#[trigger] bad[j]) == e;
        assert(report[said.len() + j] == dangling_report(bad[j]));
    }
}

/// The marked edges of a list, in their order.
pub fn pick_edges(edges: &Vec<[Vid; 2]>, marks: &Vec<bool>) -> (bad: Vec<[Vid; 2]>)
    requires
        edges.len() == marks.len(),
        distinct_pairs(edges@),
    ensures
        distinct_pairs(bad@),
        forall|e: (Vid, Vid)|
            first_pairs(bad@, bad@.len() as int).contains(e) <==> exists|j: int|
                0 <= j < edges@.len() && marks@[j] && pair(#[trigger] edges@[j]) == e,
{
    let mut bad: Vec<[Vid; 2]> = Vec::new();
    let ghost mut places: Seq<int> = Seq::empty();
    let mut i: usize = 0;
    while i < edges.len()
        invariant
            i <= edges.len(),
            edges.len() == marks.len(),
            places.len() == bad@.len(),
            forall|p: int|
                0 <= p < places.len() ==> 0 <= #[trigger] places[p] < i && marks@[places[p]]
                    && bad@[p] == edges@[places[p]],
            forall|p: int, q: int| 0 <= p < q < places.len() ==> places[p] < places[q],
            forall|j: int|
                0 <= j < i && #[trigger] marks@[j] ==> exists|p: int|
                    0 <= p < places.len() && #[trigger] places[p] == j,
        decreases edges.len() - i,
    {
        if marks[i] {
            let ghost had = places;
            bad.push(edges[i]);
            proof {
                places = places.push(i as int);
                assert forall|j: int| 0 <= j < i + 1 && #[trigger] marks@[j] implies exists|p: int|
                    0 <= p < places.len() && #[trigger] places[p] == j by {
                    if j < i {
                        let p = choose|p: int| 0 <= p < had.len() && #[trigger] had[p] == j;
                        assert(places[p] == j);
                    } else {
                        assert(places[places.len() - 1] == j);
                    }
                }
            }
        }
        i += 1;
    }
    proof {
        assert forall|p: int, q: int| 0 <= p < q < bad@.len() implies pair(#[trigger] bad@[p])
            != pair(#[trigger] bad@[q]) by {
            assert(places[p] < places[q]);
            assert(bad@[p] == edges@[places[p]] && bad@[q] == edges@[places[q]]);
        }
        assert forall|e: (Vid, Vid)|
            first_pairs(bad@, bad@.len() as int).contains(e) <==> exists|j: int|
                0 <= j < edges@.len() && marks@[j] && pair(#[trigger] edges@[j]) == e by {
            if first_pairs(bad@, bad@.len() as int).contains(e) {
                let p = choose|p: int| 0 <= p < bad@.len() && pair(#[trigger] bad@[p]) == e;
                let j = places[p];
                assert(0 <= j < edges@.len() && marks@[j] && pair(edges@[j]) == e);
            }
            if exists|j: int| 0 <= j < edges@.len() && marks@[j] && pair(#[trigger] edges@[j]) == e {
                let j = choose|j: int|
                    0 <= j < edges@.len() && marks@[j] && pair(#[trigger] edges@[j]) == e;
                let p = choose|p: int| 0 <= p < places.len() && #[trigger] places[p] == j;
                assert(pair(bad@[p]) == e);
            }
        }
    }
    bad
}

/// The edges whose entries name a vertex without an entry in the graph or
/// join a vertex to itself, each once.
pub fn dangling_edges(dcs: &DistanceConstraints, graph: &HashMap<Vid, Vec<Vid>>) -> (bad: Vec<
    [Vid; 2],
>)
    ensures
        distinct_pairs(bad@),
        forall|e: (Vid, Vid)|
            first_pairs(bad@, bad@.len() as int).contains(e) <==> dangling_entries(
                dcs@,
                graph_view(graph@),
            ).contains(e),
{
    broadcast use vstd::std_specs::hash::group_hash_axioms;

    let edges = dcs.edges();
    let ghost g = graph_view(graph@);
    let mut marks: Vec<bool> = Vec::new();
    let mut i: usize = 0;
    while i < edges.len()
        invariant
            i <= edges.len(),
            marks@.len() == i,
            g == graph_view(graph@),
            forall|j: int| 0 <= j < i ==> marks@[j] == dangling(g, pair(#[trigger] edges@[j])),
        decreases edges.len() - i,
    {
        let e = edges[i];
        marks.push(!graph.contains_key(&e[0]) || !graph.contains_key(&e[1]) || e[0] == e[1]);
        i += 1;
    }
    let bad = pick_edges(&edges, &marks);
    proof {
        assert forall|e: (Vid, Vid)|
            first_pairs(bad@, bad@.len() as int).contains(e) <==> dangling_entries(
                dcs@,
                g,
            ).contains(e) by {
            if dangling_entries(dcs@, g).contains(e) {
                let j = choose|j: int| 0 <= j < edges@.len() && pair(#[trigger] edges@[j]) == e;
                assert(marks@[j] && pair(edges@[j]) == e);
            }
        }
    }
    bad
}

/// The edges whose entries belong to no edge of the graph, each once.
pub fn stray_edges(
    dcs: &DistanceConstraints,
    graph: &HashMap<Vid, Vec<Vid>>,
    vs: &HashMap<Vid, RawVertex>,
) -> (bad: Vec<[Vid; 2]>)
    ensures
        distinct_pairs(bad@),
        forall|e: (Vid, Vid)|
            first_pairs(bad@, bad@.len() as int).contains(e) <==> stray_entries(
                dcs@,
                graph_view(graph@),
                vs@.dom(),
            ).contains(e),
{
    let edges = dcs.edges();
    let ghost g = graph_view(graph@);
    let mut marks: Vec<bool> = Vec::new();
    let mut i: usize = 0;
    while i < edges.len()
        invariant
            i <= edges.len(),
            marks@.len() == i,
            g == graph_view(graph@),
            forall|j: int|
                0 <= j < i ==> marks@[j] == !is_graph_edge(g, vs@.dom(), pair(#[trigger] edges@[j])),
        decreases edges.len() - i,
    {
        let e = edges[i];
        marks.push(!edge_in_graph(graph, vs, &e));
        i += 1;
    }
    let bad = pick_edges(&edges, &marks);
    proof {
        assert forall|e: (Vid, Vid)|
            first_pairs(bad@, bad@.len() as int).contains(e) <==> stray_entries(
                dcs@,
                g,
                vs@.dom(),
            ).contains(e) by {
            if stray_entries(dcs@, g, vs@.dom()).contains(e) {
                let j = choose|j: int| 0 <= j < edges@.len() && pair(#[trigger] edges@[j]) == e;
                assert(marks@[j] && pair(edges@[j]) == e);
            }
        }
    }
    bad
}

/// Removes the entries of the edges of the list and reports each.
pub fn drop_edges(dcs: &mut DistanceConstraints, bad: &Vec<[Vid; 2]>, report: &mut Vec<Diagnostic>)
    ensures
        final(dcs)@ == old(dcs)@.remove_keys(first_pairs(bad@, bad@.len() as int)),
        final(report)@ == old(report)@ + removal_reports(bad@),
{
    let ghost start = dcs@;
    let ghost said = report@;
    let mut i: usize = 0;
    proof {
        assert(dcs@ =~= start.remove_keys(first_pairs(bad@, 0)));
        assert(report@ =~= said + removal_reports(bad@.take(0)));
    }
    while i < bad.len()
        invariant
            i <= bad.len(),
            dcs@ == start.remove_keys(first_pairs(bad@, i as int)),
            report@ == said + removal_reports(bad@.take(i as int)),
        decreases bad.len() - i,
    {
        let e = bad[i];
        dcs.remove(&e);
        report.push(Diagnostic::Constraint(ConstraintError::DanglingEdge(e[0], e[1])));
        proof {
            assert(first_pairs(bad@, i + 1) =~= first_pairs(bad@, i as int).insert(pair(e)));
            assert(dcs@ =~= start.remove_keys(first_pairs(bad@, i + 1)));
            assert(report@ =~= said + removal_reports(bad@.take(i + 1)));
        }
        i += 1;
    }
    proof {
        assert(bad@.take(bad.len() as int) =~= bad@);
    }
}

/// Removes the entries that name a vertex without an entry in the graph or
/// join a vertex to itself, and reports each.
pub fn drop_dangling(
    dcs: &mut DistanceConstraints,
    graph: &HashMap<Vid, Vec<Vid>>,
    report: &mut Vec<Diagnostic>,
)
    ensures
        final(dcs)@ == without_dangling(old(dcs)@, graph_view(graph@)),
        extended_by_removals(
            final(report)@,
            old(report)@,
            dangling_entries(old(dcs)@, graph_view(graph@)),
        ),
{
    let bad = dangling_edges(dcs, graph);
    drop_edges(dcs, &bad, report);
    proof {
        let g = graph_view(graph@);
        assert(dcs@ =~= without_dangling(old(dcs)@, g));
        lemma_removals(report@, old(report)@, bad@, dangling_entries(old(dcs)@, g));
    }
}

/// Removes the entries that belong to no edge of the graph, and reports each.
pub fn drop_strays(
    dcs: &mut DistanceConstraints,
    graph: &HashMap<Vid, Vec<Vid>>,
    vs: &HashMap<Vid, RawVertex>,
    report: &mut Vec<Diagnostic>,
)
    ensures
        final(dcs)@ == without_strays(old(dcs)@, graph_view(graph@), vs@.dom()),
        extended_by_removals(
            final(report)@,
            old(report)@,
            stray_entries(old(dcs)@, graph_view(graph@), vs@.dom()),
        ),
{
    let bad = stray_edges(dcs, graph, vs);
    drop_edges(dcs, &bad, report);
    proof {
        let g = graph_view(graph@);
        assert(dcs@ =~= without_strays(old(dcs)@, g, vs@.dom()));
        lemma_removals(report@, old(report)@, bad@, stray_entries(old(dcs)@, g, vs@.dom()));
    }
}

/// Takes each vertex out of its own neighbour list, wherever it stands
/// there, and reports each such vertex once.
pub fn drop_self_loops(graph: &mut HashMap<Vid, Vec<Vid>>, report: &mut Vec<Diagnostic>)
    ensures
        graph_view(final(graph)@) == without_self_loops(graph_view(old(graph)@)),
        old(report)@.len() <= final(report)@.len(),
        final(report)@.subrange(0, old(report)@.len() as int) == old(report)@,
        distinct_from(final(report)@, old(report)@.len() as int),
        forall|i: int|
            old(report)@.len() <= i < final(report)@.len() ==> (
            #[trigger] final(report)@[i] matches Diagnostic::Vertex(
                StructuralError::SelfAdjacency(k),
            ) && linked(graph_view(old(graph)@), k, k)),
        forall|k: Vid|
            #![trigger linked(graph_view(old(graph)@), k, k)]
            linked(graph_view(old(graph)@), k, k) ==> exists|i: int|
                old(report)@.len() <= i < final(report)@.len() && final(report)@[i]
                    == Diagnostic::Vertex(StructuralError::SelfAdjacency(k)),
{
    broadcast use vstd::std_specs::hash::group_hash_axioms;

    let keys = key_list(graph);
    let ghost before = graph_view(graph@);
    let ghost said = report@;
    assert(report@.subrange(0, said.len() as int) =~= said);
    let mut i: usize = 0;
    while i < keys.len()
        invariant
            i <= keys.len(),
            keys@.no_duplicates(),
            forall|k: Vid| keys@.contains(k) <==> before.contains_key(k),
            graph_view(graph@).dom() == before.dom(),
            forall|j: int|
                0 <= j < i ==> graph_view(graph@)[#[trigger] keys@[j]] == before[keys@[j]].filter(
                    other_than(keys@[j]),
                ),
            forall|j: int|
                i <= j < keys.len() ==> graph_view(graph@)[#[trigger] keys@[j]]
                    == before[keys@[j]],
            said.len() <= report@.len(),
            report@.subrange(0, said.len() as int) == said,
            distinct_from(report@, said.len() as int),
            forall|p: int|
                said.len() <= p < report@.len() ==> (#[trigger] report@[p] matches Diagnostic::Vertex(
                    StructuralError::SelfAdjacency(k),
                ) && linked(before, k, k) && exists|q: int| 0 <= q < i && #[trigger] keys@[q] == k),
            forall|j: int|
                #![trigger keys@[j]]
                0 <= j < i && linked(before, keys@[j], keys@[j]) ==> exists|p: int|
                    said.len() <= p < report@.len() && report@[p] == Diagnostic::Vertex(
                        StructuralError::SelfAdjacency(keys@[j]),
                    ),
        decreases keys.len() - i,
    {
        let k = keys[i];
        let ghost mid = graph_view(graph@);
        let ghost told = report@;
        assert(keys@.contains(k));
        if is_linked(graph, k, k) {
            match graph.remove(&k) {
                Some(list) => {
                    let rest = drop_all(&list, k);
                    graph.insert(k, rest);
                },
                None => {},
            }
            report.push(Diagnostic::Vertex(StructuralError::SelfAdjacency(k)));
            proof {
                assert(report@.subrange(0, said.len() as int) =~= told.subrange(
                    0,
                    said.len() as int,
                ));
                assert forall|p: int| said.len() <= p < report@.len() implies (
                #[trigger] report@[p] matches Diagnostic::Vertex(
                    StructuralError::SelfAdjacency(w),
                ) && linked(before, w, w) && exists|q: int|
                    0 <= q < i + 1 && #[trigger] keys@[q] == w) by {
                    if p < told.len() {
                        assert(report@[p] == told[p]);
                        match told[p] {
                            Diagnostic::Vertex(StructuralError::SelfAdjacency(w)) => {
                                let q = choose|q: int| 0 <= q < i && #[trigger] keys@[q] == w;
                                assert(0 <= q < i + 1 && keys@[q] == w);
                            },
                            _ => {},
                        }
                    } else {
                        assert(keys@[i as int] == k);
                    }
                }
                assert forall|a: int, b: int| said.len() <= a < b < report@.len() implies report@[a]
                    != report@[b] by {
                    assert(report@[a] == told[a]);
                    if b < told.len() {
                        assert(report@[b] == told[b]);
                    } else {
                        match told[a] {
                            Diagnostic::Vertex(StructuralError::SelfAdjacency(w)) => {
                                let q = choose|q: int| 0 <= q < i && #[trigger] keys@[q] == w;
                                assert(keys@[q] != keys@[i as int]);
                            },
                            _ => {},
                        }
                    }
                }
            }
        } else {
            proof {
                lemma_without(before[k], k);
                assert forall|p: int| said.len() <= p < report@.len() implies (
                #[trigger] report@[p] matches Diagnostic::Vertex(
                    StructuralError::SelfAdjacency(w),
                ) && linked(before, w, w) && exists|q: int|
                    0 <= q < i + 1 && #[trigger] keys@[q] == w) by {
                    match report@[p] {
                        Diagnostic::Vertex(StructuralError::SelfAdjacency(w)) => {
                            let q = choose|q: int| 0 <= q < i && #[trigger] keys@[q] == w;
                            assert(0 <= q < i + 1 && keys@[q] == w);
                        },
                        _ => {},
                    }
                }
            }
        }
        proof {
            assert(graph_view(graph@) =~= mid.insert(k, before[k].filter(other_than(k))));
            assert forall|j: int|
                #![trigger keys@[j]]
                0 <= j < i + 1 && linked(before, keys@[j], keys@[j]) implies exists|p: int|
                said.len() <= p < report@.len() && report@[p] == Diagnostic::Vertex(
                    StructuralError::SelfAdjacency(keys@[j]),
                ) by {
                if j < i {
                    let p = choose|p: int|
                        said.len() <= p < told.len() && told[p] == Diagnostic::Vertex(
                            StructuralError::SelfAdjacency(keys@[j]),
                        );
                    assert(report@[p] == told[p]);
                } else {
                    assert(report@[report@.len() - 1] == Diagnostic::Vertex(
                        StructuralError::SelfAdjacency(k),
                    ));
                }
            }
        }
        i += 1;
    }
    proof {
        let after = graph_view(graph@);
        assert forall|k: Vid| after.contains_key(k) implies after[k] == before[k].filter(
            other_than(k),
        ) by {
            assert(keys@.contains(k));
            let j = keys@.index_of(k);
            assert(keys@[j] == k);
        }
        assert(after =~= without_self_loops(before));
        assert forall|k: Vid|
            #![trigger linked(before, k, k)]
            linked(before, k, k) implies exists|p: int|
            said.len() <= p < report@.len() && report@[p] == Diagnostic::Vertex(
                StructuralError::SelfAdjacency(k),
            ) by {
            assert(before.contains_key(k)) by {
                if !before.contains_key(k) {
                    assert(neighbors_of(before, k).len() == 0);
                }
            }
            assert(keys@.contains(k));
            let j = keys@.index_of(k);
            assert(keys@[j] == k);
        }
    }
}

/// Gives the default distance to every edge from `k` to one of `list` that
/// has no entry, and reports each.
pub fn add_defaults_at(
    dcs: &mut DistanceConstraints,
    k: Vid,
    list: &Vec<Vid>,
    report: &mut Vec<Diagnostic>,
)
    ensures
        final(dcs)@ == Map::new(
            |e: (Vid, Vid)| old(dcs)@.contains_key(e) || edge_at(k, list@, e),
            |e: (Vid, Vid)|
                if old(dcs)@.contains_key(e) {
                    old(dcs)@[e]
                } else {
                    DEFAULT_DISTANCE
                },
        ),
        extended_by_defaults(final(report)@, old(report)@, missing_at(old(dcs)@, k, list@)),
{
    let ghost start = dcs@;
    let ghost said = report@;
    let mut i: usize = 0;
    assert(report@.subrange(0, said.len() as int) =~= said);
    assert(list@.take(0).len() == 0);
    while i < list.len()
        invariant
            i <= list.len(),
            forall|e: (Vid, Vid)|
                #![trigger dcs@.contains_key(e)]
                dcs@.contains_key(e) <==> start.contains_key(e) || edge_at(
                    k,
                    list@.take(i as int),
                    e,
                ),
            forall|e: (Vid, Vid)|
                #![trigger dcs@[e]]
                dcs@.contains_key(e) ==> dcs@[e] == if start.contains_key(e) {
                    start[e]
                } else {
                    DEFAULT_DISTANCE
                },
            said.len() <= report@.len(),
            report@.subrange(0, said.len() as int) == said,
            extended_by_defaults(report@, said, missing_at(start, k, list@.take(i as int))),
        decreases list.len() - i,
    {
        let v = list[i];
        let ghost table = dcs@;
        let ghost told = report@;
        let ghost seen = list@.take(i as int);
        let ghost more = list@.take(i + 1);
        proof {
            assert(more =~= seen.push(v));
            assert forall|e: (Vid, Vid)| edge_at(k, more, e) <==> edge_at(k, seen, e) || (v != k
                && e == canonical_edge(k, v)) by {
                if edge_at(k, more, e) {
                    let j = choose|j: int|
                        0 <= j < more.len() && more[j] != k && e == canonical_edge(
                            k,
                            #[trigger] more[j],
                        );
                    if j < i {
                        assert(seen[j] != k && e == canonical_edge(k, seen[j]));
                    }
                }
                if edge_at(k, seen, e) {
                    let j = choose|j: int|
                        0 <= j < seen.len() && seen[j] != k && e == canonical_edge(
                            k,
                            #[trigger] seen[j],
                        );
                    assert(more[j] != k && e == canonical_edge(k, more[j]));
                }
                if v != k && e == canonical_edge(k, v) {
                    assert(more[i as int] != k && e == canonical_edge(k, more[i as int]));
                }
            }
        }
        if v != k {
            let e = sort_edge(k, v);
            if !dcs.contains(&e) {
                dcs.insert(e, DEFAULT_DISTANCE);
                report.push(Diagnostic::Constraint(ConstraintError::MissingDefault(e[0], e[1])));
                proof {
                    assert(report@.subrange(0, said.len() as int) =~= told.subrange(
                        0,
                        said.len() as int,
                    ));
                    assert(!start.contains_key(pair(e)));
                }
            }
        }
        proof {
            let fresh_seen = missing_at(start, k, seen);
            let fresh_more = missing_at(start, k, more);
            assert forall|a: int, b: int| said.len() <= a < b < report@.len() implies report@[a]
                != report@[b] by {
                assert(report@[a] == told[a]);
                if b < told.len() {
                    assert(report@[b] == told[b]);
                } else {
                    assert(told[a] matches Diagnostic::Constraint(
                        ConstraintError::MissingDefault(x, y),
                    ) && fresh_seen.contains((x, y)));
                }
            }
            assert forall|j: int| said.len() <= j < report@.len() implies (
            #[trigger] report@[j] matches Diagnostic::Constraint(
                ConstraintError::MissingDefault(a, b),
            ) && fresh_more.contains((a, b))) by {
                if j < told.len() {
                    assert(report@[j] == told[j]);
                    assert(told[j] matches Diagnostic::Constraint(
                        ConstraintError::MissingDefault(a, b),
                    ) && fresh_seen.contains((a, b)));
                }
            }
            assert forall|e: (Vid, Vid)|
                #![trigger fresh_more.contains(e)]
                fresh_more.contains(e) implies exists|p: int|
                said.len() <= p < report@.len() && report@[p] == Diagnostic::Constraint(
                    ConstraintError::MissingDefault(e.0, e.1),
                ) by {
                if edge_at(k, seen, e) {
                    assert(fresh_seen.contains(e));
                    let p = choose|p: int|
                        said.len() <= p < told.len() && told[p] == Diagnostic::Constraint(
                            ConstraintError::MissingDefault(e.0, e.1),
                        );
                    assert(report@[p] == told[p]);
                } else {
                    assert(!table.contains_key(e));
                    assert(report@[report@.len() - 1] == Diagnostic::Constraint(
                        ConstraintError::MissingDefault(e.0, e.1),
                    ));
                }
            }
        }
        i += 1;
    }
    proof {
        assert(list@.take(list.len() as int) =~= list@);
        let goal = Map::new(
            |e: (Vid, Vid)| start.contains_key(e) || edge_at(k, list@, e),
            |e: (Vid, Vid)|
                if start.contains_key(e) {
                    start[e]
                } else {
                    DEFAULT_DISTANCE
                },
        );
        assert(dcs@ =~= goal);
    }
}

/// Gives the default distance to every edge of the graph that leaves a
/// vertex of `ids` for another vertex and has no entry, and reports each.
pub fn add_defaults(
    dcs: &mut DistanceConstraints,
    graph: &HashMap<Vid, Vec<Vid>>,
    ids: &Vec<Vid>,
    report: &mut Vec<Diagnostic>,
)
    requires
        ids@.no_duplicates(),
    ensures
        final(dcs)@ == Map::new(
            |e: (Vid, Vid)|
                old(dcs)@.contains_key(e) || is_graph_edge(graph_view(graph@), ids@.to_set(), e),
            |e: (Vid, Vid)|
                if old(dcs)@.contains_key(e) {
                    old(dcs)@[e]
                } else {
                    DEFAULT_DISTANCE
                },
        ),
        extended_by_defaults(
            final(report)@,
            old(report)@,
            missing_defaults(old(dcs)@, graph_view(graph@), ids@.to_set()),
        ),
{
    broadcast use vstd::std_specs::hash::group_hash_axioms;

    let ghost g = graph_view(graph@);
    let ghost start = dcs@;
    let ghost said = report@;
    let mut i: usize = 0;
    assert(report@.subrange(0, said.len() as int) =~= said);
    while i < ids.len()
        invariant
            i <= ids.len(),
            ids@.no_duplicates(),
            g == graph_view(graph@),
            forall|e: (Vid, Vid)|
                #![trigger dcs@.contains_key(e)]
                dcs@.contains_key(e) <==> start.contains_key(e) || is_graph_edge(
                    g,
                    first_ids(ids@, i as int),
                    e,
                ),
            forall|e: (Vid, Vid)|
                #![trigger dcs@[e]]
                dcs@.contains_key(e) ==> dcs@[e] == if start.contains_key(e) {
                    start[e]
                } else {
                    DEFAULT_DISTANCE
                },
            extended_by_defaults(
                report@,
                said,
                missing_defaults(start, g, first_ids(ids@, i as int)),
            ),
        decreases ids.len() - i,
    {
        let k = ids[i];
        let ghost done = first_ids(ids@, i as int);
        let ghost next = first_ids(ids@, i + 1);
        let ghost table = dcs@;
        let ghost told = report@;
        let ghost n = neighbors_of(g, k);
        proof {
            lemma_first_ids(ids@, i as int);
            assert forall|e: (Vid, Vid)| is_graph_edge(g, next, e) <==> is_graph_edge(g, done, e)
                || edge_at(k, n, e) by {
                if is_graph_edge(g, next, e) {
                    let w = choose|w: Vid|
                        next.contains(w) && #[trigger] edge_at(w, neighbors_of(g, w), e);
                    if w != k {
                        assert(done.contains(w));
                    }
                }
                if is_graph_edge(g, done, e) {
                    let w = choose|w: Vid|
                        done.contains(w) && #[trigger] edge_at(w, neighbors_of(g, w), e);
                    assert(next.contains(w));
                }
                if edge_at(k, n, e) {
                    assert(next.contains(k));
                }
            }
        }
        match graph.get(&k) {
            Some(list) => {
                assert(list@ == n);
                add_defaults_at(dcs, k, list, report);
            },
            None => {
                assert(report@.subrange(0, told.len() as int) =~= told);
            },
        }
        proof {
            let fresh_here = if graph@.contains_key(k) {
                missing_at(table, k, n)
            } else {
                Set::empty()
            };
            let fresh_done = missing_defaults(start, g, done);
            let fresh_next = missing_defaults(start, g, next);
            assert(extended_by_defaults(report@, told, fresh_here));
            assert(report@.subrange(0, said.len() as int) =~= told.subrange(0, said.len() as int))
                by {
                assert(report@.subrange(0, told.len() as int) == told);
                assert forall|j: int| 0 <= j < said.len() implies report@[j] == told[j] by {
                    assert(report@.subrange(0, told.len() as int)[j] == told[j]);
                }
            }
            assert forall|a: int, b: int| said.len() <= a < b < report@.len() implies report@[a]
                != report@[b] by {
                if b < told.len() {
                    assert(report@.subrange(0, told.len() as int)[a] == told[a]);
                    assert(report@.subrange(0, told.len() as int)[b] == told[b]);
                } else if a < told.len() {
                    assert(report@.subrange(0, told.len() as int)[a] == told[a]);
                    assert(told[a] matches Diagnostic::Constraint(
                        ConstraintError::MissingDefault(x, y),
                    ) && fresh_done.contains((x, y)));
                    assert(report@[b] matches Diagnostic::Constraint(
                        ConstraintError::MissingDefault(x, y),
                    ) && fresh_here.contains((x, y)));
                }
            }
            assert forall|j: int| said.len() <= j < report@.len() implies (
            #[trigger] report@[j] matches Diagnostic::Constraint(
                ConstraintError::MissingDefault(a, b),
            ) && fresh_next.contains((a, b))) by {
                if j < told.len() {
                    assert(report@.subrange(0, told.len() as int)[j] == told[j]);
                    assert(told[j] matches Diagnostic::Constraint(
                        ConstraintError::MissingDefault(a, b),
                    ) && fresh_done.contains((a, b)));
                } else {
                    assert(report@[j] matches Diagnostic::Constraint(
                        ConstraintError::MissingDefault(a, b),
                    ) && fresh_here.contains((a, b)));
                }
            }
            assert forall|e: (Vid, Vid)|
                #![trigger fresh_next.contains(e)]
                fresh_next.contains(e) implies exists|p: int|
                said.len() <= p < report@.len() && report@[p] == Diagnostic::Constraint(
                    ConstraintError::MissingDefault(e.0, e.1),
                ) by {
                if fresh_done.contains(e) {
                    let p = choose|p: int|
                        said.len() <= p < told.len() && told[p] == Diagnostic::Constraint(
                            ConstraintError::MissingDefault(e.0, e.1),
                        );
                    assert(report@.subrange(0, told.len() as int)[p] == told[p]);
                } else {
                    assert(edge_at(k, n, e));
                    assert(graph@.contains_key(k)) by {
                        if !graph@.contains_key(k) {
                            assert(n.len() == 0);
                        }
                    }
                    assert(fresh_here.contains(e));
                }
            }
        }
        i += 1;
    }
    proof {
        lemma_first_ids_all(ids@);
        let goal = Map::new(
            |e: (Vid, Vid)| start.contains_key(e) || is_graph_edge(g, ids@.to_set(), e),
            |e: (Vid, Vid)|
                if start.contains_key(e) {
                    start[e]
                } else {
                    DEFAULT_DISTANCE
                },
        );
        assert(dcs@ =~= goal);
    }
}

} // verus!
