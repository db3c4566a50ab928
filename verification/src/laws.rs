//! What holds of every rebuild, whatever the mesh.
use vstd::prelude::*;
use crate::classify::{
    has_gap, has_two_gaps, is_gap, lemma_small_rings, successor, VertexClass,
};
use crate::constraints::DEFAULT_DISTANCE;
use crate::edge::{
    ascending, canonical_edge, canonical_face, face_set, has_corner, lemma_canonical_face, triple,
    Vid,
};
use crate::faces::{
    corners_apart, edge_of_face, face_edge, face_graph, lemma_face_graph, share_face,
};
use crate::graph::{lemma_without, linked, neighbors_of, strictly_ascending};
use crate::rawmodel::{
    graph_rebuild_reports, rebuilt_from_faces, rebuilt_from_graph, repair_reports, repaired,
    Model,
};
use crate::rebuild::{
    fan_fits, fault, sound, subject, swept_border, swept_faces, swept_graph, swept_report,
    vertex_proposes, vertex_reports, vertex_ring, vertex_verdict,
};
use crate::reconcile::{dangling, edge_at, is_graph_edge};
use crate::report::{Diagnostic, StructuralError, TopoError};
use crate::ring::{
    distinct_angles, lemma_ring_angles, lemma_ring_order, lemma_ring_order_of_ascending,
    lemma_ring_order_unique, lemma_ring_targets, lemma_rotated, lemma_rotated_multiset,
    ring_order, rotated, targets,
};
use crate::sweep::{
    face_bridge, fan_proposes, fan_ring, fan_verdict, graph_bridge, proposal, proposed_at,
    ring_bridges, sorted_ring, FanView,
};

verus! {

/// The canonical forms of the edges of a graph.
pub open spec fn graph_edges(g: Map<Vid, Seq<Vid>>) -> Set<(Vid, Vid)> {
    Set::new(|e: (Vid, Vid)| exists|k: Vid, v: Vid| #[trigger] linked(g, k, v) && e == canonical_edge(k, v))
}

/// Whether every vertex of `vs` that has a ring has its fan.
pub open spec fn fans_fit(g: Map<Vid, Seq<Vid>>, vs: Set<Vid>, fans: Map<Vid, FanView>) -> bool {
    forall|k: Vid|
        vs.contains(k) && #[trigger] neighbors_of(g, k).len() >= 2 ==> fan_fits(
            fans,
            k,
            neighbors_of(g, k),
        )
}

/// A graph that can be rebuilt has a fan for every vertex with a ring.
pub proof fn lemma_sound_fans_fit(g: Map<Vid, Seq<Vid>>, vs: Set<Vid>, fans: Map<Vid, FanView>)
    requires
        sound(g, vs, fans),
    ensures
        fans_fit(g, vs, fans),
        forall|k: Vid, v: Vid| vs.contains(k) && #[trigger] linked(g, k, v) ==> vs.contains(v),
{
    assert forall|k: Vid| vs.contains(k) && #[trigger] neighbors_of(g, k).len() >= 2 implies fan_fits(
        fans,
        k,
        neighbors_of(g, k),
    ) by {
        assert(!fault(g, vs, fans, TopoError::MissingBearings(k)));
    }
    assert forall|k: Vid, v: Vid| vs.contains(k) && #[trigger] linked(g, k, v) implies vs.contains(
        v,
    ) by {
        assert(!fault(g, vs, fans, TopoError::UnknownVertex { vertex: k, neighbor: v }));
    }
}

/// The ring that a vertex is left with has the entries of its fan, as many
/// as the fan has spokes.
pub proof fn lemma_fan_ring(bridge: spec_fn(Vid, Vid, Vid) -> bool, k: Vid, fan: FanView)
    ensures
        fan_ring(bridge, k, fan).len() == fan.spokes.len(),
        sorted_ring(fan).len() == fan.spokes.len(),
        forall|v: Vid|
            #![trigger fan_ring(bridge, k, fan).contains(v)]
            fan_ring(bridge, k, fan).contains(v) <==> targets(fan.spokes).contains(v),
        forall|v: Vid|
            #![trigger sorted_ring(fan).contains(v)]
            sorted_ring(fan).contains(v) <==> targets(fan.spokes).contains(v),
{
    lemma_ring_targets(fan.spokes);
    let bridged = ring_bridges(bridge, k, sorted_ring(fan));
    lemma_small_rings(bridged, fan.positive);
    let verdict = fan_verdict(bridge, k, fan);
    if verdict.class != VertexClass::Invalid {
        lemma_rotated(sorted_ring(fan), verdict.rotation as int);
    }
}

/// A sweep turns rings and moves nothing between them: the swept graph has
/// the same vertices, and each vertex has the same neighbours.
pub proof fn lemma_swept_links(
    bridge: spec_fn(Vid, Vid, Vid) -> bool,
    g: Map<Vid, Seq<Vid>>,
    vs: Set<Vid>,
    fans: Map<Vid, FanView>,
)
    requires
        fans_fit(g, vs, fans),
    ensures
        swept_graph(bridge, g, vs, fans).dom() == g.dom(),
        forall|a: Vid, b: Vid|
            #![trigger linked(swept_graph(bridge, g, vs, fans), a, b)]
            linked(swept_graph(bridge, g, vs, fans), a, b) == linked(g, a, b),
        forall|k: Vid|
            #![trigger neighbors_of(swept_graph(bridge, g, vs, fans), k)]
            neighbors_of(swept_graph(bridge, g, vs, fans), k).len() == neighbors_of(g, k).len(),
{
    let swept = swept_graph(bridge, g, vs, fans);
    assert(swept.dom() =~= g.dom());
    assert forall|a: Vid, b: Vid|
        #![trigger linked(swept, a, b)]
        linked(swept, a, b) == linked(g, a, b) by {
        if g.contains_key(a) && vs.contains(a) && g[a].len() >= 2 {
            assert(neighbors_of(g, a).len() >= 2);
            lemma_fan_ring(bridge, a, fans[a]);
        }
    }
    assert forall|k: Vid|
        #![trigger neighbors_of(swept, k)]
        neighbors_of(swept, k).len() == neighbors_of(g, k).len() by {
        if g.contains_key(k) && vs.contains(k) && g[k].len() >= 2 {
            assert(neighbors_of(g, k).len() >= 2);
            lemma_fan_ring(bridge, k, fans[k]);
        }
    }
}

/// A rebuild from the graph is determined by the model and by the fans of
/// the vertices that have a ring: two runs on models that are equal, with
/// fans that agree on those vertices, leave the same rings, border,
/// triangles and constraints and report the same, in whatever order they
/// visit the vertices.
pub proof fn rebuild_is_determined(m: Model, first: Map<Vid, FanView>, second: Map<Vid, FanView>)
    requires
        forall|k: Vid|
            m.vs.contains_key(k) && #[trigger] neighbors_of(m.neigh, k).len() >= 2 ==> (
            first.contains_key(k) <==> second.contains_key(k)) && first[k] == second[k],
    ensures
        sound(m.neigh, m.vs.dom(), first) == sound(m.neigh, m.vs.dom(), second),
        rebuilt_from_graph(m, first) == rebuilt_from_graph(m, second),
        forall|d: Diagnostic|
            graph_rebuild_reports(m, first, d) == graph_rebuild_reports(m, second, d),
{
    let g = m.neigh;
    let vs = m.vs.dom();
    let bridge = graph_bridge(g);
    assert forall|e: TopoError| fault(g, vs, first, e) == fault(g, vs, second, e) by {
        match e {
            TopoError::MissingBearings(k) => {
                if vs.contains(k) && neighbors_of(g, k).len() >= 2 {
                    assert(first[k] == second[k]);
                }
            },
            _ => {},
        }
    }
    assert(swept_graph(bridge, g, vs, first) =~= swept_graph(bridge, g, vs, second)) by {
        assert forall|k: Vid| g.contains_key(k) && vs.contains(k) implies vertex_ring(
            bridge,
            first,
            k,
            g[k],
        ) == vertex_ring(bridge, second, k, g[k]) by {
            if g[k].len() >= 2 {
                assert(neighbors_of(g, k).len() >= 2);
            }
        }
    }
    assert forall|k: Vid| vs.contains(k) implies vertex_verdict(
        bridge,
        first,
        k,
        neighbors_of(g, k),
    ) == vertex_verdict(bridge, second, k, neighbors_of(g, k)) by {}
    assert(swept_border(bridge, g, vs, first) =~= swept_border(bridge, g, vs, second));
    assert forall|k: Vid, f: (Vid, Vid, Vid)| vs.contains(k) implies vertex_proposes(
        bridge,
        first,
        k,
        neighbors_of(g, k),
        f,
    ) == vertex_proposes(bridge, second, k, neighbors_of(g, k), f) by {}
    assert(swept_faces(bridge, g, vs, first) =~= swept_faces(bridge, g, vs, second)) by {
        assert forall|f: (Vid, Vid, Vid)|
            swept_faces(bridge, g, vs, first).contains(f) <==> swept_faces(
                bridge,
                g,
                vs,
                second,
            ).contains(f) by {
            if swept_faces(bridge, g, vs, first).contains(f) {
                let k = choose|k: Vid|
                    vs.contains(k) && #[trigger] vertex_proposes(
                        bridge,
                        first,
                        k,
                        neighbors_of(g, k),
                        f,
                    );
                assert(vertex_proposes(bridge, second, k, neighbors_of(g, k), f));
            }
            if swept_faces(bridge, g, vs, second).contains(f) {
                let k = choose|k: Vid|
                    vs.contains(k) && #[trigger] vertex_proposes(
                        bridge,
                        second,
                        k,
                        neighbors_of(g, k),
                        f,
                    );
                assert(vertex_proposes(bridge, first, k, neighbors_of(g, k), f));
            }
        }
    }
    assert(swept_report(bridge, g, vs, first) =~= swept_report(bridge, g, vs, second));
}

/// A vertex with exactly two neighbours, neither of them itself and both in
/// a defined direction, is on the border, and the one triangle that its
/// sweep proposes is that of itself and the two.
pub proof fn two_neighbours_make_a_border(
    bridge: spec_fn(Vid, Vid, Vid) -> bool,
    g: Map<Vid, Seq<Vid>>,
    vs: Set<Vid>,
    fans: Map<Vid, FanView>,
    k: Vid,
)
    requires
        vs.contains(k),
        neighbors_of(g, k).len() == 2,
        !neighbors_of(g, k).contains(k),
        fan_fits(fans, k, neighbors_of(g, k)),
        !fans[k].undefined,
    ensures
        vertex_verdict(bridge, fans, k, neighbors_of(g, k)).class == VertexClass::Border,
        swept_border(bridge, g, vs, fans).contains(k),
        swept_faces(bridge, g, vs, fans).contains(
            canonical_face(k, neighbors_of(g, k)[0], neighbors_of(g, k)[1]),
        ),
        forall|f: (Vid, Vid, Vid)|
            vertex_proposes(bridge, fans, k, neighbors_of(g, k), f) <==> f == canonical_face(
                k,
                neighbors_of(g, k)[0],
                neighbors_of(g, k)[1],
            ),
{
    let n = neighbors_of(g, k);
    let fan = fans[k];
    let ring = sorted_ring(fan);
    let bridged = ring_bridges(bridge, k, ring);
    let face = canonical_face(k, n[0], n[1]);
    lemma_ring_targets(fan.spokes);
    lemma_small_rings(bridged, fan.positive);
    assert(ring.contains(ring[0]) && ring.contains(ring[1]));
    assert(n.contains(n[0]) && n.contains(n[1]));
    assert(ring.contains(n[0]) && ring.contains(n[1]));
    assert(n.contains(ring[0]) && n.contains(ring[1]));
    lemma_canonical_face(k, n[0], n[1]);
    lemma_canonical_face(ring[0], ring[1], k);
    assert(proposal(k, ring, 0) == face);
    assert(proposed_at(bridged, 0));
    assert(fan_proposes(bridge, k, fan, face));
    assert(vertex_proposes(bridge, fans, k, n, face));
}

/// A vertex with fewer than two neighbours is invalid: it is not on the
/// border, proposes no triangle, keeps its neighbour list and is reported.
/// Nothing about it stops the rebuild of the others: no fan is asked for it,
/// and what the sweep leaves around another vertex is stated without it.
pub proof fn degenerate_vertex_is_left_out(
    bridge: spec_fn(Vid, Vid, Vid) -> bool,
    g: Map<Vid, Seq<Vid>>,
    vs: Set<Vid>,
    fans: Map<Vid, FanView>,
    k: Vid,
)
    requires
        vs.contains(k),
        neighbors_of(g, k).len() <= 1,
    ensures
        vertex_verdict(bridge, fans, k, neighbors_of(g, k)).class == VertexClass::Invalid,
        !swept_border(bridge, g, vs, fans).contains(k),
        forall|f: (Vid, Vid, Vid)| !vertex_proposes(bridge, fans, k, neighbors_of(g, k), f),
        neighbors_of(swept_graph(bridge, g, vs, fans), k) == neighbors_of(g, k),
        swept_report(bridge, g, vs, fans).contains(
            if neighbors_of(g, k).contains(k) {
                StructuralError::SelfAdjacency(k)
            } else {
                StructuralError::DegenerateVertex(k)
            },
        ),
        !fault(g, vs, fans, TopoError::MissingBearings(k)),
{
}

/// After a rebuild from the graph the constraint table has an entry for
/// exactly the edges of the graph, whatever it held before: an edge that had
/// an entry keeps its distance, and every other edge has the default
/// distance.
///
/// This is stated of models in which every vertex of the graph is a vertex
/// of the model and no vertex lists itself, as it is after a repair.
pub proof fn constraints_cover_the_edges(m: Model, fans: Map<Vid, FanView>)
    requires
        sound(m.neigh, m.vs.dom(), fans),
        forall|k: Vid| m.neigh.contains_key(k) ==> m.vs.contains_key(k),
        forall|k: Vid| !#[trigger] linked(m.neigh, k, k),
    ensures
        rebuilt_from_graph(m, fans).dcs.dom() == graph_edges(rebuilt_from_graph(m, fans).neigh),
        forall|e: (Vid, Vid)|
            #![trigger rebuilt_from_graph(m, fans).dcs[e]]
            rebuilt_from_graph(m, fans).dcs.contains_key(e) ==> rebuilt_from_graph(m, fans).dcs[e]
                == if m.dcs.contains_key(e) {
                m.dcs[e]
            } else {
                DEFAULT_DISTANCE
            },
{
    let g = m.neigh;
    let vs = m.vs.dom();
    let bridge = graph_bridge(g);
    let out = rebuilt_from_graph(m, fans);
    lemma_sound_fans_fit(g, vs, fans);
    lemma_swept_links(bridge, g, vs, fans);
    assert forall|e: (Vid, Vid)| out.dcs.contains_key(e) <==> graph_edges(out.neigh).contains(
        e,
    ) by {
        if is_graph_edge(g, vs, e) {
            let k = choose|k: Vid| vs.contains(k) && #[trigger] edge_at(k, neighbors_of(g, k), e);
            let n = neighbors_of(g, k);
            let i = choose|i: int|
                0 <= i < n.len() && n[i] != k && e == canonical_edge(k, #[trigger] n[i]);
            assert(n.contains(n[i]));
            assert(linked(g, k, n[i]));
            assert(linked(out.neigh, k, n[i]));
        }
        if graph_edges(out.neigh).contains(e) {
            let (k, v) = choose|k: Vid, v: Vid|
                #[trigger] linked(out.neigh, k, v) && e == canonical_edge(k, v);
            assert(linked(g, k, v));
            let n = neighbors_of(g, k);
            let i = n.index_of(v);
            assert(v != k) by {
                if v == k {
                    assert(linked(g, k, k));
                }
            }
            assert(n[i] != k && e == canonical_edge(k, n[i]));
            assert(edge_at(k, n, e));
            assert(g.contains_key(k)) by {
                if !g.contains_key(k) {
                    assert(n.len() == 0);
                }
            }
            assert(is_graph_edge(g, vs, e));
        }
    }
    assert(out.dcs.dom() =~= graph_edges(out.neigh));
}

/// After a repair no vertex lists itself, and a second repair changes
/// nothing and has nothing to report.
pub proof fn repair_is_idempotent(m: Model)
    ensures
        forall|k: Vid| !#[trigger] linked(repaired(m).neigh, k, k),
        repaired(repaired(m)) == repaired(m),
        forall|d: Diagnostic| !repair_reports(repaired(m), d),
{
    let once = repaired(m);
    let twice = repaired(once);
    assert forall|k: Vid| !#[trigger] linked(once.neigh, k, k) by {
        if m.neigh.contains_key(k) {
            lemma_without(m.neigh[k], k);
        }
    }
    assert(twice.neigh =~= once.neigh) by {
        assert forall|k: Vid| once.neigh.contains_key(k) implies twice.neigh[k]
            == once.neigh[k] by {
            assert(!linked(once.neigh, k, k));
            lemma_without(once.neigh[k], k);
        }
    }
    assert(once.neigh.dom() =~= m.neigh.dom());
    assert(twice.dcs =~= once.dcs);
    assert forall|d: Diagnostic| !repair_reports(once, d) by {
        match d {
            Diagnostic::Vertex(StructuralError::SelfAdjacency(k)) => {
                assert(!linked(once.neigh, k, k));
            },
            _ => {},
        }
    }
}

/// After a repair and a rebuild from the graph the constraint table has an
/// entry for exactly the edges of the graph, and a repair that follows
/// finds nothing to remove from the table or from the graph.
///
/// This is stated of models in which every vertex of the graph is a vertex
/// of the model and every neighbour has a neighbour list of its own.
pub proof fn repaired_constraints_cover_the_edges(m: Model, fans: Map<Vid, FanView>)
    requires
        sound(repaired(m).neigh, m.vs.dom(), fans),
        forall|k: Vid| m.neigh.contains_key(k) ==> m.vs.contains_key(k),
        forall|k: Vid, v: Vid| #[trigger] linked(m.neigh, k, v) ==> m.neigh.contains_key(v),
    ensures
        rebuilt_from_graph(repaired(m), fans).dcs.dom() == graph_edges(
            rebuilt_from_graph(repaired(m), fans).neigh,
        ),
        repaired(rebuilt_from_graph(repaired(m), fans)).dcs == rebuilt_from_graph(
            repaired(m),
            fans,
        ).dcs,
        repaired(rebuilt_from_graph(repaired(m), fans)).neigh == rebuilt_from_graph(
            repaired(m),
            fans,
        ).neigh,
{
    let r = repaired(m);
    let g = r.neigh;
    let vs = m.vs.dom();
    let out = rebuilt_from_graph(r, fans);
    repair_is_idempotent(m);
    assert(g.dom() =~= m.neigh.dom());
    constraints_cover_the_edges(r, fans);
    lemma_sound_fans_fit(g, vs, fans);
    lemma_swept_links(graph_bridge(g), g, vs, fans);
    let again = repaired(out);
    assert(again.neigh =~= out.neigh) by {
        assert forall|k: Vid| out.neigh.contains_key(k) implies again.neigh[k]
            == out.neigh[k] by {
            assert(!linked(out.neigh, k, k)) by {
                assert(linked(out.neigh, k, k) == linked(g, k, k));
            }
            lemma_without(out.neigh[k], k);
        }
    }
    assert forall|e: (Vid, Vid)| out.dcs.contains_key(e) implies !dangling(out.neigh, e) by {
        assert(graph_edges(out.neigh).contains(e));
        let (k, v) = choose|k: Vid, v: Vid|
            #[trigger] linked(out.neigh, k, v) && e == canonical_edge(k, v);
        assert(linked(g, k, v));
        assert(v != k) by {
            if v == k {
                assert(linked(g, k, k));
            }
        }
        assert(g.contains_key(k)) by {
            if !g.contains_key(k) {
                assert(neighbors_of(g, k).len() == 0);
            }
        }
        assert(linked(m.neigh, k, v)) by {
            lemma_without(m.neigh[k], k);
        }
        assert(m.neigh.contains_key(v));
    }
    assert(again.dcs =~= out.dcs);
}

/// A vertex without neighbours that no vertex lists is a corner of none of
/// the triangles that a rebuild from the graph finds; it is reported as
/// degenerate and is not on the border.
pub proof fn isolated_vertex_is_in_no_triangle(m: Model, fans: Map<Vid, FanView>, k: Vid)
    requires
        sound(m.neigh, m.vs.dom(), fans),
        m.vs.contains_key(k),
        neighbors_of(m.neigh, k).len() == 0,
        forall|w: Vid| !#[trigger] linked(m.neigh, w, k),
    ensures
        forall|f: (Vid, Vid, Vid)|
            rebuilt_from_graph(m, fans).fs.contains(f) ==> !#[trigger] has_corner(f, k),
        !rebuilt_from_graph(m, fans).border.contains(k),
        graph_rebuild_reports(
            m,
            fans,
            Diagnostic::Vertex(StructuralError::DegenerateVertex(k)),
        ),
{
    let g = m.neigh;
    let vs = m.vs.dom();
    let bridge = graph_bridge(g);
    lemma_sound_fans_fit(g, vs, fans);
    assert(!neighbors_of(g, k).contains(k));
    assert forall|f: (Vid, Vid, Vid)|
        rebuilt_from_graph(m, fans).fs.contains(f) implies !#[trigger] has_corner(f, k) by {
        let w = choose|w: Vid|
            vs.contains(w) && #[trigger] vertex_proposes(bridge, fans, w, neighbors_of(g, w), f);
        let fan = fans[w];
        let ring = sorted_ring(fan);
        assert(neighbors_of(g, w).len() >= 2);
        assert(w != k);
        assert(fan_fits(fans, w, neighbors_of(g, w)));
        lemma_fan_ring(bridge, w, fan);
        let i = choose|i: int|
            proposed_at(ring_bridges(bridge, w, ring), i) && f == proposal(w, ring, i);
        let a = ring[i];
        let b = ring[successor(i, ring.len() as int)];
        assert(ring.contains(a) && ring.contains(b));
        assert(linked(g, w, a) && linked(g, w, b));
        lemma_canonical_face(a, b, w);
        assert(f == canonical_face(a, b, w));
        assert(has_corner(f, k) ==> k == a || k == b || k == w) by {
            lemma_corners(a, b, w, k);
        }
    }
}

/// A corner of a canonical triangle is one of the three that were given.
proof fn lemma_corners(a: Vid, b: Vid, c: Vid, k: Vid)
    ensures
        has_corner(canonical_face(a, b, c), k) ==> k == a || k == b || k == c,
{
}

/// After a rebuild from the triangle list the constraint table has an entry
/// for exactly the edges of the graph.
pub proof fn face_constraints_cover_the_edges(
    m: Model,
    faces: Seq<[Vid; 3]>,
    fans: Map<Vid, FanView>,
)
    requires
        sound(face_graph(faces), m.vs.dom(), fans),
    ensures
        rebuilt_from_faces(m, faces, fans).dcs.dom() == graph_edges(
            rebuilt_from_faces(m, faces, fans).neigh,
        ),
{
    let g = face_graph(faces);
    let vs = m.vs.dom();
    let bridge = face_bridge(face_set(faces));
    let out = rebuilt_from_faces(m, faces, fans);
    lemma_sound_fans_fit(g, vs, fans);
    lemma_swept_links(bridge, g, vs, fans);
    lemma_face_graph(faces);
    assert forall|e: (Vid, Vid)| out.dcs.contains_key(e) <==> graph_edges(out.neigh).contains(
        e,
    ) by {
        if face_edge(faces, e) {
            let i = choose|i: int|
                0 <= i < faces.len() && edge_of_face(triple(#[trigger] faces[i]), e);
            let f = triple(faces[i]);
            let (a, b) = if e == canonical_edge(f.0, f.1) {
                (f.0, f.1)
            } else if e == canonical_edge(f.0, f.2) {
                (f.0, f.2)
            } else {
                (f.1, f.2)
            };
            assert(corners_apart(f, a, b));
            assert(share_face(faces, a, b));
            assert(linked(g, a, b));
            assert(linked(out.neigh, a, b));
        }
        if graph_edges(out.neigh).contains(e) {
            let (k, v) = choose|k: Vid, v: Vid|
                #[trigger] linked(out.neigh, k, v) && e == canonical_edge(k, v);
            assert(linked(g, k, v));
            assert(share_face(faces, k, v));
            let i = choose|i: int|
                0 <= i < faces.len() && corners_apart(triple(#[trigger] faces[i]), k, v);
            assert(edge_of_face(triple(faces[i]), e));
        }
    }
    assert(out.dcs.dom() =~= graph_edges(out.neigh));
}

/// Whether the fan holds, for each of its spokes, the angle that `angle`
/// gives for the direction from `k` to the neighbour.
pub open spec fn measured_by(fan: FanView, k: Vid, angle: spec_fn(Vid, Vid) -> i32) -> bool {
    forall|i: int|
        0 <= i < fan.spokes.len() ==> (#[trigger] fan.spokes[i]).angle == angle(
            k,
            fan.spokes[i].to,
        )
}

/// The second sweep around a vertex, with the same angles, finds what the
/// first found.
proof fn lemma_second_sweep(
    before: spec_fn(Vid, Vid, Vid) -> bool,
    after: spec_fn(Vid, Vid, Vid) -> bool,
    k: Vid,
    first: FanView,
    second: FanView,
    angle: spec_fn(Vid, Vid) -> i32,
)
    requires
        first.spokes.len() >= 2,
        targets(second.spokes) == fan_ring(before, k, first),
        measured_by(first, k, angle),
        measured_by(second, k, angle),
        distinct_angles(first.spokes),
        second.positive == first.positive,
        second.undefined == first.undefined,
        forall|a: Vid, b: Vid| #[trigger] after(k, a, b) == before(k, a, b),
    ensures
        sorted_ring(second) == sorted_ring(first),
        fan_verdict(after, k, second) == fan_verdict(before, k, first),
        fan_ring(after, k, second) == fan_ring(before, k, first),
        forall|f: (Vid, Vid, Vid)|
            fan_proposes(after, k, second, f) == fan_proposes(before, k, first, f),
{
    let listed = targets(first.spokes);
    let ordered = ring_order(first.spokes);
    let ring = sorted_ring(first);
    let bridged = ring_bridges(before, k, ring);
    let verdict = fan_verdict(before, k, first);
    lemma_fan_ring(before, k, first);
    lemma_ring_order(first.spokes);
    lemma_ring_angles(first.spokes);
    lemma_small_rings(bridged, first.positive);
    assert(targets(second.spokes).len() == second.spokes.len());
    if listed.contains(k) || first.undefined {
        assert(targets(second.spokes) == listed);
        assert(second.spokes.len() == first.spokes.len());
        // both fans name the same neighbours in the same order, with the same angles
        assert(second.spokes =~= first.spokes) by {
            assert forall|i: int| 0 <= i < first.spokes.len() implies second.spokes[i]
                == first.spokes[i] by {
                assert(targets(second.spokes)[i] == listed[i]);
            }
        }
    } else {
        let by = verdict.rotation as int;
        lemma_rotated(ring, by);
        lemma_rotated(ordered, by);
        lemma_rotated_multiset(ordered, by);
        let turned = rotated(ordered, by);
        assert(second.spokes =~= turned) by {
            assert forall|i: int| 0 <= i < turned.len() implies second.spokes[i] == turned[i] by {
                let j = if i + by < ordered.len() {
                    i + by
                } else {
                    i + by - ordered.len()
                };
                assert(turned[i] == ordered[j]);
                assert(targets(second.spokes)[i] == rotated(ring, by)[i]);
                assert(rotated(ring, by)[i] == ring[j]);
                assert(ring[j] == ordered[j].to);
                assert(ordered.contains(ordered[j]));
                assert(first.spokes.contains(ordered[j]));
                let p = first.spokes.index_of(ordered[j]);
                assert(first.spokes[p].angle == angle(k, first.spokes[p].to));
            }
        }
        lemma_ring_order_unique(ordered, second.spokes);
        assert(sorted_ring(second) == ring);
        assert(ring_bridges(after, k, ring) =~= bridged);
        assert(!targets(second.spokes).contains(k));
    }
}

/// A rebuild from the graph that follows another, with the same angles
/// measured again, changes nothing and has nothing new to report.
///
/// This is stated of meshes in which no two neighbours of a vertex lie at
/// the same angle: `angle` gives the angle of the direction from a vertex to
/// a neighbour, and both runs measure by it and agree on where it is
/// undefined.
pub proof fn rebuild_is_idempotent(
    m: Model,
    first: Map<Vid, FanView>,
    second: Map<Vid, FanView>,
    angle: spec_fn(Vid, Vid) -> i32,
)
    requires
        sound(m.neigh, m.vs.dom(), first),
        sound(rebuilt_from_graph(m, first).neigh, m.vs.dom(), second),
        forall|k: Vid|
            m.vs.contains_key(k) && #[trigger] neighbors_of(m.neigh, k).len() >= 2 ==> {
                &&& measured_by(first[k], k, angle)
                &&& measured_by(second[k], k, angle)
                &&& distinct_angles(first[k].spokes)
                &&& second[k].positive == first[k].positive
                &&& second[k].undefined == first[k].undefined
            },
    ensures
        rebuilt_from_graph(rebuilt_from_graph(m, first), second) == rebuilt_from_graph(m, first),
        forall|d: Diagnostic|
            graph_rebuild_reports(rebuilt_from_graph(m, first), second, d) <==> d is Vertex
                && graph_rebuild_reports(m, first, d),
{
    let g = m.neigh;
    let vs = m.vs.dom();
    let before = graph_bridge(g);
    let once = rebuilt_from_graph(m, first);
    let h = once.neigh;
    let after = graph_bridge(h);
    let twice = rebuilt_from_graph(once, second);
    lemma_sound_fans_fit(g, vs, first);
    lemma_sound_fans_fit(h, vs, second);
    lemma_swept_links(before, g, vs, first);
    assert forall|k: Vid| #![trigger neighbors_of(h, k)] vs.contains(k) implies {
        &&& vertex_verdict(after, second, k, neighbors_of(h, k)) == vertex_verdict(
            before,
            first,
            k,
            neighbors_of(g, k),
        )
        &&& vertex_ring(after, second, k, neighbors_of(h, k)) == vertex_ring(
            before,
            first,
            k,
            neighbors_of(g, k),
        )
        &&& neighbors_of(h, k) == vertex_ring(before, first, k, neighbors_of(g, k))
        &&& forall|f: (Vid, Vid, Vid)|
            vertex_proposes(after, second, k, neighbors_of(h, k), f) == vertex_proposes(
                before,
                first,
                k,
                neighbors_of(g, k),
                f,
            )
        &&& forall|d: StructuralError|
            vertex_reports(after, second, k, neighbors_of(h, k), d) == vertex_reports(
                before,
                first,
                k,
                neighbors_of(g, k),
                d,
            )
    } by {
        let n = neighbors_of(g, k);
        let n2 = neighbors_of(h, k);
        assert(n2.len() == n.len());
        if n.len() >= 2 {
            assert(g.contains_key(k));
            assert(n2 == fan_ring(before, k, first[k]));
            assert(fan_fits(second, k, n2));
            assert forall|a: Vid, b: Vid| #[trigger] after(k, a, b) == before(k, a, b) by {
                assert(linked(h, a, b) == linked(g, a, b));
            }
            lemma_second_sweep(before, after, k, first[k], second[k], angle);
            lemma_fan_ring(before, k, first[k]);
            assert(n2.contains(k) == n.contains(k));
        } else {
            if g.contains_key(k) {
                assert(n2 == n);
            } else {
                assert(n2 =~= n);
            }
        }
    }
    assert(twice.neigh =~= once.neigh) by {
        assert forall|k: Vid| h.contains_key(k) implies twice.neigh[k] == h[k] by {
            if vs.contains(k) {
                assert(neighbors_of(h, k) == h[k]);
                assert(neighbors_of(g, k) == g[k]);
            }
        }
    }
    assert(twice.border =~= once.border) by {
        assert forall|k: Vid| twice.border.contains(k) <==> once.border.contains(k) by {
            if vs.contains(k) {
                assert(neighbors_of(h, k).len() >= 0);
            }
        }
    }
    assert(twice.fs =~= once.fs) by {
        assert forall|f: (Vid, Vid, Vid)| twice.fs.contains(f) <==> once.fs.contains(f) by {
            if twice.fs.contains(f) {
                let k = choose|k: Vid|
                    vs.contains(k) && #[trigger] vertex_proposes(
                        after,
                        second,
                        k,
                        neighbors_of(h, k),
                        f,
                    );
                assert(neighbors_of(h, k).len() >= 0);
                assert(vertex_proposes(before, first, k, neighbors_of(g, k), f));
            }
            if once.fs.contains(f) {
                let k = choose|k: Vid|
                    vs.contains(k) && #[trigger] vertex_proposes(
                        before,
                        first,
                        k,
                        neighbors_of(g, k),
                        f,
                    );
                assert(neighbors_of(h, k).len() >= 0);
                assert(vertex_proposes(after, second, k, neighbors_of(h, k), f));
            }
        }
    }
    assert forall|e: (Vid, Vid)| is_graph_edge(h, vs, e) == is_graph_edge(g, vs, e) by {
        lemma_same_edges(g, h, vs, e);
        lemma_same_edges(h, g, vs, e);
    }
    assert(twice.dcs =~= once.dcs);
    assert forall|d: Diagnostic|
        graph_rebuild_reports(once, second, d) <==> d is Vertex && graph_rebuild_reports(
            m,
            first,
            d,
        ) by {
        match d {
            Diagnostic::Vertex(s) => {
                let k = subject(s);
                if vs.contains(k) {
                    assert(neighbors_of(h, k).len() >= 0);
                }
            },
            _ => {},
        }
    }
}

/// Whether three vertices that are neighbours of each other always form a
/// triangle of the list: no triangle of edges is left hollow.
pub open spec fn no_hollow_triangle(faces: Seq<[Vid; 3]>) -> bool {
    forall|k: Vid, a: Vid, b: Vid|
        #![trigger share_face(faces, k, a), share_face(faces, a, b)]
        share_face(faces, k, a) && share_face(faces, k, b) && share_face(faces, a, b)
            ==> face_set(faces).contains(canonical_face(k, a, b))
}

/// On a mesh without hollow triangles two neighbours of a vertex are joined
/// by a triangle with the vertex exactly where they are neighbours of each
/// other.
proof fn lemma_same_bridges(faces: Seq<[Vid; 3]>, k: Vid, ring: Seq<Vid>)
    requires
        no_hollow_triangle(faces),
        forall|v: Vid| #![trigger ring.contains(v)] ring.contains(v) ==> linked(face_graph(faces), k, v),
    ensures
        ring_bridges(face_bridge(face_set(faces)), k, ring) == ring_bridges(
            graph_bridge(face_graph(faces)),
            k,
            ring,
        ),
{
    let g = face_graph(faces);
    let by_faces = face_bridge(face_set(faces));
    let by_graph = graph_bridge(g);
    let len = ring.len() as int;
    lemma_face_graph(faces);
    assert forall|i: int| 0 <= i < len implies ring_bridges(by_faces, k, ring)[i] == ring_bridges(
        by_graph,
        k,
        ring,
    )[i] by {
        let a = ring[i];
        let b = ring[successor(i, len)];
        assert(ring.contains(a) && ring.contains(b));
        assert(linked(g, k, a) && linked(g, k, b));
        lemma_third_corner(k, b, a, a);
        if face_set(faces).contains(canonical_face(k, a, b)) {
            let j = choose|j: int|
                0 <= j < faces.len() && triple(#[trigger] faces[j]) == canonical_face(k, a, b);
            assert(corners_apart(triple(faces[j]), a, b));
            assert(share_face(faces, a, b));
        }
        if linked(g, a, b) {
            assert(share_face(faces, k, a) && share_face(faces, a, b));
        }
    }
    assert(ring_bridges(by_faces, k, ring) =~= ring_bridges(by_graph, k, ring));
}

/// On a mesh without hollow triangles the two directions agree: the rebuild
/// from the triangles and the rebuild from the graph of the triangles leave
/// the same rings, turned alike, and the same border.
pub proof fn directions_agree(m: Model, faces: Seq<[Vid; 3]>, fans: Map<Vid, FanView>)
    requires
        sound(face_graph(faces), m.vs.dom(), fans),
        no_hollow_triangle(faces),
    ensures
        rebuilt_from_faces(m, faces, fans).neigh == rebuilt_from_graph(
            Model { neigh: face_graph(faces), ..m },
            fans,
        ).neigh,
        rebuilt_from_faces(m, faces, fans).border == rebuilt_from_graph(
            Model { neigh: face_graph(faces), ..m },
            fans,
        ).border,
{
    let g = face_graph(faces);
    let vs = m.vs.dom();
    let by_faces = face_bridge(face_set(faces));
    let by_graph = graph_bridge(g);
    lemma_sound_fans_fit(g, vs, fans);
    lemma_face_graph(faces);
    assert forall|k: Vid| vs.contains(k) && #[trigger] neighbors_of(g, k).len() >= 2 implies {
        &&& fan_verdict(by_faces, k, fans[k]) == fan_verdict(by_graph, k, fans[k])
        &&& fan_ring(by_faces, k, fans[k]) == fan_ring(by_graph, k, fans[k])
    } by {
        let fan = fans[k];
        let ring = sorted_ring(fan);
        lemma_fan_ring(by_faces, k, fan);
        assert(fan_fits(fans, k, neighbors_of(g, k)));
        lemma_same_bridges(faces, k, ring);
    }
    assert(swept_graph(by_faces, g, vs, fans) =~= swept_graph(by_graph, g, vs, fans)) by {
        assert forall|k: Vid| g.contains_key(k) && vs.contains(k) implies vertex_ring(
            by_faces,
            fans,
            k,
            g[k],
        ) == vertex_ring(by_graph, fans, k, g[k]) by {
            if g[k].len() >= 2 {
                assert(neighbors_of(g, k).len() >= 2);
            }
        }
    }
    assert(swept_border(by_faces, g, vs, fans) =~= swept_border(by_graph, g, vs, fans)) by {
        assert forall|k: Vid| vs.contains(k) implies vertex_verdict(
            by_faces,
            fans,
            k,
            neighbors_of(g, k),
        ) == vertex_verdict(by_graph, fans, k, neighbors_of(g, k)) by {}
    }
}

/// Whether no edge lies in more than two triangles of the set.
pub open spec fn two_faces_per_edge(faces: Set<(Vid, Vid, Vid)>) -> bool {
    forall|a: Vid, b: Vid, f1: (Vid, Vid, Vid), f2: (Vid, Vid, Vid), f3: (Vid, Vid, Vid)|
        #![trigger corners_apart(f1, a, b), corners_apart(f2, a, b), corners_apart(f3, a, b)]
        faces.contains(f1) && faces.contains(f2) && faces.contains(f3) && corners_apart(f1, a, b)
            && corners_apart(f2, a, b) && corners_apart(f3, a, b) ==> f1 == f2 || f1 == f3 || f2
            == f3
}

/// Whether at most one triangle of the set has both `a` and `b` as corners.
pub open spec fn one_face_at(faces: Set<(Vid, Vid, Vid)>, a: Vid, b: Vid) -> bool {
    forall|f1: (Vid, Vid, Vid), f2: (Vid, Vid, Vid)|
        #![trigger corners_apart(f1, a, b), corners_apart(f2, a, b)]
        faces.contains(f1) && faces.contains(f2) && corners_apart(f1, a, b) && corners_apart(
            f2,
            a,
            b,
        ) ==> f1 == f2
}

/// Whether every triangle of the list has three different corners in
/// ascending order.
pub open spec fn proper_faces(faces: Seq<[Vid; 3]>) -> bool {
    forall|i: int|
        0 <= i < faces.len() ==> triple(#[trigger] faces[i]).0 < triple(faces[i]).1 && triple(
            faces[i],
        ).1 < triple(faces[i]).2
}

/// Whether the sweep by triangles finds every vertex of `vs` interior or on
/// the border with one gap, and each of the two edges at a gap lies in no
/// more than one triangle.
pub open spec fn bordered_mesh(faces: Seq<[Vid; 3]>, vs: Set<Vid>, fans: Map<Vid, FanView>) -> bool {
    forall|k: Vid|
        #![trigger vs.contains(k)]
        vs.contains(k) ==> {
            let by_faces = face_bridge(face_set(faces));
            let verdict = vertex_verdict(by_faces, fans, k, neighbors_of(face_graph(faces), k));
            let ring = sorted_ring(fans[k]);
            &&& verdict.class != VertexClass::Invalid
            &&& !verdict.multiple_gaps
            &&& forall|i: int|
                0 <= i < ring.len() && ring.len() >= 3 && !#[trigger] ring_bridges(
                    by_faces,
                    k,
                    ring,
                )[i] ==> one_face_at(face_set(faces), k, ring[i]) && one_face_at(
                    face_set(faces),
                    k,
                    ring[successor(i, ring.len() as int)],
                )
        }
}

/// The third corner of a proper triangle that has `k` and `a` as corners,
/// and that the triangle is the canonical triangle of the three.
proof fn lemma_other_corner(t: (Vid, Vid, Vid), k: Vid, a: Vid) -> (c: Vid)
    requires
        t.0 < t.1 < t.2,
        corners_apart(t, k, a),
    ensures
        c != k,
        c != a,
        k != a,
        corners_apart(t, k, c),
        corners_apart(t, a, c),
        t == canonical_face(k, a, c),
        t == canonical_face(a, c, k),
        t == canonical_face(c, a, k),
{
    if t.0 != k && t.0 != a {
        t.0
    } else if t.1 != k && t.1 != a {
        t.1
    } else {
        t.2
    }
}

/// For a manifold mesh with a border the rebuild from the graph of the
/// triangles finds exactly the triangles, and leaves the rings and the
/// border that the rebuild from the triangles leaves.
///
/// The mesh is given by a list of proper triangles whose corners are
/// vertices. It is a manifold with a border where no edge lies in more than
/// two triangles, no triangle of edges is left hollow, and the sweep by
/// triangles finds every vertex interior or on the border with one gap
/// whose two edges lie in one triangle each.
pub proof fn bordered_mesh_gives_its_triangles(
    m: Model,
    faces: Seq<[Vid; 3]>,
    fans: Map<Vid, FanView>,
)
    requires
        proper_faces(faces),
        forall|i: int, v: Vid|
            0 <= i < faces.len() && has_corner(triple(#[trigger] faces[i]), v)
                ==> #[trigger] m.vs.contains_key(v),
        two_faces_per_edge(face_set(faces)),
        no_hollow_triangle(faces),
        sound(face_graph(faces), m.vs.dom(), fans),
        bordered_mesh(faces, m.vs.dom(), fans),
    ensures
        rebuilt_from_graph(Model { neigh: face_graph(faces), ..m }, fans).fs == face_set(faces),
        rebuilt_from_graph(Model { neigh: face_graph(faces), ..m }, fans).neigh
            == rebuilt_from_faces(m, faces, fans).neigh,
        rebuilt_from_graph(Model { neigh: face_graph(faces), ..m }, fans).border
            == rebuilt_from_faces(m, faces, fans).border,
{
    let given = face_set(faces);
    let g = face_graph(faces);
    let vs = m.vs.dom();
    let by_faces = face_bridge(given);
    let by_graph = graph_bridge(g);
    let found = rebuilt_from_graph(Model { neigh: g, ..m }, fans).fs;
    directions_agree(m, faces, fans);
    lemma_sound_fans_fit(g, vs, fans);
    lemma_face_graph(faces);
    // what the sweep finds around each vertex
    assert forall|k: Vid| #![trigger vs.contains(k)] vs.contains(k) implies {
        let ring = sorted_ring(fans[k]);
        &&& neighbors_of(g, k).len() >= 2
        &&& ring.len() == neighbors_of(g, k).len()
        &&& ring.no_duplicates()
        &&& !ring.contains(k)
        &&& ring_bridges(by_graph, k, ring) == ring_bridges(by_faces, k, ring)
        &&& fan_verdict(by_graph, k, fans[k]).class != VertexClass::Invalid
        &&& (ring.len() >= 3 ==> !has_two_gaps(ring_bridges(by_faces, k, ring)))
        &&& (forall|v: Vid| #![trigger ring.contains(v)] ring.contains(v) <==> linked(g, k, v))
    } by {
        let n = neighbors_of(g, k);
        let fan = fans[k];
        let ring = sorted_ring(fan);
        let verdict = vertex_verdict(by_faces, fans, k, n);
        assert(verdict.class != VertexClass::Invalid);
        assert(n.len() >= 2);
        assert(fan_fits(fans, k, n));
        lemma_ring_targets(fan.spokes);
        lemma_fan_ring(by_faces, k, fan);
        assert(strictly_ascending(n));
        assert(n.no_duplicates());
        lemma_same_bridges(faces, k, ring);
        lemma_small_rings(ring_bridges(by_faces, k, ring), fan.positive);
    }
    assert forall|f: (Vid, Vid, Vid)| found.contains(f) <==> given.contains(f) by {
        if found.contains(f) {
            let k = choose|k: Vid|
                vs.contains(k) && #[trigger] vertex_proposes(
                    by_graph,
                    fans,
                    k,
                    neighbors_of(g, k),
                    f,
                );
            let ring = sorted_ring(fans[k]);
            let len = ring.len() as int;
            let i = choose|i: int|
                proposed_at(ring_bridges(by_graph, k, ring), i) && f == proposal(k, ring, i);
            let a = ring[i];
            let b = ring[successor(i, len)];
            assert(ring.contains(a) && ring.contains(b));
            lemma_canonical_face(a, b, k);
            if len == 2 {
                assert(linked(g, k, a));
                assert(share_face(faces, k, a));
                let j = choose|j: int|
                    0 <= j < faces.len() && corners_apart(triple(#[trigger] faces[j]), k, a);
                let c = lemma_other_corner(triple(faces[j]), k, a);
                assert(share_face(faces, k, c));
                assert(linked(g, k, c));
                assert(ring.contains(c));
                let w = ring.index_of(c);
                assert(c == b);
                assert(given.contains(triple(faces[j])));
            } else {
                assert(ring_bridges(by_faces, k, ring)[i]);
                assert(given.contains(canonical_face(k, a, b)));
            }
        }
        if given.contains(f) {
            let j = choose|j: int| 0 <= j < faces.len() && triple(#[trigger] faces[j]) == f;
            let k = f.0;
            let b = f.1;
            assert(has_corner(triple(faces[j]), k));
            assert(vs.contains(k));
            let ring = sorted_ring(fans[k]);
            let len = ring.len() as int;
            let by = ring_bridges(by_faces, k, ring);
            assert(corners_apart(f, k, b));
            let c = lemma_other_corner(f, k, b);
            assert(share_face(faces, k, b) && share_face(faces, k, c));
            assert(linked(g, k, b) && linked(g, k, c));
            assert(ring.contains(b) && ring.contains(c));
            let i = ring.index_of(b);
            let w = ring.index_of(c);
            if len == 2 {
                assert(w != i);
                assert(proposed_at(ring_bridges(by_graph, k, ring), 0));
                lemma_canonical_face(ring[0], ring[1], k);
                lemma_canonical_face(b, c, k);
                assert(f == proposal(k, ring, 0));
            } else {
                let p = if i == 0 {
                    len - 1
                } else {
                    i - 1
                };
                let s = successor(i, len);
                assert(successor(p, len) == i);
                let f1 = canonical_face(k, ring[p], ring[i]);
                let f2 = canonical_face(k, ring[i], ring[s]);
                lemma_third_corner(k, b, ring[p], ring[s]);
                lemma_third_corner(k, ring[s], b, b);
                lemma_canonical_face(k, ring[p], b);
                lemma_canonical_face(k, b, ring[s]);
                lemma_canonical_face(ring[p], ring[i], k);
                lemma_canonical_face(ring[i], ring[s], k);
                assert(corners_apart(f1, k, b));
                assert(corners_apart(f2, k, b));
                if by[p] && by[i] {
                    assert(given.contains(f1) && given.contains(f2));
                    assert(f1 != f2) by {
                        assert(p != s);
                        assert(ring[p] != ring[s]);
                    }
                    assert(f == f1 || f == f2);
                } else if by[p] {
                    assert(given.contains(f1));
                    assert(one_face_at(given, k, ring[i]));
                    assert(f == f1);
                } else if by[i] {
                    assert(given.contains(f2));
                    assert(!by[p]);
                    assert(one_face_at(given, k, ring[successor(p, len)]));
                    assert(f == f2);
                } else {
                    assert(is_gap(by, p) && is_gap(by, i) && p != i);
                    assert(has_two_gaps(by));
                }
                if f == f1 && by[p] {
                    assert(proposed_at(by, p) && f == proposal(k, ring, p));
                } else {
                    assert(proposed_at(by, i) && f == proposal(k, ring, i));
                }
            }
            assert(fan_proposes(by_graph, k, fans[k], f));
            assert(vertex_proposes(by_graph, fans, k, neighbors_of(g, k), f));
        }
    }
    assert(found =~= given);
}

/// Whether the sweep by triangles finds every vertex of `vs` interior.
pub open spec fn closed_mesh(faces: Seq<[Vid; 3]>, vs: Set<Vid>, fans: Map<Vid, FanView>) -> bool {
    forall|k: Vid|
        vs.contains(k) ==> (#[trigger] vertex_verdict(
            face_bridge(face_set(faces)),
            fans,
            k,
            neighbors_of(face_graph(faces), k),
        )).class == VertexClass::Interior
}

/// Around an interior vertex every pair of consecutive neighbours is joined,
/// the vertex is not its own neighbour, and its ring is the ordered ring.
proof fn lemma_interior(bridge: spec_fn(Vid, Vid, Vid) -> bool, k: Vid, fan: FanView)
    requires
        fan_verdict(bridge, k, fan).class == VertexClass::Interior,
    ensures
        !targets(fan.spokes).contains(k),
        !fan.undefined,
        sorted_ring(fan).len() >= 3,
        sorted_ring(fan).len() == fan.spokes.len(),
        fan_ring(bridge, k, fan) == sorted_ring(fan),
        forall|i: int|
            0 <= i < sorted_ring(fan).len() ==> #[trigger] ring_bridges(
                bridge,
                k,
                sorted_ring(fan),
            )[i],
{
    let ring = sorted_ring(fan);
    let bridged = ring_bridges(bridge, k, ring);
    lemma_ring_targets(fan.spokes);
    lemma_rotated(ring, 0);
    assert forall|i: int| 0 <= i < ring.len() implies #[trigger] bridged[i] by {
        if !bridged[i] {
            assert(is_gap(bridged, i));
        }
    }
}

/// Two canonical triangles that share two corners and are equal share the
/// third, and each of two corners of a canonical triangle stands at a place
/// of its own.
proof fn lemma_third_corner(a: Vid, b: Vid, x: Vid, y: Vid)
    ensures
        canonical_face(a, x, b) == canonical_face(a, b, y) ==> x == y,
        corners_apart(canonical_face(a, x, b), x, b),
        corners_apart(canonical_face(a, x, b), a, x),
        corners_apart(canonical_face(a, x, b), a, b),
{
    let f = canonical_face(a, x, b);
    let h = canonical_face(a, b, y);
    assert(f.0 + f.1 + f.2 == a + x + b);
    assert(h.0 + h.1 + h.2 == a + b + y);
}

/// Where the neighbour list of the second run is the ordered ring of the
/// first and both measure by `angle`, the second run orders the ring as the
/// first did.
proof fn lemma_ordered_again(
    k: Vid,
    first: FanView,
    second: FanView,
    angle: spec_fn(Vid, Vid) -> i32,
)
    requires
        targets(second.spokes) == sorted_ring(first),
        measured_by(first, k, angle),
        measured_by(second, k, angle),
    ensures
        sorted_ring(second) == sorted_ring(first),
{
    let ordered = ring_order(first.spokes);
    lemma_ring_order(first.spokes);
    lemma_ring_angles(first.spokes);
    assert(targets(second.spokes).len() == second.spokes.len());
    assert(second.spokes =~= ordered) by {
        assert forall|i: int| 0 <= i < ordered.len() implies second.spokes[i] == ordered[i] by {
            assert(targets(second.spokes)[i] == targets(ordered)[i]);
            assert(ordered.contains(ordered[i]));
            assert(first.spokes.contains(ordered[i]));
            let p = first.spokes.index_of(ordered[i]);
            assert(first.spokes[p].angle == angle(k, first.spokes[p].to));
        }
    }
    lemma_ring_order_of_ascending(second.spokes);
}

/// For a closed mesh the way from the triangles to the graph and back gives
/// the triangles again.
///
/// The mesh is given by a list of triangles in canonical form whose corners
/// are vertices. It is closed where the rebuild from the triangles finds
/// every vertex interior, and a manifold where no edge lies in more than two
/// triangles. `angle` gives the angle of the direction from a vertex to a
/// neighbour, and both rebuilds measure by it and agree on where it is
/// undefined.
pub proof fn closed_mesh_round_trips(
    m: Model,
    faces: Seq<[Vid; 3]>,
    first: Map<Vid, FanView>,
    second: Map<Vid, FanView>,
    angle: spec_fn(Vid, Vid) -> i32,
)
    requires
        forall|i: int| 0 <= i < faces.len() ==> ascending(triple(#[trigger] faces[i])),
        forall|i: int, v: Vid|
            0 <= i < faces.len() && has_corner(triple(#[trigger] faces[i]), v)
                ==> #[trigger] m.vs.contains_key(v),
        two_faces_per_edge(face_set(faces)),
        sound(face_graph(faces), m.vs.dom(), first),
        closed_mesh(faces, m.vs.dom(), first),
        sound(rebuilt_from_faces(m, faces, first).neigh, m.vs.dom(), second),
        forall|k: Vid|
            #![trigger m.vs.contains_key(k)]
            m.vs.contains_key(k) ==> measured_by(first[k], k, angle) && measured_by(
                second[k],
                k,
                angle,
            ) && second[k].undefined == first[k].undefined,
    ensures
        rebuilt_from_graph(rebuilt_from_faces(m, faces, first), second).fs == face_set(faces),
        rebuilt_from_graph(rebuilt_from_faces(m, faces, first), second).border == Set::<
            Vid,
        >::empty(),
        rebuilt_from_graph(rebuilt_from_faces(m, faces, first), second).neigh
            == rebuilt_from_faces(m, faces, first).neigh,
{
    let given = face_set(faces);
    let g = face_graph(faces);
    let vs = m.vs.dom();
    let by_faces = face_bridge(given);
    let once = rebuilt_from_faces(m, faces, first);
    let h = once.neigh;
    let by_graph = graph_bridge(h);
    let twice = rebuilt_from_graph(once, second);
    lemma_sound_fans_fit(g, vs, first);
    lemma_sound_fans_fit(h, vs, second);
    lemma_swept_links(by_faces, g, vs, first);
    lemma_face_graph(faces);
    // what the first sweep leaves around each vertex, and what the second finds there
    assert forall|k: Vid| vs.contains(k) implies {
        let ring = sorted_ring(first[k]);
        &&& neighbors_of(g, k).len() >= 2
        &&& neighbors_of(h, k) == ring
        &&& ring.len() >= 3
        &&& ring.no_duplicates()
        &&& !ring.contains(k)
        &&& sorted_ring(second[k]) == ring
        &&& forall|i: int|
            0 <= i < ring.len() ==> given.contains(
                canonical_face(k, #[trigger] ring[i], ring[successor(i, ring.len() as int)]),
            )
        &&& forall|i: int|
            0 <= i < ring.len() ==> #[trigger] ring_bridges(by_graph, k, ring)[i]
        &&& fan_verdict(by_graph, k, second[k]).class == VertexClass::Interior
        &&& (forall|v: Vid| #![trigger ring.contains(v)] ring.contains(v) <==> linked(g, k, v))
    } by {
        let n = neighbors_of(g, k);
        let fan = first[k];
        let ring = sorted_ring(fan);
        let verdict = vertex_verdict(by_faces, first, k, n);
        assert(verdict.class == VertexClass::Interior);
        assert(n.len() >= 2);
        assert(g.contains_key(k));
        assert(fan_fits(first, k, n));
        lemma_interior(by_faces, k, fan);
        lemma_ring_targets(fan.spokes);
        lemma_fan_ring(by_faces, k, fan);
        assert(neighbors_of(h, k) == ring);
        assert(strictly_ascending(n));
        assert(n.no_duplicates());
        assert(fan_fits(second, k, ring));
        lemma_ordered_again(k, fan, second[k], angle);
        let bridged_faces = ring_bridges(by_faces, k, ring);
        let bridged_graph = ring_bridges(by_graph, k, ring);
        assert forall|i: int| 0 <= i < ring.len() implies given.contains(
            canonical_face(k, #[trigger] ring[i], ring[successor(i, ring.len() as int)]),
        ) by {
            assert(bridged_faces[i]);
        }
        assert forall|i: int| 0 <= i < ring.len() implies #[trigger] bridged_graph[i] by {
            let a = ring[i];
            let b = ring[successor(i, ring.len() as int)];
            let f = canonical_face(k, a, b);
            assert(given.contains(f));
            let j = choose|j: int| 0 <= j < faces.len() && triple(#[trigger] faces[j]) == f;
            lemma_third_corner(k, b, a, a);
            assert(corners_apart(f, a, b));
            assert(share_face(faces, a, b));
            assert(linked(g, a, b));
            assert(linked(h, a, b));
        }
        assert(!targets(second[k].spokes).contains(k));
        let second_bridged = ring_bridges(by_graph, k, sorted_ring(second[k]));
        assert(!has_gap(second_bridged)) by {
            if has_gap(second_bridged) {
                let i = choose|i: int| is_gap(second_bridged, i);
                assert(bridged_graph[i]);
            }
        }
    }
    assert(twice.border =~= Set::<Vid>::empty()) by {
        assert forall|k: Vid| !twice.border.contains(k) by {
            if vs.contains(k) {
                assert(sorted_ring(second[k]) == sorted_ring(first[k]));
            }
        }
    }
    assert(twice.neigh =~= h) by {
        assert forall|k: Vid| h.contains_key(k) implies twice.neigh[k] == h[k] by {
            if vs.contains(k) {
                assert(sorted_ring(second[k]) == sorted_ring(first[k]));
                lemma_interior(by_graph, k, second[k]);
            }
        }
    }
    assert forall|f: (Vid, Vid, Vid)| twice.fs.contains(f) <==> given.contains(f) by {
        if twice.fs.contains(f) {
            let k = choose|k: Vid|
                vs.contains(k) && #[trigger] vertex_proposes(
                    by_graph,
                    second,
                    k,
                    neighbors_of(h, k),
                    f,
                );
            let ring = sorted_ring(first[k]);
            assert(sorted_ring(second[k]) == ring);
            let i = choose|i: int|
                proposed_at(ring_bridges(by_graph, k, ring), i) && f == proposal(k, ring, i);
            let a = ring[i];
            let b = ring[successor(i, ring.len() as int)];
            lemma_canonical_face(a, b, k);
            assert(given.contains(canonical_face(k, a, b)));
        }
        if given.contains(f) {
            let j = choose|j: int| 0 <= j < faces.len() && triple(#[trigger] faces[j]) == f;
            let k = f.0;
            let b = f.1;
            assert(has_corner(triple(faces[j]), k));
            assert(vs.contains(k));
            let ring = sorted_ring(first[k]);
            let len = ring.len() as int;
            assert(sorted_ring(second[k]) == ring);
            assert(corners_apart(f, k, b));
            assert(share_face(faces, k, b));
            assert(linked(g, k, b));
            assert(ring.contains(b));
            let i = ring.index_of(b);
            let p = if i == 0 {
                len - 1
            } else {
                i - 1
            };
            let s = successor(i, len);
            assert(successor(p, len) == i);
            let f1 = canonical_face(k, ring[p], ring[i]);
            let f2 = canonical_face(k, ring[i], ring[s]);
            assert(given.contains(f1));
            assert(given.contains(f2));
            lemma_third_corner(k, b, ring[p], ring[s]);
            lemma_third_corner(k, ring[s], b, b);
            lemma_canonical_face(k, ring[p], b);
            lemma_canonical_face(k, b, ring[s]);
            assert(corners_apart(f1, k, b));
            assert(corners_apart(f2, k, b));
            assert(f1 != f2) by {
                assert(p != s);
                assert(ring[p] != ring[s]);
            }
            assert(f == f1 || f == f2);
            let bridged = ring_bridges(by_graph, k, ring);
            if f == f1 {
                lemma_canonical_face(ring[p], ring[i], k);
                assert(bridged[p]);
                assert(proposed_at(bridged, p) && f == proposal(k, ring, p));
            } else {
                lemma_canonical_face(ring[i], ring[s], k);
                assert(bridged[i]);
                assert(proposed_at(bridged, i) && f == proposal(k, ring, i));
            }
            assert(fan_proposes(by_graph, k, second[k], f));
            assert(vertex_proposes(by_graph, second, k, neighbors_of(h, k), f));
        }
    }
    assert(twice.fs =~= given);
}

/// An edge of one graph is an edge of another that links the same vertices.
proof fn lemma_same_edges(g: Map<Vid, Seq<Vid>>, h: Map<Vid, Seq<Vid>>, vs: Set<Vid>, e: (Vid, Vid))
    requires
        forall|a: Vid, b: Vid| #![trigger linked(h, a, b)] linked(h, a, b) == linked(g, a, b),
    ensures
        is_graph_edge(g, vs, e) ==> is_graph_edge(h, vs, e),
{
    if is_graph_edge(g, vs, e) {
        let k = choose|k: Vid| vs.contains(k) && #[trigger] edge_at(k, neighbors_of(g, k), e);
        let n = neighbors_of(g, k);
        let i = choose|i: int|
            0 <= i < n.len() && n[i] != k && e == canonical_edge(k, #[trigger] n[i]);
        assert(n.contains(n[i]));
        assert(linked(g, k, n[i]));
        assert(linked(h, k, n[i]));
        let n2 = neighbors_of(h, k);
        let j = n2.index_of(n[i]);
        assert(n2[j] != k && e == canonical_edge(k, n2[j]));
        assert(edge_at(k, n2, e));
    }
}

} // verus!
