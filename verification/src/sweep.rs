//! The sweep around one vertex: its neighbours are put in angular order, each
//! pair of consecutive neighbours is tested for continuity, and the vertex is
//! classified.
use vstd::prelude::*;
use std::collections::HashMap;
use crate::classify::{classify, classify_spec, lemma_small_rings, successor, Verdict, VertexClass};
use crate::edge::{
    ascending, canonical_face, face_set, holds_face, holds_id, lemma_canonical_face,
    lemma_face_set_push, sort_face, triple, Vid,
};
use crate::graph::{graph_view, is_linked, linked};
use crate::ring::{
    lemma_ring_order, order_ring, ring_order, rotate_ring, rotated, spoke_targets, targets, Spoke,
};

verus! {

/// What the geometry says about one vertex.
#[derive(Debug)]
pub struct Fan {
    /// One spoke for each entry of the vertex's neighbour list, in the order
    /// of that list.
    pub spokes: Vec<Spoke>,
    /// For a vertex with two neighbours: whether the signed angular distance
    /// from the neighbour of smaller angle to the other, taken in the range
    /// from minus a half turn (excluded) to a half turn (included), is
    /// positive. It is not read for other vertices.
    pub positive: bool,
    /// Whether the direction to one of the neighbours is undefined, as it is
    /// where the neighbour lies at the position of the vertex. Such a vertex
    /// cannot be swept.
    pub undefined: bool,
}

/// A fan as mathematics.
pub struct FanView {
    /// The spokes in the order of the neighbour list.
    pub spokes: Seq<Spoke>,
    /// The sign of the angular distance across a ring of two.
    pub positive: bool,
    /// Whether a direction is undefined.
    pub undefined: bool,
}

impl View for Fan {
    type V = FanView;

    open spec fn view(&self) -> FanView {
        FanView { spokes: self.spokes@, positive: self.positive, undefined: self.undefined }
    }
}

/// The fans of a table, as mathematics.
pub open spec fn fans_view(fans: Map<Vid, Fan>) -> Map<Vid, FanView> {
    Map::new(|k: Vid| fans.contains_key(k), |k: Vid| fans[k]@)
}

/// How two consecutive neighbours of a vertex are found to be joined.
pub enum Continuity<'a> {
    /// They are joined where the graph lists the second as a neighbour of the
    /// first.
    Graph(&'a HashMap<Vid, Vec<Vid>>),
    /// They are joined where the list holds the canonical triangle of the
    /// vertex and the two.
    Faces(&'a Vec<[Vid; 3]>),
}

/// Continuity by adjacency: `a` and `b` are joined where `g` lists `b` next to `a`.
pub open spec fn graph_bridge(g: Map<Vid, Seq<Vid>>) -> spec_fn(Vid, Vid, Vid) -> bool {
    |k: Vid, a: Vid, b: Vid| linked(g, a, b)
}

/// Continuity by triangles: `a` and `b` are joined around `k` where `faces`
/// holds the canonical triangle of the three.
pub open spec fn face_bridge(faces: Set<(Vid, Vid, Vid)>) -> spec_fn(Vid, Vid, Vid) -> bool {
    |k: Vid, a: Vid, b: Vid| faces.contains(canonical_face(k, a, b))
}

impl<'a> Continuity<'a> {
    /// The test as a predicate on the vertex and two of its neighbours.
    pub open spec fn bridge(&self) -> spec_fn(Vid, Vid, Vid) -> bool {
        match self {
            Continuity::Graph(g) => graph_bridge(graph_view(g@)),
            Continuity::Faces(fs) => face_bridge(face_set(fs@)),
        }
    }

    /// Whether the neighbours `a` and `b` of `k` are joined.
    pub fn joins(&self, k: Vid, a: Vid, b: Vid) -> (joined: bool)
        ensures
            joined == (self.bridge())(k, a, b),
    {
        match self {
            Continuity::Graph(g) => is_linked(g, a, b),
            Continuity::Faces(fs) => {
                let f = sort_face(k, a, b);
                holds_face(fs, &f)
            },
        }
    }
}

/// The verdict on a vertex that is left out of the sweep.
pub open spec fn invalid_verdict() -> Verdict {
    Verdict { class: VertexClass::Invalid, rotation: 0, multiple_gaps: false }
}

/// The neighbours of a fan in ascending order of angle.
pub open spec fn sorted_ring(fan: FanView) -> Seq<Vid> {
    targets(ring_order(fan.spokes))
}

/// For each place of the ring, whether the neighbour there and the one that
/// follows it are joined.
pub open spec fn ring_bridges(bridge: spec_fn(Vid, Vid, Vid) -> bool, k: Vid, ring: Seq<Vid>) -> Seq<
    bool,
> {
    Seq::new(ring.len(), |i: int| bridge(k, ring[i], ring[successor(i, ring.len() as int)]))
}

/// The verdict on vertex `k` with the neighbours of `fan`: invalid where the
/// vertex is its own neighbour or a direction is undefined, else what the
/// continuity of the ordered ring says.
pub open spec fn fan_verdict(bridge: spec_fn(Vid, Vid, Vid) -> bool, k: Vid, fan: FanView) -> Verdict {
    if targets(fan.spokes).contains(k) || fan.undefined {
        invalid_verdict()
    } else {
        classify_spec(ring_bridges(bridge, k, sorted_ring(fan)), fan.positive)
    }
}

/// The neighbour list that vertex `k` is left with: the ordered ring turned
/// to start behind the gap; for an invalid vertex the list as it was.
pub open spec fn fan_ring(bridge: spec_fn(Vid, Vid, Vid) -> bool, k: Vid, fan: FanView) -> Seq<Vid> {
    let verdict = fan_verdict(bridge, k, fan);
    if verdict.class == VertexClass::Invalid {
        targets(fan.spokes)
    } else {
        rotated(sorted_ring(fan), verdict.rotation as int)
    }
}

/// The canonical triangle of `k` and the neighbours at place `i` and behind it.
pub open spec fn proposal(k: Vid, ring: Seq<Vid>, i: int) -> (Vid, Vid, Vid) {
    canonical_face(ring[i], ring[successor(i, ring.len() as int)], k)
}

/// Whether place `i` of a ring gives a triangle: in a ring of two the first
/// place does, in a larger ring every place whose pair is joined.
pub open spec fn proposed_at(bridged: Seq<bool>, i: int) -> bool {
    0 <= i < bridged.len() && if bridged.len() == 2 {
        i == 0
    } else {
        bridged[i]
    }
}

/// Whether the sweep around `k` proposes the triangle `f`.
pub open spec fn fan_proposes(
    bridge: spec_fn(Vid, Vid, Vid) -> bool,
    k: Vid,
    fan: FanView,
    f: (Vid, Vid, Vid),
) -> bool {
    fan_verdict(bridge, k, fan).class != VertexClass::Invalid && exists|i: int|
        proposed_at(ring_bridges(bridge, k, sorted_ring(fan)), i) && f == proposal(
            k,
            sorted_ring(fan),
            i,
        )
}

/// Whether no triangle occurs twice in the list and each is in ascending order.
pub open spec fn tidy_faces(fs: Seq<[Vid; 3]>) -> bool {
    &&& forall|i: int, j: int|
        0 <= i < j < fs.len() ==> triple(#[trigger] fs[i]) != triple(#[trigger] fs[j])
    &&& forall|i: int| 0 <= i < fs.len() ==> ascending(triple(#[trigger] fs[i]))
}

/// The result of the sweep around one vertex.
pub struct Settled {
    /// The neighbour list that the vertex is left with.
    pub ring: Vec<Vid>,
    /// The neighbours in ascending order of angle, before any turn.
    pub sorted: Vec<Vid>,
    /// For each place of `sorted`, whether its pair is joined.
    pub bridged: Vec<bool>,
    /// The class of the vertex and the turn of its ring.
    pub verdict: Verdict,
}

/// For each place of the ring, whether the neighbour there and the one that
/// follows it are joined.
pub fn bridges(how: &Continuity, k: Vid, ring: &Vec<Vid>) -> (bridged: Vec<bool>)
    ensures
        bridged@ == ring_bridges(how.bridge(), k, ring@),
{
    let n = ring.len();
    let mut bridged: Vec<bool> = Vec::new();
    let mut i: usize = 0;
    while i < n
        invariant
            i <= n,
            n == ring.len(),
            bridged@.len() == i,
            forall|j: int|
                0 <= j < i ==> bridged@[j] == (how.bridge())(
                    k,
                    ring@[j],
                    ring@[successor(j, n as int)],
                ),
        decreases n - i,
    {
        let next = if i + 1 == n {
            0
        } else {
            i + 1
        };
        let joined = how.joins(k, ring[i], ring[next]);
        bridged.push(joined);
        i += 1;
    }
    assert(bridged@ =~= ring_bridges(how.bridge(), k, ring@));
    bridged
}

/// Sweeps around vertex `k`: orders its neighbours by angle, tests each
/// consecutive pair, classifies the vertex and turns the ring.
pub fn settle(k: Vid, fan: &Fan, how: &Continuity) -> (out: Settled)
    ensures
        out.verdict == fan_verdict(how.bridge(), k, fan@),
        out.ring@ == fan_ring(how.bridge(), k, fan@),
        out.sorted@ == sorted_ring(fan@),
        out.bridged@ == ring_bridges(how.bridge(), k, sorted_ring(fan@)),
{
    let listed = spoke_targets(&fan.spokes);
    let ordered = order_ring(&fan.spokes);
    let sorted = spoke_targets(&ordered);
    let bridged = bridges(how, k, &sorted);
    proof {
        lemma_ring_order(fan.spokes@);
        lemma_small_rings(bridged@, fan.positive);
    }
    if fan.undefined || holds_id(&listed, k) {
        Settled { ring: listed, sorted, bridged, verdict: Verdict {
            class: VertexClass::Invalid,
            rotation: 0,
            multiple_gaps: false,
        } }
    } else {
        let verdict = classify(&bridged, fan.positive);
        match verdict.class {
            VertexClass::Invalid => Settled { ring: listed, sorted, bridged, verdict },
            _ => {
                let ring = rotate_ring(&sorted, verdict.rotation);
                Settled { ring, sorted, bridged, verdict }
            },
        }
    }
}

/// Adds `f` to the list unless the list holds it.
pub fn add_face(faces: &mut Vec<[Vid; 3]>, f: [Vid; 3])
    requires
        tidy_faces(old(faces)@),
        ascending(triple(f)),
    ensures
        tidy_faces(final(faces)@),
        face_set(final(faces)@) == face_set(old(faces)@).insert(triple(f)),
{
    if !holds_face(faces, &f) {
        faces.push(f);
        proof {
            lemma_face_set_push(old(faces)@, f);
            assert forall|i: int, j: int| 0 <= i < j < faces@.len() implies triple(
                #[trigger] faces@[i],
            ) != triple(#[trigger] faces@[j]) by {
                if j == faces@.len() - 1 {
                    assert(triple(old(faces)@[i]) == triple(faces@[i]));
                } else {
                    assert(triple(old(faces)@[i]) == triple(faces@[i]));
                    assert(triple(old(faces)@[j]) == triple(faces@[j]));
                }
            }
            assert forall|i: int| 0 <= i < faces@.len() implies ascending(
                triple(#[trigger] faces@[i]),
            ) by {
                if i < faces@.len() - 1 {
                    assert(triple(old(faces)@[i]) == triple(faces@[i]));
                }
            }
        }
    } else {
        assert(face_set(faces@) =~= face_set(old(faces)@).insert(triple(f)));
    }
}

/// Adds to the list the triangles that the sweep around `k` found.
pub fn propose(k: Vid, sorted: &Vec<Vid>, bridged: &Vec<bool>, faces: &mut Vec<[Vid; 3]>)
    requires
        sorted.len() == bridged.len(),
        tidy_faces(old(faces)@),
    ensures
        tidy_faces(final(faces)@),
        forall|f: (Vid, Vid, Vid)|
            face_set(final(faces)@).contains(f) <==> face_set(old(faces)@).contains(f) || exists|
                i: int,
            | proposed_at(bridged@, i) && f == proposal(k, sorted@, i),
{
    let n = sorted.len();
    let mut i: usize = 0;
    while i < n
        invariant
            i <= n,
            n == sorted.len(),
            n == bridged.len(),
            tidy_faces(faces@),
            forall|f: (Vid, Vid, Vid)|
                face_set(faces@).contains(f) <==> face_set(old(faces)@).contains(f) || exists|
                    j: int,
                | 0 <= j < i && proposed_at(bridged@, j) && f == proposal(k, sorted@, j),
        decreases n - i,
    {
        let proposed = if n == 2 {
            i == 0
        } else {
            bridged[i]
        };
        if proposed {
            let next = if i + 1 == n {
                0
            } else {
                i + 1
            };
            let f = sort_face(sorted[i], sorted[next], k);
            proof {
                lemma_canonical_face(sorted@[i as int], sorted@[next as int], k);
            }
            let ghost before = faces@;
            add_face(faces, f);
            proof {
                assert forall|g: (Vid, Vid, Vid)|
                    face_set(faces@).contains(g) <==> face_set(old(faces)@).contains(g) || exists|
                        j: int,
                    | 0 <= j < i + 1 && proposed_at(bridged@, j) && g == proposal(k, sorted@, j) by {
                    if face_set(before).contains(g) && !face_set(old(faces)@).contains(g) {
                        let j = choose|j: int|
                            0 <= j < i && proposed_at(bridged@, j) && g == proposal(k, sorted@, j);
                        assert(0 <= j < i + 1 && proposed_at(bridged@, j) && g == proposal(
                            k,
                            sorted@,
                            j,
                        ));
                    }
                    if g == triple(f) {
                        assert(proposed_at(bridged@, i as int) && g == proposal(
                            k,
                            sorted@,
                            i as int,
                        ));
                    }
                    if exists|j: int|
                        0 <= j < i + 1 && proposed_at(bridged@, j) && g == proposal(k, sorted@, j) {
                        let j = choose|j: int|
                            0 <= j < i + 1 && proposed_at(bridged@, j) && g == proposal(
                                k,
                                sorted@,
                                j,
                            );
                        if j < i {
                            assert(face_set(before).contains(g));
                        }
                    }
                }
            }
        } else {
            proof {
                assert forall|g: (Vid, Vid, Vid)|
                    face_set(faces@).contains(g) <==> face_set(old(faces)@).contains(g) || exists|
                        j: int,
                    | 0 <= j < i + 1 && proposed_at(bridged@, j) && g == proposal(k, sorted@, j) by {
                    if exists|j: int|
                        0 <= j < i + 1 && proposed_at(bridged@, j) && g == proposal(k, sorted@, j) {
                        let j = choose|j: int|
                            0 <= j < i + 1 && proposed_at(bridged@, j) && g == proposal(
                                k,
                                sorted@,
                                j,
                            );
                        assert(j < i);
                    }
                    if face_set(faces@).contains(g) && !face_set(old(faces)@).contains(g) {
                        let j = choose|j: int|
                            0 <= j < i && proposed_at(bridged@, j) && g == proposal(k, sorted@, j);
                        assert(0 <= j < i + 1);
                    }
                }
            }
        }
        i += 1;
    }
    proof {
        assert forall|f: (Vid, Vid, Vid)|
            face_set(faces@).contains(f) <==> face_set(old(faces)@).contains(f) || exists|i: int|
                proposed_at(bridged@, i) && f == proposal(k, sorted@, i) by {
            if exists|i: int| proposed_at(bridged@, i) && f == proposal(k, sorted@, i) {
                let j = choose|i: int| proposed_at(bridged@, i) && f == proposal(k, sorted@, i);
                assert(0 <= j < n && proposed_at(bridged@, j) && f == proposal(k, sorted@, j));
            }
            if face_set(faces@).contains(f) && !face_set(old(faces)@).contains(f) {
                let j = choose|j: int|
                    0 <= j < n && proposed_at(bridged@, j) && f == proposal(k, sorted@, j);
                assert(proposed_at(bridged@, j) && f == proposal(k, sorted@, j));
            }
        }
    }
}

} // verus!
