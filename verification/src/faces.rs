//! From an explicit triangle list to the adjacency graph and the constraint
//! table that it implies.
use vstd::prelude::*;
use std::collections::HashMap;
use crate::constraints::{DistanceConstraints, DEFAULT_DISTANCE};
use crate::edge::{canonical_edge, sort_edge, triple, Vid};
use crate::graph::{
    add_arc, graph_view, lemma_squashed, linked, neighbors_of, squash_graph, squashed,
    squashed_graph, strictly_ascending, with_arc,
};

verus! {

/// The graph with each corner of `f` linked to the other two.
pub open spec fn with_face(g: Map<Vid, Seq<Vid>>, f: (Vid, Vid, Vid)) -> Map<Vid, Seq<Vid>> {
    let g0 = with_arc(with_arc(g, f.0, f.1), f.0, f.2);
    let g1 = with_arc(with_arc(g0, f.1, f.0), f.1, f.2);
    with_arc(with_arc(g1, f.2, f.0), f.2, f.1)
}

/// The links of all triangles of the list, in the order of the list.
pub open spec fn raw_face_graph(fs: Seq<[Vid; 3]>) -> Map<Vid, Seq<Vid>>
    decreases fs.len(),
{
    if fs.len() == 0 {
        Map::empty()
    } else {
        with_face(raw_face_graph(fs.drop_last()), triple(fs.last()))
    }
}

/// The graph of a triangle list: each corner of a triangle is a neighbour of
/// the other two, and every neighbour list is ascending without repetition.
pub open spec fn face_graph(fs: Seq<[Vid; 3]>) -> Map<Vid, Seq<Vid>> {
    squashed_graph(raw_face_graph(fs))
}

/// Whether `e` is the canonical form of one of the three edges of `f`.
pub open spec fn edge_of_face(f: (Vid, Vid, Vid), e: (Vid, Vid)) -> bool {
    e == canonical_edge(f.0, f.1) || e == canonical_edge(f.0, f.2) || e == canonical_edge(f.1, f.2)
}

/// Whether `e` is the canonical form of an edge of a triangle of the list.
pub open spec fn face_edge(fs: Seq<[Vid; 3]>, e: (Vid, Vid)) -> bool {
    exists|i: int| 0 <= i < fs.len() && edge_of_face(triple(#[trigger] fs[i]), e)
}

/// The table that gives every edge of every triangle the default distance.
pub open spec fn face_constraints(fs: Seq<[Vid; 3]>) -> Map<(Vid, Vid), u32> {
    Map::new(|e: (Vid, Vid)| face_edge(fs, e), |e: (Vid, Vid)| DEFAULT_DISTANCE)
}

/// Whether `a` and `b` stand at two different corners of `f`.
pub open spec fn corners_apart(f: (Vid, Vid, Vid), a: Vid, b: Vid) -> bool {
    ||| f.0 == a && (f.1 == b || f.2 == b)
    ||| f.1 == a && (f.0 == b || f.2 == b)
    ||| f.2 == a && (f.0 == b || f.1 == b)
}

/// Whether `a` and `b` stand at two different corners of a triangle of the list.
pub open spec fn share_face(fs: Seq<[Vid; 3]>, a: Vid, b: Vid) -> bool {
    exists|i: int| 0 <= i < fs.len() && corners_apart(triple(#[trigger] fs[i]), a, b)
}

proof fn lemma_with_arc(g: Map<Vid, Seq<Vid>>, a: Vid, b: Vid)
    ensures
        forall|x: Vid, y: Vid|
            #![trigger linked(with_arc(g, a, b), x, y)]
            linked(with_arc(g, a, b), x, y) <==> linked(g, x, y) || (x == a && y == b),
{
    let h = with_arc(g, a, b);
    assert forall|x: Vid, y: Vid| #![trigger linked(h, x, y)] linked(h, x, y) <==> linked(g, x, y)
        || (x == a && y == b) by {
        let old_list = neighbors_of(g, a);
        let new_list = old_list.push(b);
        if x == a {
            assert(neighbors_of(h, a) == new_list);
            if new_list.contains(y) {
                let i = new_list.index_of(y);
                if i < old_list.len() {
                    assert(old_list[i] == y);
                }
            }
            if old_list.contains(y) {
                let i = old_list.index_of(y);
                assert(new_list[i] == y);
            }
            if y == b {
                assert(new_list[new_list.len() - 1] == b);
            }
        } else {
            assert(neighbors_of(h, x) == neighbors_of(g, x));
        }
    }
}

proof fn lemma_with_face(g: Map<Vid, Seq<Vid>>, f: (Vid, Vid, Vid))
    ensures
        forall|x: Vid, y: Vid|
            #![trigger linked(with_face(g, f), x, y)]
            linked(with_face(g, f), x, y) <==> linked(g, x, y) || corners_apart(f, x, y),
{
    let g0 = with_arc(g, f.0, f.1);
    let g1 = with_arc(g0, f.0, f.2);
    let g2 = with_arc(g1, f.1, f.0);
    let g3 = with_arc(g2, f.1, f.2);
    let g4 = with_arc(g3, f.2, f.0);
    let g5 = with_arc(g4, f.2, f.1);
    lemma_with_arc(g, f.0, f.1);
    lemma_with_arc(g0, f.0, f.2);
    lemma_with_arc(g1, f.1, f.0);
    lemma_with_arc(g2, f.1, f.2);
    lemma_with_arc(g3, f.2, f.0);
    lemma_with_arc(g4, f.2, f.1);
    assert(with_face(g, f) == g5);
    assert forall|x: Vid, y: Vid| #![trigger linked(g5, x, y)] linked(g5, x, y) <==> linked(g, x, y)
        || corners_apart(f, x, y) by {
        assert(linked(g5, x, y) <==> linked(g4, x, y) || (x == f.2 && y == f.1));
        assert(linked(g4, x, y) <==> linked(g3, x, y) || (x == f.2 && y == f.0));
        assert(linked(g3, x, y) <==> linked(g2, x, y) || (x == f.1 && y == f.2));
        assert(linked(g2, x, y) <==> linked(g1, x, y) || (x == f.1 && y == f.0));
        assert(linked(g1, x, y) <==> linked(g0, x, y) || (x == f.0 && y == f.2));
        assert(linked(g0, x, y) <==> linked(g, x, y) || (x == f.0 && y == f.1));
    }
}

proof fn lemma_raw_face_graph(fs: Seq<[Vid; 3]>)
    ensures
        forall|x: Vid, y: Vid|
            #![trigger linked(raw_face_graph(fs), x, y)]
            linked(raw_face_graph(fs), x, y) <==> share_face(fs, x, y),
    decreases fs.len(),
{
    let g = raw_face_graph(fs);
    if fs.len() == 0 {
        assert forall|x: Vid, y: Vid| #![trigger linked(g, x, y)] !linked(g, x, y) by {
            assert(neighbors_of(g, x).len() == 0);
        }
    } else {
        let front = fs.drop_last();
        let f = triple(fs.last());
        lemma_raw_face_graph(front);
        lemma_with_face(raw_face_graph(front), f);
        assert forall|x: Vid, y: Vid| #![trigger linked(g, x, y)] linked(g, x, y) <==> share_face(
            fs,
            x,
            y,
        ) by {
            if share_face(front, x, y) {
                let i = choose|i: int|
                    0 <= i < front.len() && corners_apart(triple(#[trigger] front[i]), x, y);
                assert(corners_apart(triple(fs[i]), x, y));
            }
            if corners_apart(f, x, y) {
                assert(corners_apart(triple(fs[fs.len() - 1]), x, y));
            }
            if share_face(fs, x, y) {
                let i = choose|i: int|
                    0 <= i < fs.len() && corners_apart(triple(#[trigger] fs[i]), x, y);
                if i < front.len() {
                    assert(corners_apart(triple(front[i]), x, y));
                }
            }
        }
    }
}

/// In the graph of a triangle list two vertices are neighbours exactly where
/// they stand at two corners of one triangle, and every neighbour list is
/// strictly ascending.
pub proof fn lemma_face_graph(fs: Seq<[Vid; 3]>)
    ensures
        forall|x: Vid, y: Vid|
            #![trigger linked(face_graph(fs), x, y)]
            linked(face_graph(fs), x, y) <==> share_face(fs, x, y),
        forall|k: Vid|
            #![trigger neighbors_of(face_graph(fs), k)]
            strictly_ascending(neighbors_of(face_graph(fs), k)),
{
    let raw = raw_face_graph(fs);
    let g = face_graph(fs);
    lemma_raw_face_graph(fs);
    assert forall|x: Vid, y: Vid| #![trigger linked(g, x, y)] linked(g, x, y) <==> share_face(
        fs,
        x,
        y,
    ) by {
        if raw.contains_key(x) {
            lemma_squashed(raw[x]);
            assert(neighbors_of(g, x) == squashed(raw[x]));
            assert(linked(g, x, y) <==> linked(raw, x, y));
        } else {
            assert(neighbors_of(g, x).len() == 0);
            assert(neighbors_of(raw, x).len() == 0);
            assert(!linked(raw, x, y));
        }
    }
    assert forall|k: Vid| #![trigger neighbors_of(g, k)] strictly_ascending(neighbors_of(g, k)) by {
        if raw.contains_key(k) {
            lemma_squashed(raw[k]);
        }
    }
}

/// The adjacency graph of a triangle list.
pub fn link_faces(fs: &Vec<[Vid; 3]>) -> (graph: HashMap<Vid, Vec<Vid>>)
    ensures
        graph_view(graph@) == face_graph(fs@),
{
    let mut graph: HashMap<Vid, Vec<Vid>> = HashMap::new();
    assert(graph_view(graph@) =~= raw_face_graph(fs@.take(0)));
    let mut i: usize = 0;
    while i < fs.len()
        invariant
            i <= fs.len(),
            graph_view(graph@) == raw_face_graph(fs@.take(i as int)),
        decreases fs.len() - i,
    {
        let f = fs[i];
        add_arc(&mut graph, f[0], f[1]);
        add_arc(&mut graph, f[0], f[2]);
        add_arc(&mut graph, f[1], f[0]);
        add_arc(&mut graph, f[1], f[2]);
        add_arc(&mut graph, f[2], f[0]);
        add_arc(&mut graph, f[2], f[1]);
        proof {
            assert(fs@.take(i + 1).drop_last() =~= fs@.take(i as int));
        }
        i += 1;
    }
    proof {
        assert(fs@.take(fs.len() as int) =~= fs@);
    }
    squash_graph(&mut graph);
    graph
}

/// The table that gives every edge of every triangle the default distance.
pub fn default_constraints(fs: &Vec<[Vid; 3]>) -> (dcs: DistanceConstraints)
    ensures
        dcs@ == face_constraints(fs@),
{
    let mut dcs = DistanceConstraints::new();
    let mut i: usize = 0;
    assert(dcs@ =~= face_constraints(fs@.take(0)));
    while i < fs.len()
        invariant
            i <= fs.len(),
            dcs@ == face_constraints(fs@.take(i as int)),
        decreases fs.len() - i,
    {
        let f = fs[i];
        let ghost seen = fs@.take(i as int);
        let ghost more = fs@.take(i + 1);
        dcs.insert(sort_edge(f[0], f[1]), DEFAULT_DISTANCE);
        dcs.insert(sort_edge(f[0], f[2]), DEFAULT_DISTANCE);
        dcs.insert(sort_edge(f[1], f[2]), DEFAULT_DISTANCE);
        proof {
            assert forall|e: (Vid, Vid)| face_edge(more, e) <==> face_edge(seen, e) || edge_of_face(
                triple(f),
                e,
            ) by {
                if face_edge(more, e) {
                    let j = choose|j: int|
                        0 <= j < more.len() && edge_of_face(triple(#[trigger] more[j]), e);
                    if j < i {
                        assert(edge_of_face(triple(seen[j]), e));
                    }
                }
                if face_edge(seen, e) {
                    let j = choose|j: int|
                        0 <= j < seen.len() && edge_of_face(triple(#[trigger] seen[j]), e);
                    assert(edge_of_face(triple(more[j]), e));
                }
                if edge_of_face(triple(f), e) {
                    assert(edge_of_face(triple(more[i as int]), e));
                }
            }
            assert(dcs@ =~= face_constraints(more));
        }
        i += 1;
    }
    proof {
        assert(fs@.take(fs.len() as int) =~= fs@);
    }
    dcs
}

} // verus!
