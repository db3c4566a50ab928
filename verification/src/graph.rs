//! The adjacency graph: for each vertex the list of its neighbours.
use vstd::prelude::*;
use std::collections::HashMap;
use vstd::std_specs::hash::obeys_key_model;
use vstd::std_specs::iter::IteratorSpec;
use crate::edge::{holds_id, Vid};

verus! {

/// The graph that a stored adjacency table stands for.
pub open spec fn graph_view(m: Map<Vid, Vec<Vid>>) -> Map<Vid, Seq<Vid>> {
    Map::new(|k: Vid| m.contains_key(k), |k: Vid| m[k]@)
}

/// The neighbours listed for `k`; none where the graph has no entry for it.
pub open spec fn neighbors_of(g: Map<Vid, Seq<Vid>>, k: Vid) -> Seq<Vid> {
    if g.contains_key(k) {
        g[k]
    } else {
        Seq::empty()
    }
}

/// Whether `b` is listed as a neighbour of `a`.
pub open spec fn linked(g: Map<Vid, Seq<Vid>>, a: Vid, b: Vid) -> bool {
    neighbors_of(g, a).contains(b)
}

/// The graph with `b` appended to the neighbours of `a`.
pub open spec fn with_arc(g: Map<Vid, Seq<Vid>>, a: Vid, b: Vid) -> Map<Vid, Seq<Vid>> {
    g.insert(a, neighbors_of(g, a).push(b))
}

/// The graph with the undirected edge between `a` and `b` appended.
pub open spec fn with_link(g: Map<Vid, Seq<Vid>>, a: Vid, b: Vid) -> Map<Vid, Seq<Vid>> {
    with_arc(with_arc(g, a, b), b, a)
}

/// `sorted` with `x` put in its place, unless it is already there.
pub open spec fn insert_id(sorted: Seq<Vid>, x: Vid) -> Seq<Vid>
    decreases sorted.len(),
{
    if sorted.len() == 0 {
        seq![x]
    } else if sorted.last() < x {
        sorted.push(x)
    } else if sorted.last() == x {
        sorted
    } else {
        insert_id(sorted.drop_last(), x).push(sorted.last())
    }
}

/// The identifiers of `ids` in ascending order, each once.
pub open spec fn squashed(ids: Seq<Vid>) -> Seq<Vid>
    decreases ids.len(),
{
    if ids.len() == 0 {
        Seq::empty()
    } else {
        insert_id(squashed(ids.drop_last()), ids.last())
    }
}

/// Whether every identifier of the list is smaller than those behind it.
pub open spec fn strictly_ascending(ids: Seq<Vid>) -> bool {
    forall|i: int, j: int| 0 <= i < j < ids.len() ==> ids[i] < ids[j]
}

/// The graph with every neighbour list sorted and freed of repetitions.
pub open spec fn squashed_graph(g: Map<Vid, Seq<Vid>>) -> Map<Vid, Seq<Vid>> {
    Map::new(|k: Vid| g.contains_key(k), |k: Vid| squashed(g[k]))
}

/// The test for identifiers other than `k`.
pub open spec fn other_than(k: Vid) -> spec_fn(Vid) -> bool {
    |v: Vid| v != k
}

/// The graph in which no vertex lists itself: every list is as it was, but
/// without the vertex whose list it is.
pub open spec fn without_self_loops(g: Map<Vid, Seq<Vid>>) -> Map<Vid, Seq<Vid>> {
    Map::new(|k: Vid| g.contains_key(k), |k: Vid| g[k].filter(other_than(k)))
}

/// A list without `x` holds the other identifiers that it held, and `x` no
/// more; a list that did not hold `x` stays as it is.
pub proof fn lemma_without(ids: Seq<Vid>, x: Vid)
    ensures
        forall|v: Vid|
            #![trigger ids.filter(other_than(x)).contains(v)]
            ids.filter(other_than(x)).contains(v) <==> ids.contains(v) && v != x,
        !ids.contains(x) ==> ids.filter(other_than(x)) == ids,
    decreases ids.len(),
{
    reveal(Seq::filter);
    let out = ids.filter(other_than(x));
    if ids.len() > 0 {
        let front = ids.drop_last();
        let last = ids.last();
        lemma_without(front, x);
        let kept = front.filter(other_than(x));
        assert forall|v: Vid| #![trigger out.contains(v)] out.contains(v) <==> ids.contains(v)
            && v != x by {
            if out.contains(v) {
                let i = out.index_of(v);
                if i < kept.len() {
                    assert(kept[i] == v);
                    assert(kept.contains(v));
                    let j = front.index_of(v);
                    assert(ids[j] == v);
                } else {
                    assert(ids[ids.len() - 1] == v);
                }
            }
            if ids.contains(v) && v != x {
                let j = ids.index_of(v);
                if j < front.len() {
                    assert(front[j] == v);
                    assert(front.contains(v));
                    assert(kept.contains(v));
                    let i = kept.index_of(v);
                    assert(out[i] == v);
                } else {
                    assert(out[out.len() - 1] == v);
                }
            }
        }
        if !ids.contains(x) {
            assert(!front.contains(x)) by {
                if front.contains(x) {
                    let j = front.index_of(x);
                    assert(ids[j] == x);
                }
            }
            assert(ids[ids.len() - 1] != x);
            assert(out =~= ids) by {
                assert(ids =~= front.push(last));
            }
        }
    }
}

proof fn lemma_insert_id_at(sorted: Seq<Vid>, x: Vid, at: int)
    requires
        0 <= at <= sorted.len(),
        forall|i: int| at <= i < sorted.len() ==> sorted[i] > x,
        at == 0 || sorted[at - 1] <= x,
    ensures
        insert_id(sorted, x) == if at > 0 && sorted[at - 1] == x {
            sorted
        } else {
            sorted.insert(at, x)
        },
    decreases sorted.len(),
{
    if sorted.len() == 0 {
        assert(sorted.insert(at, x) =~= seq![x]);
    } else if sorted.len() == at {
        assert(sorted.insert(at, x) =~= sorted.push(x));
    } else {
        let front = sorted.drop_last();
        lemma_insert_id_at(front, x, at);
        assert(sorted.insert(at, x) =~= front.insert(at, x).push(sorted.last()));
        assert(sorted =~= front.push(sorted.last()));
    }
}

/// Inserting keeps the identifiers that were there, adds the new one, and
/// keeps an ascending sequence ascending.
pub proof fn lemma_insert_id(sorted: Seq<Vid>, x: Vid)
    ensures
        forall|v: Vid|
            #![trigger insert_id(sorted, x).contains(v)]
            #![trigger sorted.contains(v)]
            insert_id(sorted, x).contains(v) <==> sorted.contains(v) || v == x,
        strictly_ascending(sorted) ==> strictly_ascending(insert_id(sorted, x)),
    decreases sorted.len(),
{
    let out = insert_id(sorted, x);
    if sorted.len() == 0 {
        assert(out[0] == x);
    } else if sorted.last() < x {
        assert(out[out.len() - 1] == x);
        assert forall|v: Vid| sorted.contains(v) implies out.contains(v) by {
            let i = sorted.index_of(v);
            assert(out[i] == v);
        }
    } else if sorted.last() == x {
        assert(sorted[sorted.len() - 1] == x);
    } else {
        let front = sorted.drop_last();
        let last = sorted.last();
        lemma_insert_id(front, x);
        let ins = insert_id(front, x);
        assert(out == ins.push(last));
        assert forall|v: Vid| out.contains(v) <==> sorted.contains(v) || v == x by {
            if out.contains(v) {
                let i = out.index_of(v);
                if i < ins.len() {
                    assert(ins[i] == v);
                    assert(ins.contains(v));
                    assert(front.contains(v) || v == x);
                    if v != x {
                        let j = front.index_of(v);
                        assert(sorted[j] == v);
                    }
                } else {
                    assert(sorted[sorted.len() - 1] == v);
                }
            }
            if sorted.contains(v) {
                let j = sorted.index_of(v);
                if j < front.len() {
                    assert(front[j] == v);
                    assert(front.contains(v));
                    assert(ins.contains(v));
                    let i = ins.index_of(v);
                    assert(out[i] == v);
                } else {
                    assert(out[out.len() - 1] == v);
                }
            }
            if v == x {
                assert(ins.contains(x));
                let i = ins.index_of(x);
                assert(out[i] == x);
            }
        }
        if strictly_ascending(sorted) {
            assert(strictly_ascending(front));
            assert forall|i: int, j: int| 0 <= i < j < out.len() implies out[i] < out[j] by {
                if j == out.len() - 1 {
                    assert(ins.contains(ins[i]));
                    assert(front.contains(ins[i]) || ins[i] == x);
                    if ins[i] != x {
                        let w = front.index_of(ins[i]);
                        assert(sorted[w] == ins[i]);
                    }
                }
            }
        }
    }
}

/// A squashed list is strictly ascending and names exactly the identifiers
/// of the list it was made from.
pub proof fn lemma_squashed(ids: Seq<Vid>)
    ensures
        strictly_ascending(squashed(ids)),
        forall|v: Vid|
            #![trigger squashed(ids).contains(v)]
            #![trigger ids.contains(v)]
            squashed(ids).contains(v) <==> ids.contains(v),
    decreases ids.len(),
{
    if ids.len() > 0 {
        let front = ids.drop_last();
        lemma_squashed(front);
        lemma_insert_id(squashed(front), ids.last());
        assert forall|v: Vid| squashed(ids).contains(v) <==> ids.contains(v) by {
            if ids.contains(v) {
                let i = ids.index_of(v);
                if i < front.len() {
                    assert(front[i] == v);
                }
            }
            if front.contains(v) {
                let i = front.index_of(v);
                assert(ids[i] == v);
            }
            assert(ids[ids.len() - 1] == ids.last());
        }
    }
}

/// The keys of a table, each once, in no particular order.
pub fn key_list<K: Copy, V>(m: &HashMap<K, V>) -> (keys: Vec<K>)
    requires
        obeys_key_model::<K>(),
    ensures
        keys@.no_duplicates(),
        forall|k: K| keys@.contains(k) <==> m@.contains_key(k),
{
    broadcast use vstd::std_specs::hash::group_hash_axioms;

    let mut keys: Vec<K> = Vec::new();
    for k in it: m.keys()
        invariant
            keys@.len() == it.index(),
            forall|i: int| 0 <= i < keys@.len() ==> keys@[i] == *it.seq()[i],
    {
        keys.push(*k);
    }
    proof {
        let all = m.keys().remaining().unref();
        assert(keys@ =~= all);
        assert forall|k: K| keys@.contains(k) <==> m@.contains_key(k) by {
            assert(all.to_set().contains(k) <==> m@.dom().contains(k));
        }
    }
    keys
}

/// Whether `b` is listed as a neighbour of `a`.
pub fn is_linked(graph: &HashMap<Vid, Vec<Vid>>, a: Vid, b: Vid) -> (found: bool)
    ensures
        found == linked(graph_view(graph@), a, b),
{
    broadcast use vstd::std_specs::hash::group_hash_axioms;

    match graph.get(&a) {
        Some(list) => holds_id(list, b),
        None => {
            assert(!Seq::<Vid>::empty().contains(b));
            false
        },
    }
}

/// Appends `b` to the neighbours of `a`, with a new entry where `a` had none.
pub fn add_arc(graph: &mut HashMap<Vid, Vec<Vid>>, a: Vid, b: Vid)
    ensures
        graph_view(final(graph)@) == with_arc(graph_view(old(graph)@), a, b),
{
    broadcast use vstd::std_specs::hash::group_hash_axioms;

    let mut list = match graph.remove(&a) {
        Some(list) => list,
        None => Vec::new(),
    };
    list.push(b);
    graph.insert(a, list);
    assert(graph_view(graph@) =~= with_arc(graph_view(old(graph)@), a, b));
}

fn place_id(list: &mut Vec<Vid>, x: Vid)
    ensures
        final(list)@ == insert_id(old(list)@, x),
{
    let mut at: usize = list.len();
    while at > 0 && list[at - 1] > x
        invariant
            at <= list.len(),
            list@ == old(list)@,
            forall|i: int| at <= i < list@.len() ==> list@[i] > x,
        decreases at,
    {
        at -= 1;
    }
    proof {
        lemma_insert_id_at(list@, x, at as int);
    }
    if at > 0 && list[at - 1] == x {
    } else {
        list.insert(at, x);
    }
}

/// The identifiers of `ids` in ascending order, each once.
pub fn squash(ids: &Vec<Vid>) -> (out: Vec<Vid>)
    ensures
        out@ == squashed(ids@),
        strictly_ascending(out@),
        forall|v: Vid| #[trigger] out@.contains(v) <==> ids@.contains(v),
{
    let mut out: Vec<Vid> = Vec::new();
    let mut i: usize = 0;
    while i < ids.len()
        invariant
            i <= ids.len(),
            out@ == squashed(ids@.take(i as int)),
        decreases ids.len() - i,
    {
        place_id(&mut out, ids[i]);
        proof {
            assert(ids@.take(i + 1).drop_last() =~= ids@.take(i as int));
        }
        i += 1;
    }
    proof {
        assert(ids@.take(ids.len() as int) =~= ids@);
        lemma_squashed(ids@);
    }
    out
}

/// Sorts every neighbour list and frees it of repetitions.
pub fn squash_graph(graph: &mut HashMap<Vid, Vec<Vid>>)
    ensures
        graph_view(final(graph)@) == squashed_graph(graph_view(old(graph)@)),
{
    broadcast use vstd::std_specs::hash::group_hash_axioms;

    let keys = key_list(graph);
    let ghost before = graph_view(graph@);
    let mut i: usize = 0;
    while i < keys.len()
        invariant
            i <= keys.len(),
            keys@.no_duplicates(),
            forall|k: Vid| keys@.contains(k) <==> before.contains_key(k),
            graph_view(graph@).dom() == before.dom(),
            forall|j: int|
                0 <= j < i ==> graph_view(graph@)[#[trigger] keys@[j]] == squashed(
                    before[keys@[j]],
                ),
            forall|j: int|
                i <= j < keys.len() ==> graph_view(graph@)[#[trigger] keys@[j]]
                    == before[keys@[j]],
        decreases keys.len() - i,
    {
        let k = keys[i];
        assert(keys@.contains(k));
        let ghost mid = graph_view(graph@);
        match graph.remove(&k) {
            Some(list) => {
                let tidy = squash(&list);
                graph.insert(k, tidy);
            },
            None => {},
        }
        proof {
            assert(graph_view(graph@) =~= mid.insert(k, squashed(before[k])));
        }
        i += 1;
    }
    proof {
        let after = graph_view(graph@);
        assert forall|k: Vid| after.contains_key(k) implies after[k] == squashed(before[k]) by {
            assert(keys@.contains(k));
            let j = keys@.index_of(k);
            assert(keys@[j] == k);
        }
        assert(after =~= squashed_graph(before));
    }
}

/// `ids` without `x`, wherever it stands.
pub fn drop_all(ids: &Vec<Vid>, x: Vid) -> (out: Vec<Vid>)
    ensures
        out@ == ids@.filter(other_than(x)),
        forall|v: Vid| #[trigger] out@.contains(v) <==> ids@.contains(v) && v != x,
{
    let mut out: Vec<Vid> = Vec::new();
    let mut i: usize = 0;
    proof {
        reveal(Seq::filter);
        assert(ids@.take(0).filter(other_than(x)) =~= Seq::<Vid>::empty());
    }
    while i < ids.len()
        invariant
            i <= ids.len(),
            out@ == ids@.take(i as int).filter(other_than(x)),
        decreases ids.len() - i,
    {
        proof {
            assert(ids@.take(i + 1) =~= ids@.take(i as int).push(ids@[i as int]));
            ids@.take(i as int).lemma_filter_push(ids@[i as int], other_than(x));
        }
        if ids[i] != x {
            out.push(ids[i]);
        }
        i += 1;
    }
    proof {
        assert(ids@.take(ids.len() as int) =~= ids@);
        lemma_without(ids@, x);
    }
    out
}

} // verus!
