//! The distance-constraint table: a target length for each edge.
use vstd::prelude::*;
use std::collections::HashMap;
use crate::edge::{pair, Vid};
use crate::graph::key_list;

verus! {

/// The distance that an edge gets when none was given: the bit pattern of the
/// IEEE-754 single nearest to one millionth.
pub const DEFAULT_DISTANCE: u32 = 0x3586_37BD;

/// A table from edges, as pairs of vertex identifiers, to target distances.
///
/// A distance is held as the bit pattern of an IEEE-754 single and is never
/// interpreted. The pair `(a, b)` and the pair `(b, a)` are different keys.
#[derive(Debug)]
pub struct DistanceConstraints {
    table: HashMap<u128, u32>,
}

spec fn edge_code(e: (Vid, Vid)) -> u128 {
    (e.0 as int * 0x1_0000_0000_0000_0000 + e.1 as int) as u128
}

spec fn edge_of(code: u128) -> (Vid, Vid) {
    ((code as int / 0x1_0000_0000_0000_0000) as Vid, (code as int % 0x1_0000_0000_0000_0000) as Vid)
}

proof fn lemma_edge_code(e: (Vid, Vid))
    ensures
        edge_of(edge_code(e)) == e,
{
}

proof fn lemma_edge_of(code: u128)
    ensures
        edge_code(edge_of(code)) == code,
{
}

fn code_of(a: Vid, b: Vid) -> (code: u128)
    ensures
        code == edge_code((a, b)),
{
    let hi: u128 = a as u128;
    let lo: u128 = b as u128;
    hi * 0x1_0000_0000_0000_0000u128 + lo
}

fn ends_of(code: u128) -> (e: [Vid; 2])
    ensures
        pair(e) == edge_of(code),
{
    let hi: u128 = code / 0x1_0000_0000_0000_0000u128;
    let lo: u128 = code % 0x1_0000_0000_0000_0000u128;
    [hi as Vid, lo as Vid]
}

impl View for DistanceConstraints {
    type V = Map<(Vid, Vid), u32>;

    closed spec fn view(&self) -> Map<(Vid, Vid), u32> {
        Map::new(
            |e: (Vid, Vid)| self.table@.contains_key(edge_code(e)),
            |e: (Vid, Vid)| self.table@[edge_code(e)],
        )
    }
}

impl Clone for DistanceConstraints {
    fn clone(&self) -> (other: Self)
        ensures
            other@ == self@,
    {
        DistanceConstraints { table: self.table.clone() }
    }
}

impl DistanceConstraints {
    /// A table without entries.
    pub fn new() -> (table: Self)
        ensures
            table@ == Map::<(Vid, Vid), u32>::empty(),
    {
        let table = DistanceConstraints { table: HashMap::new() };
        assert(table@ =~= Map::<(Vid, Vid), u32>::empty());
        table
    }

    /// Whether the table has an entry for `e`.
    pub fn contains(&self, e: &[Vid; 2]) -> (found: bool)
        ensures
            found == self@.contains_key(pair(*e)),
    {
        broadcast use vstd::std_specs::hash::group_hash_axioms;

        let code = code_of(e[0], e[1]);
        self.table.contains_key(&code)
    }

    /// The distance held for `e`.
    pub fn get(&self, e: &[Vid; 2]) -> (distance: Option<u32>)
        ensures
            distance == if self@.contains_key(pair(*e)) {
                Some(self@[pair(*e)])
            } else {
                None
            },
    {
        broadcast use vstd::std_specs::hash::group_hash_axioms;

        let code = code_of(e[0], e[1]);
        match self.table.get(&code) {
            Some(d) => Some(*d),
            None => None,
        }
    }

    /// Sets the distance for `e` and returns the one it had.
    pub fn insert(&mut self, e: [Vid; 2], distance: u32) -> (before: Option<u32>)
        ensures
            final(self)@ == old(self)@.insert(pair(e), distance),
            before == if old(self)@.contains_key(pair(e)) {
                Some(old(self)@[pair(e)])
            } else {
                None
            },
    {
        broadcast use vstd::std_specs::hash::group_hash_axioms;

        let code = code_of(e[0], e[1]);
        let before = self.table.insert(code, distance);
        proof {
            assert forall|f: (Vid, Vid)| edge_code(f) == code implies f == pair(e) by {
                lemma_edge_code(f);
                lemma_edge_code(pair(e));
            }
            assert(self@ =~= old(self)@.insert(pair(e), distance));
        }
        before
    }

    /// Removes the entry for `e` and returns the distance it had.
    pub fn remove(&mut self, e: &[Vid; 2]) -> (before: Option<u32>)
        ensures
            final(self)@ == old(self)@.remove(pair(*e)),
            before == if old(self)@.contains_key(pair(*e)) {
                Some(old(self)@[pair(*e)])
            } else {
                None
            },
    {
        broadcast use vstd::std_specs::hash::group_hash_axioms;

        let code = code_of(e[0], e[1]);
        let before = self.table.remove(&code);
        proof {
            assert forall|f: (Vid, Vid)| edge_code(f) == code implies f == pair(*e) by {
                lemma_edge_code(f);
                lemma_edge_code(pair(*e));
            }
            assert(self@ =~= old(self)@.remove(pair(*e)));
        }
        before
    }

    /// Removes every entry.
    pub fn clear(&mut self)
        ensures
            final(self)@ == Map::<(Vid, Vid), u32>::empty(),
    {
        self.table.clear();
        assert(self@ =~= Map::<(Vid, Vid), u32>::empty());
    }

    /// The edges that have an entry, each once, in no particular order.
    pub fn edges(&self) -> (edges: Vec<[Vid; 2]>)
        ensures
            forall|e: (Vid, Vid)|
                self@.contains_key(e) <==> exists|i: int|
                    0 <= i < edges@.len() && pair(#[trigger] edges@[i]) == e,
            forall|i: int, j: int|
                0 <= i < j < edges@.len() ==> pair(#[trigger] edges@[i]) != pair(
                    #[trigger] edges@[j],
                ),
    {
        let codes = key_list(&self.table);
        let mut edges: Vec<[Vid; 2]> = Vec::new();
        let mut i: usize = 0;
        while i < codes.len()
            invariant
                i <= codes.len(),
                edges@.len() == i,
                forall|j: int| 0 <= j < i ==> pair(#[trigger] edges@[j]) == edge_of(codes@[j]),
            decreases codes.len() - i,
        {
            let e = ends_of(codes[i]);
            edges.push(e);
            i += 1;
        }
        proof {
            assert forall|e: (Vid, Vid)| self@.contains_key(e) implies exists|i: int|
                0 <= i < edges@.len() && pair(#[trigger] edges@[i]) == e by {
                assert(codes@.contains(edge_code(e)));
                let i = codes@.index_of(edge_code(e));
                lemma_edge_code(e);
                assert(pair(edges@[i]) == e);
            }
            assert forall|e: (Vid, Vid)|
                (exists|i: int|
                    0 <= i < edges@.len() && pair(#[trigger] edges@[i]) == e) implies self@.contains_key(
                e,
            ) by {
                let i = choose|i: int| 0 <= i < edges@.len() && pair(#[trigger] edges@[i]) == e;
                lemma_edge_of(codes@[i]);
                assert(codes@.contains(codes@[i]));
            }
            assert forall|i: int, j: int| 0 <= i < j < edges@.len() implies pair(
                #[trigger] edges@[i],
            ) != pair(#[trigger] edges@[j]) by {
                lemma_edge_of(codes@[i]);
                lemma_edge_of(codes@[j]);
            }
        }
        edges
    }
}

} // verus!
