//! Classification of a vertex from its angularly ordered ring.
use vstd::prelude::*;

verus! {

/// What the ring of a vertex says about the vertex.
#[derive(Clone, Copy, Debug, PartialEq, Eq, Structural)]
pub enum VertexClass {
    /// The triangles around the vertex form a closed fan.
    Interior,
    /// The fan around the vertex is open: the mesh boundary passes through it.
    Border,
    /// The vertex has fewer than two neighbours or is its own neighbour.
    Invalid,
}

/// The outcome of classifying one ring.
#[derive(Clone, Copy, Debug, PartialEq, Eq, Structural)]
pub struct Verdict {
    /// Interior, border or invalid.
    pub class: VertexClass,
    /// How far the ordered ring is turned left, so that it starts behind the gap.
    pub rotation: usize,
    /// Whether the ring has more than one gap.
    pub multiple_gaps: bool,
}

/// The place that follows place `i` in a ring of `n`: the first follows the
/// last.
pub open spec fn successor(i: int, n: int) -> int {
    if i + 1 == n {
        0
    } else {
        i + 1
    }
}

/// Whether the pair that starts at place `i` of the ring is a gap.
pub open spec fn is_gap(bridged: Seq<bool>, i: int) -> bool {
    0 <= i < bridged.len() && !bridged[i]
}

/// Whether `i` is a gap and no place before it is one.
pub open spec fn is_first_gap(bridged: Seq<bool>, i: int) -> bool {
    is_gap(bridged, i) && forall|j: int| 0 <= j < i ==> bridged[j]
}

/// Whether the ring has a gap.
pub open spec fn has_gap(bridged: Seq<bool>) -> bool {
    exists|i: int| is_gap(bridged, i)
}

/// Whether the ring has more than one gap.
pub open spec fn has_two_gaps(bridged: Seq<bool>) -> bool {
    exists|i: int, j: int| i != j && is_gap(bridged, i) && is_gap(bridged, j)
}

/// The first gap of a ring that has one.
pub open spec fn first_gap(bridged: Seq<bool>) -> int {
    choose|i: int| is_first_gap(bridged, i)
}

/// The verdict on a ring of `bridged.len()` neighbours.
///
/// `bridged[i]` says whether the neighbours at places `i` and `i + 1` (the
/// last with the first) are joined; `positive` says, for a ring of two,
/// whether the signed angular distance from the first to the second is
/// positive.
pub open spec fn classify_spec(bridged: Seq<bool>, positive: bool) -> Verdict {
    let n = bridged.len();
    if n <= 1 {
        Verdict { class: VertexClass::Invalid, rotation: 0, multiple_gaps: false }
    } else if n == 2 {
        Verdict {
            class: VertexClass::Border,
            rotation: if positive { 1 } else { 0 },
            multiple_gaps: false,
        }
    } else if !has_gap(bridged) {
        Verdict { class: VertexClass::Interior, rotation: 0, multiple_gaps: false }
    } else {
        Verdict {
            class: VertexClass::Border,
            rotation: successor(first_gap(bridged), n as int) as usize,
            multiple_gaps: has_two_gaps(bridged),
        }
    }
}

/// A ring has at most one first gap.
pub proof fn lemma_first_gap_unique(bridged: Seq<bool>, i: int)
    requires
        is_first_gap(bridged, i),
    ensures
        first_gap(bridged) == i,
        has_gap(bridged),
{
    let c = first_gap(bridged);
    assert(is_first_gap(bridged, c));
    if c < i {
        assert(bridged[c]);
    } else if i < c {
        assert(bridged[i]);
    }
}

proof fn lemma_least_gap(bridged: Seq<bool>, i: int)
    requires
        is_gap(bridged, i),
    ensures
        is_first_gap(bridged, first_gap(bridged)),
    decreases i,
{
    if exists|j: int| 0 <= j < i && !bridged[j] {
        let j = choose|j: int| 0 <= j < i && !bridged[j];
        lemma_least_gap(bridged, j);
    } else {
        assert(is_first_gap(bridged, i));
    }
}

/// A ring of two neighbours is a border, whatever joins them; a ring of
/// fewer is invalid.
pub proof fn lemma_small_rings(bridged: Seq<bool>, positive: bool)
    ensures
        bridged.len() <= 1 ==> classify_spec(bridged, positive).class == VertexClass::Invalid,
        bridged.len() == 2 ==> classify_spec(bridged, positive).class == VertexClass::Border,
        bridged.len() >= 2 ==> classify_spec(bridged, positive).class != VertexClass::Invalid,
        classify_spec(bridged, positive).rotation < bridged.len() || bridged.len() == 0,
{
    if bridged.len() >= 3 && has_gap(bridged) {
        let i = choose|i: int| is_gap(bridged, i);
        lemma_least_gap(bridged, i);
    }
}

/// Classifies a vertex from the continuity of its ordered ring.
pub fn classify(bridged: &Vec<bool>, positive: bool) -> (verdict: Verdict)
    ensures
        verdict == classify_spec(bridged@, positive),
{
    let n = bridged.len();
    if n <= 1 {
        return Verdict { class: VertexClass::Invalid, rotation: 0, multiple_gaps: false };
    }
    if n == 2 {
        return Verdict {
            class: VertexClass::Border,
            rotation: if positive { 1 } else { 0 },
            multiple_gaps: false,
        };
    }
    let mut first: Option<usize> = None;
    let mut more = false;
    let mut i: usize = 0;
    while i < n
        invariant
            i <= n,
            n == bridged.len(),
            first is None ==> !more && forall|j: int| 0 <= j < i ==> bridged@[j],
            first matches Some(g) ==> g < i && is_first_gap(bridged@, g as int) && (more <==> exists|
                j: int,
            |
                g < j < i && is_gap(bridged@, j)),
        decreases n - i,
    {
        if !bridged[i] {
            if first.is_none() {
                first = Some(i);
            } else {
                more = true;
                assert(is_gap(bridged@, i as int));
            }
        }
        i += 1;
    }
    match first {
        None => {
            assert(!has_gap(bridged@));
            Verdict { class: VertexClass::Interior, rotation: 0, multiple_gaps: false }
        },
        Some(g) => {
            proof {
                lemma_first_gap_unique(bridged@, g as int);
                if more {
                    let j = choose|j: int| g < j < n && is_gap(bridged@, j);
                    assert(is_gap(bridged@, g as int) && is_gap(bridged@, j) && j != g);
                }
                if has_two_gaps(bridged@) {
                    let (a, b) = choose|a: int, b: int|
                        a != b && is_gap(bridged@, a) && is_gap(bridged@, b);
                    if a > g {
                        assert(g < a < n && is_gap(bridged@, a));
                    } else {
                        assert(a == g) by {
                            if a < g {
                                assert(bridged@[a]);
                            }
                        }
                        assert(b >= g) by {
                            if b < g {
                                assert(bridged@[b]);
                            }
                        }
                        assert(g < b < n && is_gap(bridged@, b));
                    }
                }
            }
            Verdict {
                class: VertexClass::Border,
                rotation: if g + 1 == n { 0 } else { g + 1 },
                multiple_gaps: more,
            }
        },
    }
}

} // verus!
