//! Canonical forms of undirected edges and triangles.
use vstd::prelude::*;

verus! {

/// Identifier of a vertex.
pub type Vid = u64;

/// The two ends of an edge in ascending order.
pub open spec fn canonical_edge(a: Vid, b: Vid) -> (Vid, Vid) {
    if a <= b {
        (a, b)
    } else {
        (b, a)
    }
}

/// The three corners of a triangle in ascending order.
pub open spec fn canonical_face(a: Vid, b: Vid, c: Vid) -> (Vid, Vid, Vid) {
    if a <= b {
        if b <= c {
            (a, b, c)
        } else if a <= c {
            (a, c, b)
        } else {
            (c, a, b)
        }
    } else {
        if a <= c {
            (b, a, c)
        } else if b <= c {
            (b, c, a)
        } else {
            (c, b, a)
        }
    }
}

/// The ends of a stored edge, in the order in which they are stored.
pub open spec fn pair(e: [Vid; 2]) -> (Vid, Vid) {
    (e[0], e[1])
}

/// The corners of a stored triangle, in the order in which they are stored.
pub open spec fn triple(f: [Vid; 3]) -> (Vid, Vid, Vid) {
    (f[0], f[1], f[2])
}

/// Whether a triangle is stored in ascending order.
pub open spec fn ascending(f: (Vid, Vid, Vid)) -> bool {
    f.0 <= f.1 && f.1 <= f.2
}

/// Whether `v` is one of the corners of `f`.
pub open spec fn has_corner(f: (Vid, Vid, Vid), v: Vid) -> bool {
    f.0 == v || f.1 == v || f.2 == v
}

/// The triangles of a stored list, as a set.
pub open spec fn face_set(fs: Seq<[Vid; 3]>) -> Set<(Vid, Vid, Vid)> {
    Set::new(|f: (Vid, Vid, Vid)| exists|i: int| 0 <= i < fs.len() && triple(#[trigger] fs[i]) == f)
}

/// The canonical form is ascending, keeps the three corners, and does not
/// depend on the order in which they are given.
pub proof fn lemma_canonical_face(a: Vid, b: Vid, c: Vid)
    ensures
        ascending(canonical_face(a, b, c)),
        has_corner(canonical_face(a, b, c), a),
        has_corner(canonical_face(a, b, c), b),
        has_corner(canonical_face(a, b, c), c),
        canonical_face(a, b, c) == canonical_face(a, c, b),
        canonical_face(a, b, c) == canonical_face(b, a, c),
        canonical_face(a, b, c) == canonical_face(b, c, a),
        canonical_face(a, b, c) == canonical_face(c, a, b),
        canonical_face(a, b, c) == canonical_face(c, b, a),
        ascending((a, b, c)) ==> canonical_face(a, b, c) == (a, b, c),
{
}

/// A triangle appended to a list joins the set of its triangles.
pub proof fn lemma_face_set_push(fs: Seq<[Vid; 3]>, f: [Vid; 3])
    ensures
        face_set(fs.push(f)) == face_set(fs).insert(triple(f)),
{
    let more = fs.push(f);
    assert forall|g: (Vid, Vid, Vid)| face_set(more).contains(g) <==> face_set(fs).insert(
        triple(f),
    ).contains(g) by {
        if face_set(more).contains(g) {
            let i = choose|i: int| 0 <= i < more.len() && triple(#[trigger] more[i]) == g;
            if i < fs.len() {
                assert(triple(fs[i]) == g);
            }
        }
        if face_set(fs).contains(g) {
            let i = choose|i: int| 0 <= i < fs.len() && triple(#[trigger] fs[i]) == g;
            assert(triple(more[i]) == g);
        }
        if g == triple(f) {
            assert(triple(more[more.len() - 1]) == g);
        }
    }
    assert(face_set(more) =~= face_set(fs).insert(triple(f)));
}

/// Canonical form of the undirected edge between `a` and `b`.
pub fn sort_edge(a: Vid, b: Vid) -> (e: [Vid; 2])
    ensures
        pair(e) == canonical_edge(a, b),
{
    if a <= b {
        [a, b]
    } else {
        [b, a]
    }
}

/// Canonical form of the triangle with corners `a`, `b` and `c`.
pub fn sort_face(a: Vid, b: Vid, c: Vid) -> (f: [Vid; 3])
    ensures
        triple(f) == canonical_face(a, b, c),
{
    if a <= b {
        if b <= c {
            [a, b, c]
        } else if a <= c {
            [a, c, b]
        } else {
            [c, a, b]
        }
    } else {
        if a <= c {
            [b, a, c]
        } else if b <= c {
            [b, c, a]
        } else {
            [c, b, a]
        }
    }
}

/// Whether two stored triangles have the same corners in the same order.
pub fn same_face(f: &[Vid; 3], g: &[Vid; 3]) -> (same: bool)
    ensures
        same == (triple(*f) == triple(*g)),
{
    f[0] == g[0] && f[1] == g[1] && f[2] == g[2]
}

/// Whether the list `fs` holds the triangle `f`.
pub fn holds_face(fs: &Vec<[Vid; 3]>, f: &[Vid; 3]) -> (found: bool)
    ensures
        found == face_set(fs@).contains(triple(*f)),
{
    let mut i: usize = 0;
    while i < fs.len()
        invariant
            i <= fs.len(),
            forall|j: int| 0 <= j < i ==> triple(#[trigger] fs@[j]) != triple(*f),
        decreases fs.len() - i,
    {
        if same_face(&fs[i], f) {
            return true;
        }
        i += 1;
    }
    false
}

/// Whether the list `ids` holds `x`.
pub fn holds_id(ids: &Vec<Vid>, x: Vid) -> (found: bool)
    ensures
        found == ids@.contains(x),
{
    let mut i: usize = 0;
    while i < ids.len()
        invariant
            i <= ids.len(),
            forall|j: int| 0 <= j < i ==> ids@[j] != x,
        decreases ids.len() - i,
    {
        if ids[i] == x {
            return true;
        }
        i += 1;
    }
    false
}

} // verus!
