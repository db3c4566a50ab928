//! Angular ordering of a vertex's neighbours.
use vstd::prelude::*;
use crate::edge::Vid;

verus! {

/// One neighbour of a vertex, seen from that vertex.
///
/// `angle` stands for the polar angle of the direction towards `to`: a smaller
/// code is a smaller angle, equal codes are equal angles.
#[derive(Clone, Copy, Debug)]
pub struct Spoke {
    /// The neighbour.
    pub to: Vid,
    /// The code of the polar angle of the direction towards it.
    pub angle: i32,
}

/// The code of an angle that is given as the bit pattern of an IEEE-754
/// single: the pattern itself for an angle with the sign bit clear, and
/// below zero by the magnitude and one more for an angle with the sign bit
/// set. Codes compare as the angles do in the total order of IEEE-754.
pub open spec fn code_of_bits(bits: u32) -> int {
    if bits < 0x8000_0000 {
        bits as int
    } else {
        -((bits - 0x8000_0000) as int) - 1
    }
}

/// The code of the angle with the given bit pattern.
pub fn angle_code(bits: u32) -> (code: i32)
    ensures
        code == code_of_bits(bits),
{
    if bits < 0x8000_0000 {
        bits as i32
    } else {
        let magnitude = (bits - 0x8000_0000) as i32;
        -magnitude - 1
    }
}

/// A larger magnitude is a larger code where the sign bit is clear and a
/// smaller code where it is set, and every code of a pattern with the sign
/// bit set lies below every code of a pattern with the sign bit clear.
pub proof fn lemma_angle_codes(a: u32, b: u32)
    ensures
        a != b ==> code_of_bits(a) != code_of_bits(b),
        a < b < 0x8000_0000 ==> code_of_bits(a) < code_of_bits(b),
        0x8000_0000 <= a < b ==> code_of_bits(b) < code_of_bits(a),
        a < 0x8000_0000 <= b ==> code_of_bits(b) < code_of_bits(a),
{
}

/// `sorted` with `s` put behind the last spoke whose angle is not larger.
pub open spec fn insert_by_angle(sorted: Seq<Spoke>, s: Spoke) -> Seq<Spoke>
    decreases sorted.len(),
{
    if sorted.len() == 0 {
        seq![s]
    } else if sorted.last().angle <= s.angle {
        sorted.push(s)
    } else {
        insert_by_angle(sorted.drop_last(), s).push(sorted.last())
    }
}

/// The spokes in ascending order of angle; spokes of equal angle keep the
/// order in which they were given.
pub open spec fn ring_order(spokes: Seq<Spoke>) -> Seq<Spoke>
    decreases spokes.len(),
{
    if spokes.len() == 0 {
        Seq::empty()
    } else {
        insert_by_angle(ring_order(spokes.drop_last()), spokes.last())
    }
}

/// The neighbours that a sequence of spokes names, in the same order.
pub open spec fn targets(spokes: Seq<Spoke>) -> Seq<Vid> {
    spokes.map_values(|s: Spoke| s.to)
}

/// Whether the angles never decrease along the sequence.
pub open spec fn ascending_angles(spokes: Seq<Spoke>) -> bool {
    forall|i: int, j: int| 0 <= i <= j < spokes.len() ==> spokes[i].angle <= spokes[j].angle
}

/// Whether no two spokes of the sequence have the same angle.
pub open spec fn distinct_angles(spokes: Seq<Spoke>) -> bool {
    forall|i: int, j: int|
        0 <= i < j < spokes.len() ==> spokes[i].angle != spokes[j].angle
}

/// `s` turned left by `by` places: it starts at `s[by]` and wraps around.
pub open spec fn rotated<T>(s: Seq<T>, by: int) -> Seq<T> {
    s.subrange(by, s.len() as int) + s.subrange(0, by)
}

proof fn lemma_insert_at(sorted: Seq<Spoke>, s: Spoke, at: int)
    requires
        0 <= at <= sorted.len(),
        forall|i: int| at <= i < sorted.len() ==> sorted[i].angle > s.angle,
        at == 0 || sorted[at - 1].angle <= s.angle,
    ensures
        insert_by_angle(sorted, s) == sorted.insert(at, s),
    decreases sorted.len(),
{
    if sorted.len() == 0 {
        assert(sorted.insert(at, s) =~= seq![s]);
    } else if sorted.len() == at {
        assert(sorted.insert(at, s) =~= sorted.push(s));
    } else {
        lemma_insert_at(sorted.drop_last(), s, at);
        assert(sorted.insert(at, s) =~= sorted.drop_last().insert(at, s).push(sorted.last()));
    }
}

/// Inserting puts the new spoke at one place and moves nothing else.
pub proof fn lemma_insert_place(sorted: Seq<Spoke>, s: Spoke) -> (at: int)
    ensures
        0 <= at <= sorted.len(),
        insert_by_angle(sorted, s) == sorted.insert(at, s),
        forall|i: int| at <= i < sorted.len() ==> sorted[i].angle > s.angle,
    decreases sorted.len(),
{
    if sorted.len() == 0 {
        assert(sorted.insert(0, s) =~= seq![s]);
        0
    } else if sorted.last().angle <= s.angle {
        assert(sorted.insert(sorted.len() as int, s) =~= sorted.push(s));
        sorted.len() as int
    } else {
        let at = lemma_insert_place(sorted.drop_last(), s);
        assert(sorted.insert(at, s) =~= sorted.drop_last().insert(at, s).push(sorted.last()));
        assert forall|i: int| at <= i < sorted.len() implies sorted[i].angle > s.angle by {
            if i < sorted.len() - 1 {
                assert(sorted.drop_last()[i] == sorted[i]);
            }
        }
        at
    }
}

/// The ordered ring names the neighbours that were given: each of them, and
/// none twice where none was given twice.
pub proof fn lemma_ring_targets(spokes: Seq<Spoke>)
    ensures
        targets(ring_order(spokes)).len() == spokes.len(),
        forall|v: Vid|
            #![trigger targets(ring_order(spokes)).contains(v)]
            #![trigger targets(spokes).contains(v)]
            targets(ring_order(spokes)).contains(v) <==> targets(spokes).contains(v),
        targets(spokes).no_duplicates() ==> targets(ring_order(spokes)).no_duplicates(),
    decreases spokes.len(),
{
    if spokes.len() > 0 {
        let front = spokes.drop_last();
        let last = spokes.last();
        lemma_ring_targets(front);
        let inner = ring_order(front);
        let at = lemma_insert_place(inner, last);
        let out = ring_order(spokes);
        assert(out == inner.insert(at, last));
        assert(targets(out) =~= targets(inner).insert(at, last.to));
        assert(targets(spokes) =~= targets(front).push(last.to));
        let t_inner = targets(inner);
        let t_out = targets(out);
        let t_front = targets(front);
        let t_all = targets(spokes);
        assert forall|v: Vid|
            #![trigger t_out.contains(v)]
            #![trigger t_all.contains(v)]
            t_out.contains(v) <==> t_all.contains(v) by {
            if t_out.contains(v) {
                let i = t_out.index_of(v);
                if i < at {
                    assert(t_inner[i] == v);
                    assert(t_inner.contains(v));
                } else if i > at {
                    assert(t_inner[i - 1] == v);
                    assert(t_inner.contains(v));
                }
                if t_inner.contains(v) {
                    assert(t_front.contains(v));
                    let j = t_front.index_of(v);
                    assert(t_all[j] == v);
                } else {
                    assert(t_all[t_all.len() - 1] == v);
                }
            }
            if t_all.contains(v) {
                let j = t_all.index_of(v);
                if j < t_front.len() {
                    assert(t_front[j] == v);
                    assert(t_front.contains(v));
                    assert(t_inner.contains(v));
                    let i = t_inner.index_of(v);
                    if i < at {
                        assert(t_out[i] == v);
                    } else {
                        assert(t_out[i + 1] == v);
                    }
                } else {
                    assert(t_out[at] == v);
                }
            }
        }
        if t_all.no_duplicates() {
            assert(t_front.no_duplicates()) by {
                assert forall|i: int, j: int|
                    0 <= i < t_front.len() && 0 <= j < t_front.len() && i != j implies t_front[i]
                    != t_front[j] by {
                    assert(t_all[i] == t_front[i] && t_all[j] == t_front[j]);
                }
            }
            assert(!t_inner.contains(last.to)) by {
                if t_inner.contains(last.to) {
                    assert(t_front.contains(last.to));
                    let j = t_front.index_of(last.to);
                    assert(t_all[j] == last.to && t_all[t_all.len() - 1] == last.to);
                }
            }
            assert forall|i: int, j: int|
                0 <= i < t_out.len() && 0 <= j < t_out.len() && i != j implies t_out[i]
                != t_out[j] by {
                let pi = if i < at { i } else { i - 1 };
                let pj = if j < at { j } else { j - 1 };
                if i == at {
                    assert(t_inner[pj] == t_out[j]);
                    assert(t_inner.contains(t_out[j]));
                } else if j == at {
                    assert(t_inner[pi] == t_out[i]);
                    assert(t_inner.contains(t_out[i]));
                } else {
                    assert(t_inner[pi] == t_out[i] && t_inner[pj] == t_out[j]);
                }
            }
        }
    } else {
        assert(targets(ring_order(spokes)) =~= Seq::<Vid>::empty());
    }
}

/// The test for spokes of angle `a`.
pub open spec fn at_angle(a: i32) -> spec_fn(Spoke) -> bool {
    |s: Spoke| s.angle == a
}

/// Ordering is stable: the spokes of any one angle stand in the ordered ring
/// in the order in which they were given.
pub proof fn lemma_ring_order_stable(spokes: Seq<Spoke>, a: i32)
    ensures
        ring_order(spokes).filter(at_angle(a)) == spokes.filter(at_angle(a)),
    decreases spokes.len(),
{
    let same = at_angle(a);
    if spokes.len() == 0 {
        assert(ring_order(spokes) =~= spokes);
    } else {
        let front = spokes.drop_last();
        let last = spokes.last();
        lemma_ring_order_stable(front, a);
        let inner = ring_order(front);
        let at = lemma_insert_place(inner, last);
        let head = inner.subrange(0, at);
        let tail = inner.subrange(at, inner.len() as int);
        assert(inner =~= head + tail);
        assert(inner.insert(at, last) =~= head.push(last) + tail);
        assert(spokes =~= front.push(last));
        Seq::filter_distributes_over_add(head, tail, same);
        Seq::filter_distributes_over_add(head.push(last), tail, same);
        head.lemma_filter_push(last, same);
        front.lemma_filter_push(last, same);
        if same(last) {
            assert(tail.all(|x: Spoke| !same(x))) by {
                assert forall|i: int| 0 <= i < tail.len() implies !same(#[trigger] tail[i]) by {
                    assert(tail[i] == inner[at + i]);
                }
            }
            tail.lemma_all_neg_filter_empty(same);
            assert(tail.filter(same) =~= Seq::<Spoke>::empty());
            assert(head.filter(same) + tail.filter(same) =~= head.filter(same));
            assert(head.filter(same).push(last) + tail.filter(same) =~= head.filter(same).push(
                last,
            ));
        }
    }
}

/// The order of spokes by angle and then by neighbour.
pub open spec fn angle_then_target() -> spec_fn(Spoke, Spoke) -> bool {
    |a: Spoke, b: Spoke| a.angle < b.angle || (a.angle == b.angle && a.to <= b.to)
}

/// The ordered ring holds the spokes that were given, and no two of equal
/// angle where none were given.
pub proof fn lemma_ring_angles(spokes: Seq<Spoke>)
    ensures
        forall|x: Spoke|
            #![trigger ring_order(spokes).contains(x)]
            ring_order(spokes).contains(x) <==> spokes.contains(x),
        distinct_angles(spokes) ==> distinct_angles(ring_order(spokes)),
    decreases spokes.len(),
{
    let out = ring_order(spokes);
    if spokes.len() > 0 {
        let front = spokes.drop_last();
        let last = spokes.last();
        lemma_ring_angles(front);
        let inner = ring_order(front);
        let at = lemma_insert_place(inner, last);
        assert(out == inner.insert(at, last));
        assert forall|x: Spoke| #![trigger out.contains(x)] out.contains(x) <==> spokes.contains(
            x,
        ) by {
            if out.contains(x) {
                let i = out.index_of(x);
                if i != at {
                    let p = if i < at { i } else { i - 1 };
                    assert(inner[p] == x);
                    assert(inner.contains(x));
                    assert(front.contains(x));
                    let j = front.index_of(x);
                    assert(spokes[j] == x);
                } else {
                    assert(spokes[spokes.len() - 1] == x);
                }
            }
            if spokes.contains(x) {
                let j = spokes.index_of(x);
                if j < front.len() {
                    assert(front[j] == x);
                    assert(front.contains(x));
                    assert(inner.contains(x));
                    let p = inner.index_of(x);
                    assert(out[if p < at { p } else { p + 1 }] == x);
                } else {
                    assert(out[at] == x);
                }
            }
        }
        if distinct_angles(spokes) {
            assert(distinct_angles(front)) by {
                assert forall|i: int, j: int| 0 <= i < j < front.len() implies front[i].angle
                    != front[j].angle by {
                    assert(spokes[i] == front[i] && spokes[j] == front[j]);
                }
            }
            assert forall|p: int| 0 <= p < inner.len() implies inner[p].angle != last.angle by {
                assert(inner.contains(inner[p]));
                assert(front.contains(inner[p]));
                let j = front.index_of(inner[p]);
                assert(spokes[j] == inner[p]);
            }
            assert forall|i: int, j: int| 0 <= i < j < out.len() implies out[i].angle
                != out[j].angle by {
                let pi = if i < at { i } else { i - 1 };
                let pj = if j < at { j } else { j - 1 };
                if i == at {
                    assert(inner[pj] == out[j]);
                } else if j == at {
                    assert(inner[pi] == out[i]);
                } else {
                    assert(inner[pi] == out[i] && inner[pj] == out[j]);
                }
            }
        }
    } else {
        assert(out =~= Seq::<Spoke>::empty());
    }
}

/// Spokes of pairwise different angles have one ascending order: whatever
/// the order in which they are given, the ordered ring is the same.
pub proof fn lemma_ring_order_unique(a: Seq<Spoke>, b: Seq<Spoke>)
    requires
        ascending_angles(a),
        distinct_angles(a),
        a.to_multiset() == b.to_multiset(),
    ensures
        ring_order(b) == a,
{
    broadcast use vstd::seq_lib::group_to_multiset_ensures;

    let y = ring_order(b);
    let leq = angle_then_target();
    lemma_ring_order(b);
    assert(vstd::relations::total_ordering(leq)) by {
        assert(vstd::relations::reflexive(leq));
        assert(vstd::relations::antisymmetric(leq));
        assert(vstd::relations::transitive(leq));
        assert(vstd::relations::strongly_connected(leq));
    }
    assert(vstd::relations::sorted_by(a, leq));
    assert forall|i: int, j: int| 0 <= i < j < y.len() implies #[trigger] leq(y[i], y[j]) by {
        if y[i].angle == y[j].angle {
            assert(y.to_multiset().count(y[i]) > 0);
            assert(y.to_multiset().count(y[j]) > 0);
            assert(a.contains(y[i]) && a.contains(y[j]));
            let p = a.index_of(y[i]);
            let q = a.index_of(y[j]);
            assert(p == q);
        }
    }
    vstd::seq_lib::lemma_sorted_unique(a, y, leq);
}

/// Turning a ring keeps what it holds, each as often as before.
pub proof fn lemma_rotated_multiset<T>(s: Seq<T>, by: int)
    requires
        0 <= by <= s.len(),
    ensures
        rotated(s, by).to_multiset() == s.to_multiset(),
{
    broadcast use vstd::multiset::group_multiset_axioms;

    let head = s.subrange(0, by);
    let tail = s.subrange(by, s.len() as int);
    vstd::seq_lib::lemma_multiset_commutative(head, tail);
    vstd::seq_lib::lemma_multiset_commutative(tail, head);
    assert(head + tail =~= s);
    assert(rotated(s, by).to_multiset() =~= s.to_multiset());
}

/// Turning a ring keeps its length and its entries.
pub proof fn lemma_rotated<T>(s: Seq<T>, by: int)
    requires
        0 <= by <= s.len(),
    ensures
        rotated(s, by).len() == s.len(),
        forall|i: int|
            0 <= i < s.len() ==> #[trigger] rotated(s, by)[i] == s[if i + by < s.len() {
                i + by
            } else {
                i + by - s.len()
            }],
        forall|v: T| #![trigger rotated(s, by).contains(v)] rotated(s, by).contains(v) <==> s.contains(v),
        rotated(s, 0) == s,
{
    let r = rotated(s, by);
    assert forall|v: T| #![trigger r.contains(v)] r.contains(v) <==> s.contains(v) by {
        if r.contains(v) {
            let i = r.index_of(v);
            assert(s[if i + by < s.len() { i + by } else { i + by - s.len() }] == v);
        }
        if s.contains(v) {
            let j = s.index_of(v);
            assert(r[if j >= by { j - by } else { j + s.len() - by }] == v);
        }
    }
    assert(rotated(s, 0) =~= s);
}

/// Inserting keeps every spoke and adds the new one.
pub proof fn lemma_insert_by_angle(sorted: Seq<Spoke>, s: Spoke)
    ensures
        insert_by_angle(sorted, s).len() == sorted.len() + 1,
        insert_by_angle(sorted, s).to_multiset() == sorted.to_multiset().insert(s),
        ascending_angles(sorted) ==> ascending_angles(insert_by_angle(sorted, s)),
    decreases sorted.len(),
{
    broadcast use vstd::seq_lib::group_to_multiset_ensures;
    if sorted.len() == 0 {
        assert(sorted =~= Seq::empty());
        assert(seq![s] =~= Seq::<Spoke>::empty().push(s));
    } else if sorted.last().angle <= s.angle {
    } else {
        let front = sorted.drop_last();
        let last = sorted.last();
        lemma_insert_by_angle(front, s);
        assert(sorted =~= front.push(last));
        let ins = insert_by_angle(front, s);
        assert(ins.push(last).to_multiset() =~= sorted.to_multiset().insert(s));
        if ascending_angles(sorted) {
            assert(ascending_angles(front));
            let out = ins.push(last);
            assert forall|i: int, j: int| 0 <= i <= j < out.len() implies out[i].angle
                <= out[j].angle by {
                if j == out.len() - 1 && i < j {
                    // every spoke of `ins` is `s` or a spoke of `front`
                    assert(ins.to_multiset().count(ins[i]) > 0);
                    if ins[i] != s {
                        assert(front.to_multiset().count(ins[i]) > 0);
                        let w = choose|w: int| 0 <= w < front.len() && front[w] == ins[i];
                        assert(sorted[w] == ins[i]);
                    }
                }
            }
        }
    }
}

/// The ordered ring holds the given spokes, each as often as it was given,
/// in ascending order of angle.
pub proof fn lemma_ring_order(spokes: Seq<Spoke>)
    ensures
        ring_order(spokes).len() == spokes.len(),
        ring_order(spokes).to_multiset() == spokes.to_multiset(),
        ascending_angles(ring_order(spokes)),
    decreases spokes.len(),
{
    broadcast use vstd::seq_lib::group_to_multiset_ensures;
    if spokes.len() == 0 {
        assert(spokes =~= Seq::empty());
    } else {
        lemma_ring_order(spokes.drop_last());
        lemma_insert_by_angle(ring_order(spokes.drop_last()), spokes.last());
        assert(spokes =~= spokes.drop_last().push(spokes.last()));
    }
}

/// Spokes that are already in ascending order stay as they are.
pub proof fn lemma_ring_order_of_ascending(spokes: Seq<Spoke>)
    requires
        ascending_angles(spokes),
    ensures
        ring_order(spokes) == spokes,
    decreases spokes.len(),
{
    if spokes.len() == 0 {
        assert(spokes =~= Seq::empty());
    } else {
        let front = spokes.drop_last();
        lemma_ring_order_of_ascending(front);
        if front.len() > 0 {
            assert(front.last() == spokes[spokes.len() - 2]);
        }
        assert(spokes =~= front.push(spokes.last()));
    }
}

fn insert_spoke(ring: &mut Vec<Spoke>, s: Spoke)
    ensures
        final(ring)@ == insert_by_angle(old(ring)@, s),
{
    let mut at: usize = ring.len();
    while at > 0 && ring[at - 1].angle > s.angle
        invariant
            at <= ring.len(),
            ring@ == old(ring)@,
            forall|i: int| at <= i < ring@.len() ==> ring@[i].angle > s.angle,
        decreases at,
    {
        at -= 1;
    }
    proof {
        lemma_insert_at(ring@, s, at as int);
    }
    ring.insert(at, s);
}

/// Orders the spokes of one vertex by angle, keeping the given order among
/// spokes of equal angle.
pub fn order_ring(spokes: &Vec<Spoke>) -> (ring: Vec<Spoke>)
    ensures
        ring@ == ring_order(spokes@),
        ascending_angles(ring@),
        ring@.to_multiset() == spokes@.to_multiset(),
        forall|a: i32| #[trigger] ring@.filter(at_angle(a)) == spokes@.filter(at_angle(a)),
{
    let mut ring: Vec<Spoke> = Vec::new();
    let mut i: usize = 0;
    while i < spokes.len()
        invariant
            i <= spokes.len(),
            ring@ == ring_order(spokes@.take(i as int)),
        decreases spokes.len() - i,
    {
        insert_spoke(&mut ring, spokes[i]);
        proof {
            assert(spokes@.take(i + 1).drop_last() =~= spokes@.take(i as int));
        }
        i += 1;
    }
    proof {
        assert(spokes@.take(spokes.len() as int) =~= spokes@);
        lemma_ring_order(spokes@);
        assert forall|a: i32| #[trigger]
            ring@.filter(at_angle(a)) == spokes@.filter(at_angle(a)) by {
            lemma_ring_order_stable(spokes@, a);
        }
    }
    ring
}

/// The neighbours that the spokes name, in the same order.
pub fn spoke_targets(spokes: &Vec<Spoke>) -> (ids: Vec<Vid>)
    ensures
        ids@ == targets(spokes@),
{
    let mut ids: Vec<Vid> = Vec::new();
    let mut i: usize = 0;
    while i < spokes.len()
        invariant
            i <= spokes.len(),
            ids@ == targets(spokes@.take(i as int)),
        decreases spokes.len() - i,
    {
        ids.push(spokes[i].to);
        proof {
            assert(targets(spokes@.take(i + 1)) =~= targets(spokes@.take(i as int)).push(
                spokes@[i as int].to,
            ));
        }
        i += 1;
    }
    proof {
        assert(spokes@.take(spokes.len() as int) =~= spokes@);
    }
    ids
}

/// The ring turned left by `by` places.
pub fn rotate_ring(ring: &Vec<Vid>, by: usize) -> (turned: Vec<Vid>)
    requires
        by <= ring.len(),
    ensures
        turned@ == rotated(ring@, by as int),
{
    let n = ring.len();
    let mut turned: Vec<Vid> = Vec::new();
    let mut i: usize = by;
    while i < n
        invariant
            by <= i <= n,
            n == ring.len(),
            turned@ == ring@.subrange(by as int, i as int),
        decreases n - i,
    {
        turned.push(ring[i]);
        proof {
            assert(ring@.subrange(by as int, i + 1) =~= ring@.subrange(by as int, i as int).push(
                ring@[i as int],
            ));
        }
        i += 1;
    }
    let mut j: usize = 0;
    while j < by
        invariant
            j <= by <= n,
            n == ring.len(),
            turned@ == ring@.subrange(by as int, n as int) + ring@.subrange(0, j as int),
        decreases by - j,
    {
        turned.push(ring[j]);
        proof {
            assert(ring@.subrange(0, j + 1) =~= ring@.subrange(0, j as int).push(ring@[j as int]));
            assert((ring@.subrange(by as int, n as int) + ring@.subrange(0, j as int)).push(
                ring@[j as int],
            ) =~= ring@.subrange(by as int, n as int) + ring@.subrange(0, j + 1));
        }
        j += 1;
    }
    turned
}

} // verus!
