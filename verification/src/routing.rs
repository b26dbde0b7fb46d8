use vstd::prelude::*;
use crate::types::{Point3, Axis};

verus! {

/// A segment of a path: the index of the room it starts from, its two ends, and the axis of the
/// split it crosses.
pub type Segment = (usize, Point3, Point3, Axis);

/// A tile as the router sees it: its index, its low corner and its high corner.
pub type TileBounds = (usize, Point3, Point3);

/// `i` is the first of the tiles that satisfy `cand` with the smallest `key`.
pub open spec fn is_first_min(
    s: Seq<TileBounds>,
    cand: spec_fn(TileBounds) -> bool,
    key: spec_fn(TileBounds) -> int,
    i: int,
) -> bool {
    &&& 0 <= i < s.len()
    &&& cand(s[i])
    &&& forall|j: int| 0 <= j < s.len() && cand(#[trigger] s[j]) ==> key(s[i]) <= key(s[j])
    &&& forall|j: int| 0 <= j < i && cand(#[trigger] s[j]) ==> key(s[i]) < key(s[j])
}

/// Whether some tile satisfies `cand`.
pub open spec fn has_cand(s: Seq<TileBounds>, cand: spec_fn(TileBounds) -> bool) -> bool {
    exists|j: int| 0 <= j < s.len() && cand(#[trigger] s[j])
}

/// The position of the first of the tiles that satisfy `cand` with the smallest `key`, if any
/// tile satisfies `cand`.
pub open spec fn first_min(
    s: Seq<TileBounds>,
    cand: spec_fn(TileBounds) -> bool,
    key: spec_fn(TileBounds) -> int,
) -> Option<int> {
    if has_cand(s, cand) {
        Some(choose|i: int| is_first_min(s, cand, key, i))
    } else {
        None
    }
}

/// Where some tile satisfies `cand`, there is exactly one first tile with the smallest key.
pub proof fn lemma_first_min(
    s: Seq<TileBounds>,
    cand: spec_fn(TileBounds) -> bool,
    key: spec_fn(TileBounds) -> int,
)
    ensures
        has_cand(s, cand) ==> is_first_min(s, cand, key, first_min(s, cand, key).unwrap()),
        forall|i: int| #[trigger] is_first_min(s, cand, key, i) ==> first_min(s, cand, key) == Some(i),
    decreases s.len(),
{
    if s.len() > 0 {
        let init = s.drop_last();
        let last = s.len() - 1;
        lemma_first_min(init, cand, key);
        assert forall|j: int| 0 <= j < last implies #[trigger] s[j] == init[j] by {}
        if has_cand(init, cand) {
            let k = first_min(init, cand, key).unwrap();
            assert(init[k] == s[k]);
            if cand(s[last]) && key(s[last]) < key(s[k]) {
                assert forall|j: int| 0 <= j < s.len() && cand(#[trigger] s[j]) implies key(s[last])
                    <= key(s[j]) by {
                    if j < last {
                        assert(cand(init[j]));
                    }
                }
                assert forall|j: int| 0 <= j < last && cand(#[trigger] s[j]) implies key(s[last])
                    < key(s[j]) by {
                    assert(cand(init[j]));
                }
                assert(is_first_min(s, cand, key, last));
            } else {
                assert forall|j: int| 0 <= j < s.len() && cand(#[trigger] s[j]) implies key(s[k])
                    <= key(s[j]) by {
                    if j < last {
                        assert(cand(init[j]));
                    }
                }
                assert forall|j: int| 0 <= j < k && cand(#[trigger] s[j]) implies key(s[k]) < key(
                    s[j],
                ) by {
                    assert(cand(init[j]));
                }
                assert(is_first_min(s, cand, key, k));
            }
        } else if cand(s[last]) {
            assert forall|j: int| 0 <= j < s.len() && cand(#[trigger] s[j]) implies j == last by {
                if j < last {
                    assert(cand(init[j]));
                }
            }
            assert(is_first_min(s, cand, key, last));
        } else {
            assert forall|j: int| 0 <= j < s.len() implies !cand(#[trigger] s[j]) by {
                if j < last {
                    assert(!cand(init[j]));
                }
            }
        }
    }
    assert forall|i: int| #[trigger] is_first_min(s, cand, key, i) implies first_min(s, cand, key)
        == Some(i) by {
        let w = first_min(s, cand, key).unwrap();
        assert(has_cand(s, cand));
        assert(is_first_min(s, cand, key, w));
        if i < w {
            assert(key(s[w]) <= key(s[i]));
        } else if w < i {
            assert(key(s[i]) <= key(s[w]));
        }
    }
}

/// The tiles the router may move into when it leaves `cur` along axis `a`: upward, those whose
/// low face lies on the high face of `cur`; downward, those with either face on the low face of
/// `cur`. `cur` itself is never one of them.
pub open spec fn next_cand(cur: TileBounds, a: int, up: bool) -> spec_fn(TileBounds) -> bool {
    |t: TileBounds|
        if up {
            t.1.at(a) == cur.2.at(a) && t.0 != cur.0
        } else {
            (t.1.at(a) == cur.1.at(a) || t.2.at(a) == cur.1.at(a)) && t.0 != cur.0
        }
}

/// How the router ranks the tiles it may move into: upward by how far the high face of a tile
/// lies short of the target, downward by how far its low face lies beyond it.
pub open spec fn next_key(target: Point3, a: int, up: bool) -> spec_fn(TileBounds) -> int {
    |t: TileBounds|
        if up {
            target.at(a) - t.2.at(a)
        } else {
            t.1.at(a) - target.at(a)
        }
}

/// Whether every tile that satisfies `cand` has a key that fits in an `i64`.
pub open spec fn keys_fit(
    s: Seq<TileBounds>,
    cand: spec_fn(TileBounds) -> bool,
    key: spec_fn(TileBounds) -> int,
) -> bool {
    forall|j: int|
        0 <= j < s.len() && cand(#[trigger] s[j]) ==> i64::MIN <= key(s[j]) <= i64::MAX
}

/// The tile the router moves into from `cur` along axis `a`: the first of the best ranked
/// candidates. None when there is no candidate or a rank does not fit in an `i64`.
pub open spec fn next_tile(
    m: Seq<TileBounds>,
    cur: TileBounds,
    target: Point3,
    a: int,
    up: bool,
) -> Option<TileBounds> {
    let cand = next_cand(cur, a, up);
    let key = next_key(target, a, up);
    if keys_fit(m, cand, key) && has_cand(m, cand) {
        Some(m[first_min(m, cand, key).unwrap()])
    } else {
        None
    }
}

/// Moving up along axis `a`, the router goes into a tile whose low face lies on the high face of
/// `cur` (not `cur` itself), and among all such tiles it takes the first one whose high face
/// reaches furthest along `a`; moving down, the first of the tiles with a face on the low face of
/// `cur` whose low face lies lowest. Where such tiles exist and their distances to the target fit
/// in an `i64`, it always finds one.
pub proof fn lemma_next_tile_reaches_furthest(
    m: Seq<TileBounds>,
    cur: TileBounds,
    target: Point3,
    a: int,
    up: bool,
)
    ensures
        up ==> (next_tile(m, cur, target, a, up) matches Some(t) ==> exists|i: int|
            0 <= i < m.len() && m[i] == t && t.1.at(a) == cur.2.at(a) && t.0 != cur.0 && (forall|j: int|
                0 <= j < m.len() && (#[trigger] m[j]).1.at(a) == cur.2.at(a) && m[j].0 != cur.0
                    ==> m[j].2.at(a) <= t.2.at(a)) && (forall|j: int|
                0 <= j < i && (#[trigger] m[j]).1.at(a) == cur.2.at(a) && m[j].0 != cur.0
                    ==> m[j].2.at(a) < t.2.at(a))),
        !up ==> (next_tile(m, cur, target, a, up) matches Some(t) ==> exists|i: int|
            0 <= i < m.len() && m[i] == t && (t.1.at(a) == cur.1.at(a) || t.2.at(a) == cur.1.at(a))
                && t.0 != cur.0 && (forall|j: int|
                0 <= j < m.len() && ((#[trigger] m[j]).1.at(a) == cur.1.at(a) || m[j].2.at(a)
                    == cur.1.at(a)) && m[j].0 != cur.0 ==> t.1.at(a) <= m[j].1.at(a)) && (forall|j: int|
                0 <= j < i && ((#[trigger] m[j]).1.at(a) == cur.1.at(a) || m[j].2.at(a) == cur.1.at(a))
                    && m[j].0 != cur.0 ==> t.1.at(a) < m[j].1.at(a))),
        up && (exists|j: int| 0 <= j < m.len() && (#[trigger] m[j]).1.at(a) == cur.2.at(a) && m[j].0 != cur.0)
            && (forall|j: int|
            0 <= j < m.len() && (#[trigger] m[j]).1.at(a) == cur.2.at(a) && m[j].0 != cur.0 ==> i64::MIN
                <= target.at(a) - m[j].2.at(a) <= i64::MAX) ==> next_tile(m, cur, target, a, up) is Some,
        !up && (exists|j: int|
            0 <= j < m.len() && ((#[trigger] m[j]).1.at(a) == cur.1.at(a) || m[j].2.at(a) == cur.1.at(a))
                && m[j].0 != cur.0) && (forall|j: int|
            0 <= j < m.len() && ((#[trigger] m[j]).1.at(a) == cur.1.at(a) || m[j].2.at(a) == cur.1.at(a))
                && m[j].0 != cur.0 ==> i64::MIN <= m[j].1.at(a) - target.at(a) <= i64::MAX)
            ==> next_tile(m, cur, target, a, up) is Some,
{
    let cand = next_cand(cur, a, up);
    let key = next_key(target, a, up);
    lemma_first_min(m, cand, key);
    if has_cand(m, cand) && keys_fit(m, cand, key) {
        let i = first_min(m, cand, key).unwrap();
        assert(is_first_min(m, cand, key, i));
        assert(cand(m[i]));
        if up {
            assert forall|j: int|
                0 <= j < m.len() && (#[trigger] m[j]).1.at(a) == cur.2.at(a) && m[j].0 != cur.0
                    implies m[j].2.at(a) <= m[i].2.at(a) by {
                assert(cand(m[j]));
                assert(key(m[i]) <= key(m[j]));
            }
            assert forall|j: int|
                0 <= j < i && (#[trigger] m[j]).1.at(a) == cur.2.at(a) && m[j].0 != cur.0
                    implies m[j].2.at(a) < m[i].2.at(a) by {
                assert(cand(m[j]));
                assert(key(m[i]) < key(m[j]));
            }
        } else {
            assert forall|j: int|
                0 <= j < m.len() && ((#[trigger] m[j]).1.at(a) == cur.1.at(a) || m[j].2.at(a)
                    == cur.1.at(a)) && m[j].0 != cur.0 implies m[i].1.at(a) <= m[j].1.at(a) by {
                assert(cand(m[j]));
                assert(key(m[i]) <= key(m[j]));
            }
            assert forall|j: int|
                0 <= j < i && ((#[trigger] m[j]).1.at(a) == cur.1.at(a) || m[j].2.at(a) == cur.1.at(a))
                    && m[j].0 != cur.0 implies m[i].1.at(a) < m[j].1.at(a) by {
                assert(cand(m[j]));
                assert(key(m[i]) < key(m[j]));
            }
        }
    }
    if up && (exists|j: int| 0 <= j < m.len() && (#[trigger] m[j]).1.at(a) == cur.2.at(a) && m[j].0 != cur.0)
        && (forall|j: int|
        0 <= j < m.len() && (#[trigger] m[j]).1.at(a) == cur.2.at(a) && m[j].0 != cur.0 ==> i64::MIN
            <= target.at(a) - m[j].2.at(a) <= i64::MAX) {
        let j = choose|j: int| 0 <= j < m.len() && (#[trigger] m[j]).1.at(a) == cur.2.at(a) && m[j].0 != cur.0;
        assert(cand(m[j]));
        assert(has_cand(m, cand));
        assert forall|j: int| 0 <= j < m.len() && cand(#[trigger] m[j]) implies i64::MIN <= key(m[j])
            <= i64::MAX by {}
    }
    if !up && (exists|j: int|
        0 <= j < m.len() && ((#[trigger] m[j]).1.at(a) == cur.1.at(a) || m[j].2.at(a) == cur.1.at(a))
            && m[j].0 != cur.0) && (forall|j: int|
        0 <= j < m.len() && ((#[trigger] m[j]).1.at(a) == cur.1.at(a) || m[j].2.at(a) == cur.1.at(a))
            && m[j].0 != cur.0 ==> i64::MIN <= m[j].1.at(a) - target.at(a) <= i64::MAX) {
        let j = choose|j: int|
            0 <= j < m.len() && ((#[trigger] m[j]).1.at(a) == cur.1.at(a) || m[j].2.at(a) == cur.1.at(a))
                && m[j].0 != cur.0;
        assert(cand(m[j]));
        assert(has_cand(m, cand));
        assert forall|j: int| 0 <= j < m.len() && cand(#[trigger] m[j]) implies i64::MIN <= key(m[j])
            <= i64::MAX by {}
    }
}

/// The segment that continues `prev` from its end, moving along axis `a` to coordinate `v`.
pub open spec fn extend(prev: Segment, a: int, v: i64) -> Segment {
    (prev.0, prev.2, prev.2.with(a, v), prev.3)
}

/// The router's state: the last segment laid and the tile it is in.
pub type RouteState = (Segment, TileBounds);

/// One move of the router along axis `a`, from state `st`, toward `target`, for a path that
/// started at `start`: the new state and the segments laid. None when no tile can be moved into.
pub open spec fn route_step(
    m: Seq<TileBounds>,
    start: Point3,
    target: Point3,
    a: int,
    st: RouteState,
) -> Option<(RouteState, Seq<Segment>)> {
    let (prev, cur) = st;
    if start.at(a) < target.at(a) {
        if prev.2.at(a) < target.at(a) {
            if cur.2.at(a) > target.at(a) {
                let p = extend(prev, a, target.at(a));
                Some(((p, cur), seq![p]))
            } else {
                match next_tile(m, cur, target, a, true) {
                    Some(t) => {
                        let p = extend(prev, a, cur.2.at(a));
                        Some(((p, t), seq![p]))
                    },
                    None => None,
                }
            }
        } else {
            Some((st, seq![]))
        }
    } else {
        if prev.2.at(a) > target.at(a) {
            if cur.1.at(a) < target.at(a) {
                let p = extend(prev, a, target.at(a));
                Some(((p, cur), seq![p]))
            } else {
                match next_tile(m, cur, target, a, false) {
                    Some(t) => {
                        let p = extend(prev, a, cur.1.at(a));
                        Some(((p, t), seq![p]))
                    },
                    None => None,
                }
            }
        } else {
            Some((st, seq![]))
        }
    }
}

/// Moves along the axes from `a` up to the last, in turn.
pub open spec fn route_steps_from(
    m: Seq<TileBounds>,
    start: Point3,
    target: Point3,
    a: int,
    st: RouteState,
) -> Option<(RouteState, Seq<Segment>)>
    decreases 3 - a,
{
    if a >= 3 {
        Some((st, seq![]))
    } else {
        match route_step(m, start, target, a, st) {
            Some((st1, out1)) => match route_steps_from(m, start, target, a + 1, st1) {
                Some((st2, out2)) => Some((st2, out1 + out2)),
                None => None,
            },
            None => None,
        }
    }
}

/// One round of the router: a move along X, then along Y, then along Z.
pub open spec fn route_round(
    m: Seq<TileBounds>,
    start: Point3,
    target: Point3,
    st: RouteState,
) -> Option<(RouteState, Seq<Segment>)> {
    route_steps_from(m, start, target, 0, st)
}

/// The segments that the router lays from state `st` until the last segment ends at `target`,
/// if that takes at most `fuel` rounds and no round fails.
pub open spec fn route_within(
    m: Seq<TileBounds>,
    start: Point3,
    target: Point3,
    st: RouteState,
    fuel: nat,
) -> Option<Seq<Segment>>
    decreases fuel,
{
    if st.0.2 == target {
        Some(seq![])
    } else if fuel == 0 {
        None
    } else {
        match route_round(m, start, target, st) {
            Some((st1, out1)) => match route_within(m, start, target, st1, (fuel - 1) as nat) {
                Some(rest) => Some(out1 + rest),
                None => None,
            },
            None => None,
        }
    }
}

/// The tiles whose index is `idx`.
pub open spec fn has_index(idx: usize) -> spec_fn(TileBounds) -> bool {
    |t: TileBounds| t.0 == idx
}

/// The rank under which the first tile with a given index is the one chosen.
pub open spec fn no_key() -> spec_fn(TileBounds) -> int {
    |t: TileBounds| 0
}

/// The first tile whose index is that of the room where edge `e` starts.
pub open spec fn starting_tile(m: Seq<TileBounds>, e: Segment) -> Option<TileBounds> {
    if has_cand(m, has_index(e.0)) {
        Some(m[first_min(m, has_index(e.0), no_key()).unwrap()])
    } else {
        None
    }
}

/// The segment that moves the end of `prev` along axis `a` onto the starting tile `st`: to its
/// high face if the target lies beyond it, to its low face if the target lies below it, else to
/// the coordinate the edge starts at.
pub open spec fn snap(st: TileBounds, start: Point3, target: Point3, a: int, prev: Segment) -> Segment {
    extend(
        prev,
        a,
        if target.at(a) > st.2.at(a) {
            st.2.at(a)
        } else if target.at(a) < st.1.at(a) {
            st.1.at(a)
        } else {
            start.at(a)
        },
    )
}

/// The three segments that bring the start of edge `e` onto its starting tile `st`.
pub open spec fn snaps(st: TileBounds, e: Segment) -> Seq<Segment> {
    let p0 = (e.0, e.1, e.1, e.3);
    let p1 = snap(st, e.1, e.2, 0, p0);
    let p2 = snap(st, e.1, e.2, 1, p1);
    let p3 = snap(st, e.1, e.2, 2, p2);
    seq![p1, p2, p3]
}

/// The orthogonal path for edge `e` through the tiles `m`, if the router reaches the end of the
/// edge within `fuel` rounds and never fails.
pub open spec fn route_edge(m: Seq<TileBounds>, e: Segment, fuel: nat) -> Option<Seq<Segment>> {
    match starting_tile(m, e) {
        Some(st) => {
            let first = snaps(st, e);
            match route_within(m, e.1, e.2, (first[2], st), fuel) {
                Some(rest) => Some(first + rest),
                None => None,
            }
        },
        None => None,
    }
}

/// More rounds never change a path that was found in fewer.
pub proof fn lemma_route_within_mono(
    m: Seq<TileBounds>,
    start: Point3,
    target: Point3,
    st: RouteState,
    f1: nat,
    f2: nat,
)
    requires
        f1 <= f2,
        route_within(m, start, target, st, f1) is Some,
    ensures
        route_within(m, start, target, st, f2) == route_within(m, start, target, st, f1),
    decreases f1,
{
    if st.0.2 != target {
        let (st1, out1) = route_round(m, start, target, st).unwrap();
        lemma_route_within_mono(m, start, target, st1, (f1 - 1) as nat, (f2 - 1) as nat);
    }
}

/// More rounds never change the path found for an edge in fewer.
pub proof fn lemma_route_edge_mono(m: Seq<TileBounds>, e: Segment, f1: nat, f2: nat)
    requires
        f1 <= f2,
        route_edge(m, e, f1) is Some,
    ensures
        route_edge(m, e, f2) == route_edge(m, e, f1),
{
    let st = starting_tile(m, e).unwrap();
    lemma_route_within_mono(m, e.1, e.2, (snaps(st, e)[2], st), f1, f2);
}

/// Whether the router finds a path for edge `e` through the tiles `m` in some number of rounds.
pub open spec fn routes(m: Seq<TileBounds>, e: Segment) -> bool {
    exists|f: nat| #[trigger] route_edge(m, e, f) is Some
}

/// The orthogonal path for edge `e` through the tiles `m` (meaningful when `routes(m, e)`).
pub open spec fn routed(m: Seq<TileBounds>, e: Segment) -> Seq<Segment> {
    route_edge(m, e, choose|f: nat| #[trigger] route_edge(m, e, f) is Some).unwrap()
}

/// A path found within any number of rounds is the path of the edge.
pub proof fn lemma_routed(m: Seq<TileBounds>, e: Segment, f: nat)
    requires
        route_edge(m, e, f) is Some,
    ensures
        routes(m, e),
        route_edge(m, e, f) == Some(routed(m, e)),
{
    let g = choose|f: nat| #[trigger] route_edge(m, e, f) is Some;
    if g <= f {
        lemma_route_edge_mono(m, e, g, f);
    } else {
        lemma_route_edge_mono(m, e, f, g);
    }
}

/// The orthogonal paths of the edges, one after another.
pub open spec fn all_routed(m: Seq<TileBounds>, edges: Seq<Segment>) -> Seq<Segment>
    decreases edges.len(),
{
    if edges.len() == 0 {
        seq![]
    } else {
        all_routed(m, edges.drop_last()) + routed(m, edges.last())
    }
}

/// Segment `q` goes from point `a` along a single axis (or stays at `a`).
pub open spec fn axis_aligned(q: Segment) -> bool {
    exists|k: int| 0 <= k < 3 && #[trigger] q.1.with(k, q.2.at(k)) == q.2
}

/// `s` is a chain of axis-aligned segments that continues segment `p`: each starts where the
/// one before it ends, and all keep the room index and axis of `p`.
pub open spec fn chain_from(p: Segment, s: Seq<Segment>) -> bool {
    &&& forall|i: int| 0 <= i < s.len() ==> axis_aligned(#[trigger] s[i])
    &&& forall|i: int| 0 <= i < s.len() ==> (#[trigger] s[i]).0 == p.0 && s[i].3 == p.3
    &&& s.len() > 0 ==> s[0].1 == p.2
    &&& forall|i: int| 0 <= i < s.len() - 1 ==> (#[trigger] s[i + 1]).1 == s[i].2
}

/// The last segment of `s`, or `p` when `s` is empty.
pub open spec fn last_of(p: Segment, s: Seq<Segment>) -> Segment {
    if s.len() > 0 {
        s.last()
    } else {
        p
    }
}

proof fn lemma_extend_aligned(prev: Segment, a: int, v: i64)
    requires
        0 <= a < 3,
    ensures
        axis_aligned(extend(prev, a, v)),
        extend(prev, a, v).1 == prev.2,
{
    let q = extend(prev, a, v);
    assert(q.1.with(a, q.2.at(a)) == q.2);
}

proof fn lemma_chain_concat(p: Segment, s1: Seq<Segment>, s2: Seq<Segment>)
    requires
        chain_from(p, s1),
        chain_from(last_of(p, s1), s2),
    ensures
        chain_from(p, s1 + s2),
        last_of(p, s1 + s2) == last_of(last_of(p, s1), s2),
{
    let s = s1 + s2;
    assert forall|i: int| 0 <= i < s.len() - 1 implies (#[trigger] s[i + 1]).1 == s[i].2 by {
        if i + 1 < s1.len() {
            assert(s[i + 1] == s1[i + 1]);
            assert(s[i] == s1[i]);
        } else if i + 1 == s1.len() {
            assert(s[i + 1] == s2[0]);
            assert(s[i] == s1[i]);
            assert(s2[0].1 == last_of(p, s1).2);
        } else {
            let j = i - s1.len();
            assert(s[i + 1] == s2[j + 1]);
            assert(s[i] == s2[j]);
            assert(s2[j + 1].1 == s2[j].2);
        }
    }
    assert forall|i: int| 0 <= i < s.len() implies axis_aligned(#[trigger] s[i]) && s[i].0 == p.0
        && s[i].3 == p.3 by {
        if i < s1.len() {
            assert(s[i] == s1[i]);
        } else {
            assert(s[i] == s2[i - s1.len()]);
        }
    }
}

proof fn lemma_step_chain(m: Seq<TileBounds>, start: Point3, target: Point3, a: int, st: RouteState)
    requires
        0 <= a < 3,
        route_step(m, start, target, a, st) is Some,
    ensures
        chain_from(st.0, route_step(m, start, target, a, st).unwrap().1),
        last_of(st.0, route_step(m, start, target, a, st).unwrap().1) == route_step(
            m,
            start,
            target,
            a,
            st,
        ).unwrap().0.0,
{
    let (st1, out) = route_step(m, start, target, a, st).unwrap();
    if out.len() > 0 {
        lemma_extend_aligned(st.0, a, st1.0.2.at(a));
    }
}

proof fn lemma_steps_chain(m: Seq<TileBounds>, start: Point3, target: Point3, a: int, st: RouteState)
    requires
        0 <= a,
        route_steps_from(m, start, target, a, st) is Some,
    ensures
        chain_from(st.0, route_steps_from(m, start, target, a, st).unwrap().1),
        last_of(st.0, route_steps_from(m, start, target, a, st).unwrap().1) == route_steps_from(
            m,
            start,
            target,
            a,
            st,
        ).unwrap().0.0,
    decreases 3 - a,
{
    if a < 3 {
        let (st1, out1) = route_step(m, start, target, a, st).unwrap();
        lemma_step_chain(m, start, target, a, st);
        lemma_steps_chain(m, start, target, a + 1, st1);
        let (st2, out2) = route_steps_from(m, start, target, a + 1, st1).unwrap();
        lemma_chain_concat(st.0, out1, out2);
    }
}

proof fn lemma_within_chain(m: Seq<TileBounds>, start: Point3, target: Point3, st: RouteState, fuel: nat)
    requires
        route_within(m, start, target, st, fuel) is Some,
    ensures
        chain_from(st.0, route_within(m, start, target, st, fuel).unwrap()),
        last_of(st.0, route_within(m, start, target, st, fuel).unwrap()).2 == target,
    decreases fuel,
{
    if st.0.2 != target {
        let (st1, out1) = route_round(m, start, target, st).unwrap();
        lemma_steps_chain(m, start, target, 0, st);
        lemma_within_chain(m, start, target, st1, (fuel - 1) as nat);
        let rest = route_within(m, start, target, st1, (fuel - 1) as nat).unwrap();
        lemma_chain_concat(st.0, out1, rest);
    }
}

/// Every path the router lays for an edge is orthogonal and unbroken: it starts at the start of
/// the edge, each segment runs along a single axis and starts where the one before it ends, every
/// segment keeps the edge's room index and split axis, and the last one ends at the end of the
/// edge.
pub proof fn lemma_route_is_orthogonal_path(m: Seq<TileBounds>, e: Segment, fuel: nat)
    requires
        route_edge(m, e, fuel) is Some,
    ensures
        route_edge(m, e, fuel).unwrap().len() >= 3,
        route_edge(m, e, fuel).unwrap()[0].1 == e.1,
        chain_from((e.0, e.1, e.1, e.3), route_edge(m, e, fuel).unwrap()),
        route_edge(m, e, fuel).unwrap().last().2 == e.2,
{
    let st = starting_tile(m, e).unwrap();
    let first = snaps(st, e);
    let p0 = (e.0, e.1, e.1, e.3);
    lemma_extend_aligned(p0, 0, first[0].2.at(0));
    lemma_extend_aligned(first[0], 1, first[1].2.at(1));
    lemma_extend_aligned(first[1], 2, first[2].2.at(2));
    assert(chain_from(p0, first));
    lemma_within_chain(m, e.1, e.2, (first[2], st), fuel);
    let rest = route_within(m, e.1, e.2, (first[2], st), fuel).unwrap();
    lemma_chain_concat(p0, first, rest);
}

/// The path of an edge that the router can route is orthogonal and unbroken (see
/// `lemma_route_is_orthogonal_path`).
pub proof fn lemma_routed_is_orthogonal_path(m: Seq<TileBounds>, e: Segment)
    requires
        routes(m, e),
    ensures
        routed(m, e).len() >= 3,
        routed(m, e)[0].1 == e.1,
        chain_from((e.0, e.1, e.1, e.3), routed(m, e)),
        routed(m, e).last().2 == e.2,
{
    let f = choose|f: nat| #[trigger] route_edge(m, e, f) is Some;
    lemma_route_is_orthogonal_path(m, e, f);
}

/// Finds the tile the router moves into from `cur` along axis `a` (`next_tile`).
fn find_next_tile(m: &Vec<TileBounds>, cur: TileBounds, target: Point3, a: usize, up: bool) -> (r:
    Option<TileBounds>)
    requires
        a < 3,
    ensures
        r == next_tile(m@, cur, target, a as int, up),
{
    let ghost cand = next_cand(cur, a as int, up);
    let ghost key = next_key(target, a as int, up);
    let mut best: Option<usize> = None;
    let mut best_key: i64 = 0;
    let mut k: usize = 0;
    while k < m.len()
        invariant
            a < 3,
            cand == next_cand(cur, a as int, up),
            key == next_key(target, a as int, up),
            0 <= k <= m@.len(),
            forall|j: int| 0 <= j < k && cand(#[trigger] m@[j]) ==> i64::MIN <= key(m@[j]) <= i64::MAX,
            best is None ==> forall|j: int| 0 <= j < k ==> !cand(#[trigger] m@[j]),
            best matches Some(b) ==> {
                &&& b < k
                &&& cand(m@[b as int])
                &&& best_key == key(m@[b as int])
                &&& forall|j: int| 0 <= j < k && cand(#[trigger] m@[j]) ==> key(m@[b as int]) <= key(m@[j])
                &&& forall|j: int| 0 <= j < b && cand(#[trigger] m@[j]) ==> key(m@[b as int]) < key(m@[j])
            },
        decreases m@.len() - k,
    {
        let t = m[k];
        let is_cand = if up {
            t.1.get(a) == cur.2.get(a) && t.0 != cur.0
        } else {
            (t.1.get(a) == cur.1.get(a) || t.2.get(a) == cur.1.get(a)) && t.0 != cur.0
        };
        assert(is_cand == cand(m@[k as int]));
        if is_cand {
            let d = if up {
                target.get(a).checked_sub(t.2.get(a))
            } else {
                t.1.get(a).checked_sub(target.get(a))
            };
            match d {
                Some(d) => {
                    assert(d == key(m@[k as int]));
                    match best {
                        Some(_) => {
                            if d < best_key {
                                best = Some(k);
                                best_key = d;
                            }
                        },
                        None => {
                            best = Some(k);
                            best_key = d;
                        },
                    }
                },
                None => {
                    assert(!keys_fit(m@, cand, key));
                    return None;
                },
            }
        }
        k = k + 1;
    }
    proof {
        lemma_first_min(m@, cand, key);
    }
    match best {
        Some(b) => {
            proof {
                assert(is_first_min(m@, cand, key, b as int));
            }
            Some(m[b])
        },
        None => None,
    }
}

/// Lays the segment that continues `prev` along axis `a` to coordinate `v`.
fn extend_exec(prev: Segment, a: usize, v: i64) -> (p: Segment)
    requires
        a < 3,
    ensures
        p == extend(prev, a as int, v),
{
    let mut end = prev.2;
    end.set(a, v);
    (prev.0, prev.2, end, prev.3)
}

/// One move of the router along axis `a` (`route_step`); false when it fails.
fn route_step_exec(
    m: &Vec<TileBounds>,
    start: Point3,
    target: Point3,
    a: usize,
    st: &mut RouteState,
    out: &mut Vec<Segment>,
) -> (ok: bool)
    requires
        a < 3,
    ensures
        ok == route_step(m@, start, target, a as int, *old(st)) is Some,
        ok ==> *final(st) == route_step(m@, start, target, a as int, *old(st)).unwrap().0,
        ok ==> final(out)@ == old(out)@ + route_step(m@, start, target, a as int, *old(st)).unwrap().1,
{
    let prev = st.0;
    let cur = st.1;
    if start.get(a) < target.get(a) {
        if prev.2.get(a) < target.get(a) {
            if cur.2.get(a) > target.get(a) {
                let p = extend_exec(prev, a, target.get(a));
                *st = (p, cur);
                out.push(p);
                true
            } else {
                match find_next_tile(m, cur, target, a, true) {
                    Some(t) => {
                        let p = extend_exec(prev, a, cur.2.get(a));
                        *st = (p, t);
                        out.push(p);
                        true
                    },
                    None => false,
                }
            }
        } else {
            assert(out@ + seq![] == out@);
            true
        }
    } else {
        if prev.2.get(a) > target.get(a) {
            if cur.1.get(a) < target.get(a) {
                let p = extend_exec(prev, a, target.get(a));
                *st = (p, cur);
                out.push(p);
                true
            } else {
                match find_next_tile(m, cur, target, a, false) {
                    Some(t) => {
                        let p = extend_exec(prev, a, cur.1.get(a));
                        *st = (p, t);
                        out.push(p);
                        true
                    },
                    None => false,
                }
            }
        } else {
            assert(out@ + seq![] == out@);
            true
        }
    }
}

/// One round of the router (`route_round`); false when it fails.
fn route_round_exec(
    m: &Vec<TileBounds>,
    start: Point3,
    target: Point3,
    st: &mut RouteState,
    out: &mut Vec<Segment>,
) -> (ok: bool)
    ensures
        ok == route_round(m@, start, target, *old(st)) is Some,
        ok ==> *final(st) == route_round(m@, start, target, *old(st)).unwrap().0,
        ok ==> final(out)@ == old(out)@ + route_round(m@, start, target, *old(st)).unwrap().1,
{
    reveal_with_fuel(route_steps_from, 4);
    let ghost st0 = *st;
    let ghost out0 = out@;
    if !route_step_exec(m, start, target, 0, st, out) {
        return false;
    }
    let ghost st1 = *st;
    let ghost out1 = out@;
    if !route_step_exec(m, start, target, 1, st, out) {
        return false;
    }
    let ghost st2 = *st;
    let ghost out2 = out@;
    if !route_step_exec(m, start, target, 2, st, out) {
        return false;
    }
    proof {
        let r2 = route_step(m@, start, target, 2, st2).unwrap();
        let r1 = route_step(m@, start, target, 1, st1).unwrap();
        let r0 = route_step(m@, start, target, 0, st0).unwrap();
        assert(route_steps_from(m@, start, target, 3, r2.0) == Some((r2.0, Seq::<Segment>::empty())));
        assert(route_steps_from(m@, start, target, 2, st2) == Some((r2.0, r2.1 + Seq::<Segment>::empty())));
        assert(out@ =~= out0 + (r0.1 + (r1.1 + (r2.1 + Seq::<Segment>::empty()))));
    }
    true
}

/// Puts `pre` before the path `o`, if there is one.
pub open spec fn prepend(pre: Seq<Segment>, o: Option<Seq<Segment>>) -> Option<Seq<Segment>> {
    match o {
        Some(x) => Some(pre + x),
        None => None,
    }
}

/// Runs rounds of the router from `st` until the last segment ends at `target`, for at most
/// `max_rounds` rounds (`route_within`); false when it fails or runs out of rounds.
fn route_rounds_exec(
    m: &Vec<TileBounds>,
    start: Point3,
    target: Point3,
    st: &mut RouteState,
    out: &mut Vec<Segment>,
    max_rounds: usize,
) -> (ok: bool)
    ensures
        ok == route_within(m@, start, target, *old(st), max_rounds as nat) is Some,
        ok ==> final(out)@ == old(out)@ + route_within(m@, start, target, *old(st), max_rounds as nat).unwrap(),
{
    let ghost st0 = *st;
    let ghost out0 = out@;
    let mut r: usize = 0;
    while st.0.2 != target
        invariant
            st0 == *old(st),
            out0 == old(out)@,
            r <= max_rounds,
            out0.len() <= out@.len(),
            out@.subrange(0, out0.len() as int) == out0,
            route_within(m@, start, target, st0, max_rounds as nat) == prepend(
                out@.subrange(out0.len() as int, out@.len() as int),
                route_within(m@, start, target, *st, (max_rounds - r) as nat),
            ),
        decreases max_rounds - r,
    {
        assert(st.0.2 != target);
        if r == max_rounds {
            assert(route_within(m@, start, target, *st, (max_rounds - r) as nat) is None);
            return false;
        }
        let ghost pre = out@.subrange(out0.len() as int, out@.len() as int);
        let ghost sti = *st;
        if !route_round_exec(m, start, target, st, out) {
            return false;
        }
        proof {
            let (st1, out1) = route_round(m@, start, target, sti).unwrap();
            assert(out@.subrange(out0.len() as int, out@.len() as int) =~= pre + out1);
            assert(out@.subrange(0, out0.len() as int) =~= out0);
            match route_within(m@, start, target, st1, (max_rounds - r - 1) as nat) {
                Some(rest) => {
                    assert(pre + (out1 + rest) =~= (pre + out1) + rest);
                },
                None => {},
            }
        }
        r = r + 1;
    }
    proof {
        let pre = out@.subrange(out0.len() as int, out@.len() as int);
        assert(pre + Seq::<Segment>::empty() =~= pre);
        assert(out@ =~= out0 + pre);
    }
    true
}

/// Runs rounds of the router from `st` until the last segment ends at `target`, where that is
/// known to happen within `fuel` rounds.
fn route_rounds_to_end(
    m: &Vec<TileBounds>,
    start: Point3,
    target: Point3,
    st: &mut RouteState,
    out: &mut Vec<Segment>,
    Ghost(fuel): Ghost<nat>,
)
    requires
        route_within(m@, start, target, *old(st), fuel) is Some,
    ensures
        final(out)@ == old(out)@ + route_within(m@, start, target, *old(st), fuel).unwrap(),
{
    let ghost st0 = *st;
    let ghost out0 = out@;
    let ghost mut g: nat = fuel;
    while st.0.2 != target
        invariant
            st0 == *old(st),
            out0 == old(out)@,
            out0.len() <= out@.len(),
            out@.subrange(0, out0.len() as int) == out0,
            route_within(m@, start, target, *st, g) is Some,
            route_within(m@, start, target, st0, fuel) == prepend(
                out@.subrange(out0.len() as int, out@.len() as int),
                route_within(m@, start, target, *st, g),
            ),
        decreases g,
    {
        let ghost pre = out@.subrange(out0.len() as int, out@.len() as int);
        let ghost sti = *st;
        let ok = route_round_exec(m, start, target, st, out);
        proof {
            let (st1, out1) = route_round(m@, start, target, sti).unwrap();
            assert(out@.subrange(out0.len() as int, out@.len() as int) =~= pre + out1);
            assert(out@.subrange(0, out0.len() as int) =~= out0);
            let rest = route_within(m@, start, target, st1, (g - 1) as nat).unwrap();
            assert(pre + (out1 + rest) =~= (pre + out1) + rest);
            g = (g - 1) as nat;
        }
    }
    proof {
        let pre = out@.subrange(out0.len() as int, out@.len() as int);
        assert(pre + Seq::<Segment>::empty() =~= pre);
        assert(out@ =~= out0 + pre);
    }
}

/// Finds the first tile whose index is `idx` (`starting_tile`).
fn find_tile_with_index(m: &Vec<TileBounds>, idx: usize) -> (r: Option<TileBounds>)
    ensures
        r == starting_tile(m@, (idx, Point3(0, 0, 0), Point3(0, 0, 0), Axis::X)),
{
    let ghost cand = has_index(idx);
    let ghost key = no_key();
    let mut k: usize = 0;
    while k < m.len()
        invariant
            cand == has_index(idx),
            key == no_key(),
            0 <= k <= m@.len(),
            forall|j: int| 0 <= j < k ==> !cand(#[trigger] m@[j]),
        decreases m@.len() - k,
    {
        if m[k].0 == idx {
            proof {
                lemma_first_min(m@, cand, key);
                assert(is_first_min(m@, cand, key, k as int));
            }
            return Some(m[k]);
        }
        k = k + 1;
    }
    None
}

/// Lays the segment that brings the end of `prev` onto the starting tile along axis `a` (`snap`).
fn snap_exec(st: TileBounds, start: Point3, target: Point3, a: usize, prev: Segment) -> (p: Segment)
    requires
        a < 3,
    ensures
        p == snap(st, start, target, a as int, prev),
{
    let v = if target.get(a) > st.2.get(a) {
        st.2.get(a)
    } else if target.get(a) < st.1.get(a) {
        st.1.get(a)
    } else {
        start.get(a)
    };
    extend_exec(prev, a, v)
}

/// Finds the starting tile of edge `e` and lays the segments that bring its start onto it.
fn route_start(m: &Vec<TileBounds>, e: Segment, out: &mut Vec<Segment>) -> (r: Option<RouteState>)
    ensures
        r is Some == starting_tile(m@, e) is Some,
        r matches Some(st) ==> {
            let t = starting_tile(m@, e).unwrap();
            &&& st == (snaps(t, e)[2], t)
            &&& final(out)@ == old(out)@ + snaps(t, e)
        },
{
    let found = find_tile_with_index(m, e.0);
    assert(has_index(e.0) == has_index((e.0, Point3(0, 0, 0), Point3(0, 0, 0), Axis::X).0));
    match found {
        Some(t) => {
            let p0 = (e.0, e.1, e.1, e.3);
            let p1 = snap_exec(t, e.1, e.2, 0, p0);
            out.push(p1);
            let p2 = snap_exec(t, e.1, e.2, 1, p1);
            out.push(p2);
            let p3 = snap_exec(t, e.1, e.2, 2, p2);
            out.push(p3);
            assert(final(out)@ =~= old(out)@ + snaps(t, e));
            Some((p3, t))
        },
        None => None,
    }
}

/// Lays the orthogonal path of edge `e` through the tiles `m`, giving the router at most
/// `max_rounds` rounds (`route_edge`); false when the router fails or runs out of rounds.
pub(crate) fn route_edge_bounded(m: &Vec<TileBounds>, e: Segment, out: &mut Vec<Segment>, max_rounds: usize) -> (ok: bool)
    ensures
        ok == route_edge(m@, e, max_rounds as nat) is Some,
        ok ==> final(out)@ == old(out)@ + route_edge(m@, e, max_rounds as nat).unwrap(),
{
    let ghost out0 = out@;
    match route_start(m, e, out) {
        Some(st) => {
            let ghost out1 = out@;
            let mut st = st;
            let ok = route_rounds_exec(m, e.1, e.2, &mut st, out, max_rounds);
            proof {
                if ok {
                    let t = starting_tile(m@, e).unwrap();
                    let rest = route_within(m@, e.1, e.2, (snaps(t, e)[2], t), max_rounds as nat).unwrap();
                    assert(out@ =~= out0 + (snaps(t, e) + rest));
                }
            }
            ok
        },
        None => false,
    }
}

/// Lays the orthogonal path of edge `e` through the tiles `m`, where the router is known to find
/// one (`routed`).
pub(crate) fn route_edge_complete(m: &Vec<TileBounds>, e: Segment, out: &mut Vec<Segment>)
    requires
        routes(m@, e),
    ensures
        final(out)@ == old(out)@ + routed(m@, e),
{
    let ghost f = choose|f: nat| #[trigger] route_edge(m@, e, f) is Some;
    proof {
        lemma_routed(m@, e, f);
    }
    let ghost out0 = out@;
    match route_start(m, e, out) {
        Some(st) => {
            let mut st = st;
            route_rounds_to_end(m, e.1, e.2, &mut st, out, Ghost(f));
            proof {
                let t = starting_tile(m@, e).unwrap();
                let rest = route_within(m@, e.1, e.2, (snaps(t, e)[2], t), f).unwrap();
                assert(out@ =~= out0 + (snaps(t, e) + rest));
            }
        },
        None => {},
    }
}

} // verus!
