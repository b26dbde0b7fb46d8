use vstd::prelude::*;
use crate::types::{Point3, Axis, Room, Tile, BSPNode, half, diff_fits};
use crate::CORRIDOR_WIDTH;
use crate::routing::{
    Segment, TileBounds, route_edge, routes, routed, all_routed, lemma_routed, route_edge_bounded,
    route_edge_complete,
};

verus! {

/// The centre of the face of the box `[lc, rc]` that lies on its high side along `axis`:
/// the coordinate along `axis` is that of `rc`, each other one is `rc` moved halfway back to `lc`.
pub open spec fn high_face_mid(lc: Point3, rc: Point3, axis: int) -> Point3 {
    Point3(
        if axis == 0 { rc.0 } else { (rc.0 - half(rc.0 - lc.0)) as i64 },
        if axis == 1 { rc.1 } else { (rc.1 - half(rc.1 - lc.1)) as i64 },
        if axis == 2 { rc.2 } else { (rc.2 - half(rc.2 - lc.2)) as i64 },
    )
}

/// The centre of the face of the box `[lc, rc]` that lies on its low side along `axis`.
pub open spec fn low_face_mid(lc: Point3, rc: Point3, axis: int) -> Point3 {
    Point3(
        if axis == 0 { lc.0 } else { (lc.0 + half(rc.0 - lc.0)) as i64 },
        if axis == 1 { lc.1 } else { (lc.1 + half(rc.1 - lc.1)) as i64 },
        if axis == 2 { lc.2 } else { (lc.2 + half(rc.2 - lc.2)) as i64 },
    )
}

/// Whether the spans of a box along the axes other than `axis` fit in an `i64`.
pub open spec fn spans_fit(lc: Point3, rc: Point3, axis: int) -> bool {
    &&& axis != 0 ==> diff_fits(rc.0, lc.0)
    &&& axis != 1 ==> diff_fits(rc.1, lc.1)
    &&& axis != 2 ==> diff_fits(rc.2, lc.2)
}

/// The edge that joins room `r1` to room `r2` across a split along `axis`.
pub open spec fn spec_edge_rooms(r1: Room, r2: Room, axis: Axis) -> (usize, Point3, Point3, Axis) {
    (r1.0, high_face_mid(r1.1, r1.2, axis.num()), low_face_mid(r2.1, r2.2, axis.num()), axis)
}

proof fn lemma_half_bounds(x: int)
    ensures
        x >= 0 ==> 0 <= half(x) <= x,
        x < 0 ==> x <= half(x) <= 0,
{
}

/// Joins room `r1`, on the low side of a split along `axis`, to room `r2` on its high side:
/// the edge runs from the centre of the face of `r1` that looks across the split to the centre of
/// the face of `r2` that looks back.
pub fn edge_rooms(r1: &Room, r2: &Room, axis: Axis) -> (e: (usize, Point3, Point3, Axis))
    requires
        spans_fit(r1.1, r1.2, axis.num()),
        spans_fit(r2.1, r2.2, axis.num()),
    ensures
        e == spec_edge_rooms(*r1, *r2, axis),
{
    proof {
        lemma_half_bounds(r1.2.0 - r1.1.0);
        lemma_half_bounds(r1.2.1 - r1.1.1);
        lemma_half_bounds(r1.2.2 - r1.1.2);
        lemma_half_bounds(r2.2.0 - r2.1.0);
        lemma_half_bounds(r2.2.1 - r2.1.1);
        lemma_half_bounds(r2.2.2 - r2.1.2);
    }
    match axis {
        Axis::X => {
            let left_mid = Point3(
                r1.2.0,
                r1.2.1 - ((r1.2.1 - r1.1.1) / 2),
                r1.2.2 - ((r1.2.2 - r1.1.2) / 2),
            );
            let right_mid = Point3(
                r2.1.0,
                r2.1.1 + ((r2.2.1 - r2.1.1) / 2),
                r2.1.2 + ((r2.2.2 - r2.1.2) / 2),
            );
            (r1.0, left_mid, right_mid, axis)
        },
        Axis::Y => {
            let left_mid = Point3(
                r1.2.0 - ((r1.2.0 - r1.1.0) / 2),
                r1.2.1,
                r1.2.2 - ((r1.2.2 - r1.1.2) / 2),
            );
            let right_mid = Point3(
                r2.1.0 + ((r2.2.0 - r2.1.0) / 2),
                r2.1.1,
                r2.1.2 + ((r2.2.2 - r2.1.2) / 2),
            );
            (r1.0, left_mid, right_mid, axis)
        },
        Axis::Z => {
            let left_mid = Point3(
                r1.2.0 - ((r1.2.0 - r1.1.0) / 2),
                r1.2.1 - ((r1.2.1 - r1.1.1) / 2),
                r1.2.2,
            );
            let right_mid = Point3(
                r2.1.0 + ((r2.2.0 - r2.1.0) / 2),
                r2.1.1 + ((r2.2.1 - r2.1.1) / 2),
                r2.1.2,
            );
            (r1.0, left_mid, right_mid, axis)
        },
    }
}


/// The squared distance from `p` to the low corner and to the high corner of room `r`.
pub open spec fn corner_dists(r: Room, p: Point3) -> (int, int) {
    (
        (p.0 - r.1.0) * (p.0 - r.1.0) + (p.1 - r.1.1) * (p.1 - r.1.1) + (p.2 - r.1.2) * (p.2 - r.1.2),
        (p.0 - r.2.0) * (p.0 - r.2.0) + (p.1 - r.2.1) * (p.1 - r.2.1) + (p.2 - r.2.2) * (p.2 - r.2.2),
    )
}

/// How close room `r` is to `p`: the nearer of its two corners, by squared distance.
pub open spec fn closeness(r: Room, p: Point3) -> int {
    let d = corner_dists(r, p);
    if d.0 <= d.1 { d.0 } else { d.1 }
}

/// Whether the squared distance from `a` to `b`, summed axis by axis, stays within `i64` at every
/// step.
pub open spec fn sq_dist_fits(a: Point3, b: Point3) -> bool {
    let d0 = a.0 - b.0;
    let d1 = a.1 - b.1;
    let d2 = a.2 - b.2;
    &&& i64::MIN <= d0 <= i64::MAX
    &&& i64::MIN <= d1 <= i64::MAX
    &&& i64::MIN <= d2 <= i64::MAX
    &&& d0 * d0 <= i64::MAX
    &&& d1 * d1 <= i64::MAX
    &&& d2 * d2 <= i64::MAX
    &&& d0 * d0 + d1 * d1 <= i64::MAX
    &&& d0 * d0 + d1 * d1 + d2 * d2 <= i64::MAX
}

/// Whether the distances from `p` to both corners of room `r` can be computed in `i64`.
pub open spec fn room_dist_fits(r: Room, p: Point3) -> bool {
    sq_dist_fits(p, r.1) && sq_dist_fits(p, r.2)
}

/// `i` is the first of the rooms that comes closest to `p`.
pub open spec fn is_first_closest(rooms: Seq<Room>, p: Point3, i: int) -> bool {
    &&& 0 <= i < rooms.len()
    &&& forall|j: int| 0 <= j < rooms.len() ==> closeness(rooms[i], p) <= closeness(#[trigger] rooms[j], p)
    &&& forall|j: int| 0 <= j < i ==> closeness(rooms[i], p) < closeness(#[trigger] rooms[j], p)
}

/// The first of the rooms that comes closest to `p` (meaningful when there is a room).
pub open spec fn first_closest(rooms: Seq<Room>, p: Point3) -> int {
    choose|i: int| is_first_closest(rooms, p, i)
}

/// There is exactly one first closest room in a list that is not empty.
pub proof fn lemma_first_closest(rooms: Seq<Room>, p: Point3)
    requires
        rooms.len() > 0,
    ensures
        is_first_closest(rooms, p, first_closest(rooms, p)),
        forall|i: int| is_first_closest(rooms, p, i) ==> i == first_closest(rooms, p),
    decreases rooms.len(),
{
    if rooms.len() == 1 {
        assert(is_first_closest(rooms, p, 0));
    } else {
        let init = rooms.drop_last();
        lemma_first_closest(init, p);
        let k = first_closest(init, p);
        let last = rooms.len() - 1;
        assert forall|j: int| 0 <= j < last implies #[trigger] rooms[j] == init[j] by {}
        if closeness(rooms[last], p) < closeness(init[k], p) {
            assert forall|j: int| 0 <= j < rooms.len() implies closeness(rooms[last], p) <= closeness(
                #[trigger] rooms[j],
                p,
            ) by {
                if j < last {
                    assert(init[k] == rooms[k]);
                    assert(closeness(init[k], p) <= closeness(init[j], p));
                }
            }
            assert forall|j: int| 0 <= j < last implies closeness(rooms[last], p) < closeness(
                #[trigger] rooms[j],
                p,
            ) by {
                assert(closeness(init[k], p) <= closeness(init[j], p));
            }
            assert(is_first_closest(rooms, p, last));
        } else {
            assert forall|j: int| 0 <= j < rooms.len() implies closeness(rooms[k], p) <= closeness(
                #[trigger] rooms[j],
                p,
            ) by {
                assert(init[k] == rooms[k]);
                if j < last {
                    assert(closeness(init[k], p) <= closeness(init[j], p));
                }
            }
            assert forall|j: int| 0 <= j < k implies closeness(rooms[k], p) < closeness(
                #[trigger] rooms[j],
                p,
            ) by {
                assert(init[k] == rooms[k]);
                assert(closeness(init[k], p) < closeness(init[j], p));
            }
            assert(is_first_closest(rooms, p, k));
        }
    }
    let w = first_closest(rooms, p);
    assert forall|i: int| is_first_closest(rooms, p, i) implies i == w by {
        if i < w {
            assert(closeness(rooms[w], p) <= closeness(rooms[i], p));
        } else if w < i {
            assert(closeness(rooms[i], p) <= closeness(rooms[w], p));
        }
    }
}

/// The edges that join the rooms on the two sides of a split: none if a side has no room, else
/// the one edge from the left room closest to `split_pos` to the right room closest to it.
pub open spec fn spec_generate_edges(
    left: Seq<Room>,
    right: Seq<Room>,
    axis: Axis,
    split_pos: Point3,
) -> Seq<(usize, Point3, Point3, Axis)> {
    if left.len() == 0 || right.len() == 0 {
        seq![]
    } else {
        seq![spec_edge_rooms(left[first_closest(left, split_pos)], right[first_closest(right, split_pos)], axis)]
    }
}

/// The squared Euclidean distance between `a` and `b`.
pub open spec fn sq_dist(a: Point3, b: Point3) -> int {
    (a.0 - b.0) * (a.0 - b.0) + (a.1 - b.1) * (a.1 - b.1) + (a.2 - b.2) * (a.2 - b.2)
}

/// Room `q` lies at least as near to `p` as room `r`: one of the corners of `q` is at most as far
/// from `p` as both corners of `r`.
pub open spec fn no_farther(q: Room, r: Room, p: Point3) -> bool {
    ||| sq_dist(p, q.1) <= sq_dist(p, r.1) && sq_dist(p, q.1) <= sq_dist(p, r.2)
    ||| sq_dist(p, q.2) <= sq_dist(p, r.1) && sq_dist(p, q.2) <= sq_dist(p, r.2)
}

/// Room `i` is the first of the rooms whose nearer corner lies nearest to `p`: no room is nearer,
/// and every room before it is strictly farther.
pub open spec fn is_first_nearest(rooms: Seq<Room>, p: Point3, i: int) -> bool {
    &&& 0 <= i < rooms.len()
    &&& forall|j: int| 0 <= j < rooms.len() ==> no_farther(rooms[i], #[trigger] rooms[j], p)
    &&& forall|j: int| 0 <= j < i ==> !no_farther(#[trigger] rooms[j], rooms[i], p)
}

/// A split joins the rooms nearest to its split point: when both sides hold rooms, the one edge
/// laid runs from the first left room whose nearer corner (by squared distance, over both of its
/// corners) lies nearest to `split_pos`, to the first such right room.
pub proof fn lemma_join_nearest_rooms(left: Seq<Room>, right: Seq<Room>, axis: Axis, split_pos: Point3)
    requires
        left.len() > 0,
        right.len() > 0,
    ensures
        exists|i: int, k: int|
            is_first_nearest(left, split_pos, i) && is_first_nearest(right, split_pos, k)
                && spec_generate_edges(left, right, axis, split_pos) == seq![
                spec_edge_rooms(left[i], right[k], axis),
            ],
{
    lemma_first_closest(left, split_pos);
    lemma_first_closest(right, split_pos);
    let i = first_closest(left, split_pos);
    let k = first_closest(right, split_pos);
    lemma_first_closest_nearest(left, split_pos);
    lemma_first_closest_nearest(right, split_pos);
    assert(is_first_nearest(left, split_pos, i) && is_first_nearest(right, split_pos, k));
    assert(spec_generate_edges(left, right, axis, split_pos) == seq![spec_edge_rooms(left[i], right[k], axis)]);
    assert(is_first_nearest(left, split_pos, i) && is_first_nearest(right, split_pos, k)
        && spec_generate_edges(left, right, axis, split_pos) == seq![spec_edge_rooms(left[i], right[k], axis)]);
}

proof fn lemma_closeness_nearer_corner(r: Room, p: Point3)
    ensures
        closeness(r, p) == sq_dist(p, r.1) || closeness(r, p) == sq_dist(p, r.2),
        closeness(r, p) <= sq_dist(p, r.1),
        closeness(r, p) <= sq_dist(p, r.2),
{
}

proof fn lemma_first_closest_nearest(rooms: Seq<Room>, p: Point3)
    requires
        rooms.len() > 0,
    ensures
        is_first_nearest(rooms, p, first_closest(rooms, p)),
{
    lemma_first_closest(rooms, p);
    let i = first_closest(rooms, p);
    lemma_closeness_nearer_corner(rooms[i], p);
    assert forall|j: int| 0 <= j < rooms.len() implies no_farther(rooms[i], #[trigger] rooms[j], p) by {
        lemma_closeness_nearer_corner(rooms[j], p);
        assert(closeness(rooms[i], p) <= closeness(rooms[j], p));
    }
    assert forall|j: int| 0 <= j < i implies !no_farther(#[trigger] rooms[j], rooms[i], p) by {
        lemma_closeness_nearer_corner(rooms[j], p);
        assert(closeness(rooms[i], p) < closeness(rooms[j], p));
    }
}

/// What `generate_edges` needs to compute without overflow. Nothing when a side has no room, as
/// it then computes nothing; else every distance to `split_pos`, and the spans of the two rooms
/// it joins.
pub open spec fn generate_edges_ok(left: Seq<Room>, right: Seq<Room>, axis: Axis, split_pos: Point3) -> bool {
    (left.len() > 0 && right.len() > 0) ==> {
        &&& forall|i: int| 0 <= i < left.len() ==> room_dist_fits(#[trigger] left[i], split_pos)
        &&& forall|i: int| 0 <= i < right.len() ==> room_dist_fits(#[trigger] right[i], split_pos)
        &&& spans_fit(left[first_closest(left, split_pos)].1, left[first_closest(left, split_pos)].2, axis.num())
        &&& spans_fit(right[first_closest(right, split_pos)].1, right[first_closest(right, split_pos)].2, axis.num())
    }
}

/// The squared distances from `p` to the two corners of room `r`.
fn get_point_dist(r: &Room, p: Point3) -> (d: (i64, i64))
    requires
        room_dist_fits(*r, p),
    ensures
        d.0 == corner_dists(*r, p).0,
        d.1 == corner_dists(*r, p).1,
{
    let a0 = p.0 - r.1.0;
    let a1 = p.1 - r.1.1;
    let a2 = p.2 - r.1.2;
    let b0 = p.0 - r.2.0;
    let b1 = p.1 - r.2.1;
    let b2 = p.2 - r.2.2;
    assert(0 <= a0 * a0) by (nonlinear_arith);
    assert(0 <= a1 * a1) by (nonlinear_arith);
    assert(0 <= a2 * a2) by (nonlinear_arith);
    assert(0 <= b0 * b0) by (nonlinear_arith);
    assert(0 <= b1 * b1) by (nonlinear_arith);
    assert(0 <= b2 * b2) by (nonlinear_arith);
    (a0 * a0 + a1 * a1 + a2 * a2, b0 * b0 + b1 * b1 + b2 * b2)
}

/// The index of the first room that comes closest to `p`.
pub(crate) fn closest_room(rooms: &[&Room], p: Point3) -> (i: usize)
    requires
        rooms@.len() > 0,
        forall|j: int| 0 <= j < rooms@.len() ==> room_dist_fits(*#[trigger] rooms@[j], p),
    ensures
        i < rooms@.len(),
        i == first_closest(rooms@.map_values(|r: &Room| *r), p),
{
    let ghost s = rooms@.map_values(|r: &Room| *r);
    let mut best: usize = 0;
    let mut best_d: i64 = i64::MAX;
    let mut k: usize = 0;
    while k < rooms.len()
        invariant
            s == rooms@.map_values(|r: &Room| *r),
            forall|j: int| 0 <= j < rooms@.len() ==> room_dist_fits(*#[trigger] rooms@[j], p),
            0 <= k <= rooms@.len(),
            best < rooms@.len(),
            k == 0 ==> best == 0 && best_d == i64::MAX,
            k > 0 ==> best < k && best_d == closeness(s[best as int], p),
            forall|j: int| 0 <= j < k ==> best_d <= closeness(#[trigger] s[j], p),
            forall|j: int| 0 <= j < best ==> best_d < closeness(#[trigger] s[j], p),
        decreases rooms@.len() - k,
    {
        let d = get_point_dist(rooms[k], p);
        if d.0 < best_d || d.1 < best_d {
            best = k;
            best_d = if d.0 <= d.1 { d.0 } else { d.1 };
        }
        k = k + 1;
    }
    proof {
        lemma_first_closest(s, p);
        if best_d == i64::MAX {
            assert(forall|j: int| 0 <= j < s.len() ==> closeness(#[trigger] s[j], p) <= i64::MAX);
        }
        assert(is_first_closest(s, p, best as int));
    }
    best
}

/// Joins the two sides of a split: appends to `edges` the edge from the left room closest to
/// `split_pos` to the right room closest to it, or nothing when a side has no room.
pub fn generate_edges(
    rooms: (&[&Room], &[&Room]),
    axis: Axis,
    split_pos: Point3,
    edges: &mut Vec<(usize, Point3, Point3, Axis)>,
)
    requires
        generate_edges_ok(
            rooms.0@.map_values(|r: &Room| *r),
            rooms.1@.map_values(|r: &Room| *r),
            axis,
            split_pos,
        ),
    ensures
        final(edges)@ == old(edges)@ + spec_generate_edges(
            rooms.0@.map_values(|r: &Room| *r),
            rooms.1@.map_values(|r: &Room| *r),
            axis,
            split_pos,
        ),
{
    let ghost l = rooms.0@.map_values(|r: &Room| *r);
    let ghost r = rooms.1@.map_values(|r: &Room| *r);
    if rooms.0.len() == 0 || rooms.1.len() == 0 {
        assert(edges@ + spec_generate_edges(l, r, axis, split_pos) == edges@);
        return;
    }
    assert forall|j: int| 0 <= j < rooms.0@.len() implies room_dist_fits(*#[trigger] rooms.0@[j], split_pos) by {
        assert(l[j] == *rooms.0@[j]);
    }
    assert forall|j: int| 0 <= j < rooms.1@.len() implies room_dist_fits(*#[trigger] rooms.1@[j], split_pos) by {
        assert(r[j] == *rooms.1@[j]);
    }
    let li = closest_room(rooms.0, split_pos);
    let ri = closest_room(rooms.1, split_pos);
    assert(l[li as int] == *rooms.0@[li as int]);
    assert(r[ri as int] == *rooms.1@[ri as int]);
    let e = edge_rooms(rooms.0[li], rooms.1[ri], axis);
    edges.push(e);
}

/// The rooms of the subtree at `node`, left to right, down to the nodes split `divisions` times.
pub open spec fn dfs_rooms(node: BSPNode<Tile>, divisions: u32) -> Seq<Room>
    decreases node,
{
    if node.value.split_count < divisions {
        match (node.left, node.right) {
            (Some(l), Some(r)) => dfs_rooms(*l, divisions) + dfs_rooms(*r, divisions),
            _ => seq![],
        }
    } else {
        match node.value.room {
            Some(room) => seq![room],
            None => seq![],
        }
    }
}

/// The edges that join the rooms of the subtree at `node`: those of the left half, then those
/// of the right half, then the one (if any) that joins the two halves.
pub open spec fn dfs_edges(node: BSPNode<Tile>, divisions: u32) -> Seq<(usize, Point3, Point3, Axis)>
    decreases node,
{
    if node.value.split_count < divisions {
        match (node.left, node.right) {
            (Some(l), Some(r)) => dfs_edges(*l, divisions) + dfs_edges(*r, divisions)
                + spec_generate_edges(
                dfs_rooms(*l, divisions),
                dfs_rooms(*r, divisions),
                node.split_d,
                l.value.rc,
            ),
            _ => seq![],
        }
    } else {
        seq![]
    }
}

/// Whether `edge_dfs` can walk the subtree at `node`: no node is split more than `divisions`
/// times, each node split fewer times has both halves, and each join can be computed.
pub open spec fn dfs_ok(node: BSPNode<Tile>, divisions: u32) -> bool
    decreases node,
{
    &&& node.value.split_count <= divisions
    &&& node.value.split_count < divisions ==> match (node.left, node.right) {
        (Some(l), Some(r)) => {
            &&& dfs_ok(*l, divisions)
            &&& dfs_ok(*r, divisions)
            &&& generate_edges_ok(
                dfs_rooms(*l, divisions),
                dfs_rooms(*r, divisions),
                node.split_d,
                l.value.rc,
            )
        },
        _ => false,
    }
}

/// `edge_dfs` lays one edge fewer than the rooms it finds (none when it finds none): each join
/// of two halves that both hold rooms adds one edge.
pub proof fn lemma_dfs_edge_count(node: BSPNode<Tile>, divisions: u32)
    ensures
        dfs_edges(node, divisions).len() == if dfs_rooms(node, divisions).len() == 0 {
            0
        } else {
            dfs_rooms(node, divisions).len() - 1
        },
    decreases node,
{
    if node.value.split_count < divisions {
        match (node.left, node.right) {
            (Some(l), Some(r)) => {
                lemma_dfs_edge_count(*l, divisions);
                lemma_dfs_edge_count(*r, divisions);
            },
            _ => {},
        }
    }
}

/// Point `p` lies within `b` of the origin on every axis.
pub open spec fn near_origin(p: Point3, b: int) -> bool {
    -b <= p.0 <= b && -b <= p.1 <= b && -b <= p.2 <= b
}

/// The largest coordinate for which `edge_dfs` is known never to overflow.
pub open spec fn safe_coord() -> int {
    500_000_000
}

/// Whether the subtree at `node` has the shape `edge_dfs` walks (no node split more than
/// `divisions` times, each node split fewer times with both halves) and keeps its rooms and split
/// points within `safe_coord()` of the origin.
pub open spec fn walkable_and_near(node: BSPNode<Tile>, divisions: u32) -> bool
    decreases node,
{
    &&& node.value.split_count <= divisions
    &&& if node.value.split_count < divisions {
        match (node.left, node.right) {
            (Some(l), Some(r)) => {
                &&& near_origin(l.value.rc, safe_coord())
                &&& walkable_and_near(*l, divisions)
                &&& walkable_and_near(*r, divisions)
            },
            _ => false,
        }
    } else {
        node.value.room matches Some(room) ==> near_origin(room.1, safe_coord()) && near_origin(
            room.2,
            safe_coord(),
        )
    }
}

proof fn lemma_rooms_near(node: BSPNode<Tile>, divisions: u32)
    requires
        walkable_and_near(node, divisions),
    ensures
        forall|i: int|
            0 <= i < dfs_rooms(node, divisions).len() ==> near_origin(
                (#[trigger] dfs_rooms(node, divisions)[i]).1,
                safe_coord(),
            ) && near_origin(dfs_rooms(node, divisions)[i].2, safe_coord()),
    decreases node,
{
    if node.value.split_count < divisions {
        let l = *node.left.unwrap();
        let r = *node.right.unwrap();
        lemma_rooms_near(l, divisions);
        lemma_rooms_near(r, divisions);
        let a = dfs_rooms(l, divisions);
        let b = dfs_rooms(r, divisions);
        assert forall|i: int| 0 <= i < (a + b).len() implies near_origin((#[trigger] (a + b)[i]).1, safe_coord())
            && near_origin((a + b)[i].2, safe_coord()) by {
            if i < a.len() {
                assert((a + b)[i] == a[i]);
            } else {
                assert((a + b)[i] == b[i - a.len()]);
            }
        }
    }
}

proof fn lemma_sq_dist_near(p: Point3, q: Point3)
    requires
        near_origin(p, safe_coord()),
        near_origin(q, safe_coord()),
    ensures
        sq_dist_fits(p, q),
{
    let d0 = p.0 - q.0;
    let d1 = p.1 - q.1;
    let d2 = p.2 - q.2;
    assert(d0 * d0 <= 1_000_000_000_000_000_000) by (nonlinear_arith)
        requires
            -1_000_000_000 <= d0 <= 1_000_000_000,
    ;
    assert(d1 * d1 <= 1_000_000_000_000_000_000) by (nonlinear_arith)
        requires
            -1_000_000_000 <= d1 <= 1_000_000_000,
    ;
    assert(d2 * d2 <= 1_000_000_000_000_000_000) by (nonlinear_arith)
        requires
            -1_000_000_000 <= d2 <= 1_000_000_000,
    ;
    assert(0 <= d0 * d0) by (nonlinear_arith);
    assert(0 <= d1 * d1) by (nonlinear_arith);
    assert(0 <= d2 * d2) by (nonlinear_arith);
}

/// `edge_dfs` never fails on a partition of the shape it walks whose rooms and split points lie
/// within `safe_coord()` of the origin: its `requires` holds there.
pub proof fn lemma_near_is_walkable(node: BSPNode<Tile>, divisions: u32)
    requires
        walkable_and_near(node, divisions),
    ensures
        dfs_ok(node, divisions),
    decreases node,
{
    if node.value.split_count < divisions {
        let l = *node.left.unwrap();
        let r = *node.right.unwrap();
        lemma_near_is_walkable(l, divisions);
        lemma_near_is_walkable(r, divisions);
        lemma_rooms_near(l, divisions);
        lemma_rooms_near(r, divisions);
        let a = dfs_rooms(l, divisions);
        let b = dfs_rooms(r, divisions);
        let p = l.value.rc;
        if a.len() > 0 && b.len() > 0 {
            assert forall|i: int| 0 <= i < a.len() implies room_dist_fits(#[trigger] a[i], p) by {
                lemma_sq_dist_near(p, a[i].1);
                lemma_sq_dist_near(p, a[i].2);
            }
            assert forall|i: int| 0 <= i < b.len() implies room_dist_fits(#[trigger] b[i], p) by {
                lemma_sq_dist_near(p, b[i].1);
                lemma_sq_dist_near(p, b[i].2);
            }
            lemma_first_closest(a, p);
            lemma_first_closest(b, p);
            let x = a[first_closest(a, p)];
            let y = b[first_closest(b, p)];
            assert(near_origin(x.1, safe_coord()) && near_origin(x.2, safe_coord()));
            assert(near_origin(y.1, safe_coord()) && near_origin(y.2, safe_coord()));
        }
    }
}

/// Walks the partition below `root` depth first: appends to `edges` the edges that join its
/// rooms (`dfs_edges`) and returns its rooms (`dfs_rooms`).
pub fn edge_dfs<'a>(
    root: &'a BSPNode<Tile>,
    divisions: u32,
    edges: &mut Vec<(usize, Point3, Point3, Axis)>,
) -> (rooms: Vec<&'a Room>)
    requires
        dfs_ok(*root, divisions),
    ensures
        rooms@.map_values(|r: &Room| *r) == dfs_rooms(*root, divisions),
        final(edges)@ == old(edges)@ + dfs_edges(*root, divisions),
    decreases root,
{
    if divisions - root.value.split_count >= 1 {
        match (&root.left, &root.right) {
            (Some(l), Some(r)) => {
                let mut left_rooms = edge_dfs(l, divisions, edges);
                let mut right_rooms = edge_dfs(r, divisions, edges);
                let ghost lr = left_rooms@;
                let ghost rr = right_rooms@;
                generate_edges((left_rooms.as_slice(), right_rooms.as_slice()), root.split_d, l.value.rc, edges);
                left_rooms.append(&mut right_rooms);
                assert(left_rooms@.map_values(|r: &Room| *r) == lr.map_values(|r: &Room| *r) + rr.map_values(|r: &Room| *r));
                left_rooms
            },
            _ => {
                Vec::new()
            },
        }
    } else {
        let mut rooms = Vec::new();
        if let Some(room) = &root.value.room {
            rooms.push(room);
        }
        assert(rooms@.map_values(|r: &Room| *r) == dfs_rooms(*root, divisions));
        rooms
    }
}

/// The tiles the router goes through: the first list of the tile map.
pub open spec fn router_tiles(map: Seq<Vec<TileBounds>>) -> Seq<TileBounds> {
    if map.len() > 0 {
        map[0]@
    } else {
        seq![]
    }
}

/// Whether the router finds, for each of the edges, its path through the tile map.
pub open spec fn paths_exist(edges: Seq<Segment>, map: Seq<Vec<TileBounds>>) -> bool {
    forall|i: int| 0 <= i < edges.len() ==> map.len() > 0 && routes(router_tiles(map), #[trigger] edges[i])
}

/// Whether the router finds, for each of the edges, its path through the tile map within
/// `max_rounds` rounds.
pub open spec fn paths_exist_within(edges: Seq<Segment>, map: Seq<Vec<TileBounds>>, max_rounds: nat) -> bool {
    forall|i: int|
        0 <= i < edges.len() ==> map.len() > 0 && route_edge(router_tiles(map), #[trigger] edges[i], max_rounds) is Some
}

/// Turns each edge into an orthogonal path through the tiles of `map[0]`: from the centre of a
/// room's face it steps onto the room's tile, then moves along X, Y and Z in turn, from tile to
/// adjoining tile, until it reaches the end of the edge. The paths come one after another.
pub fn orthogonal_paths(edges: Vec<Segment>, map: Vec<Vec<TileBounds>>) -> (paths: Vec<Segment>)
    requires
        paths_exist(edges@, map@),
    ensures
        paths@ == all_routed(router_tiles(map@), edges@),
{
    let mut new_edges: Vec<Segment> = Vec::new();
    let mut i: usize = 0;
    while i < edges.len()
        invariant
            paths_exist(edges@, map@),
            0 <= i <= edges@.len(),
            new_edges@ == all_routed(router_tiles(map@), edges@.take(i as int)),
        decreases edges@.len() - i,
    {
        let e = edges[i];
        assert(map@.len() > 0 && routes(router_tiles(map@), edges@[i as int]));
        route_edge_complete(&map[0], e, &mut new_edges);
        assert(edges@.take(i + 1).drop_last() =~= edges@.take(i as int));
        i = i + 1;
    }
    assert(edges@.take(edges@.len() as int) =~= edges@);
    new_edges
}

/// `orthogonal_paths`, with the router given at most `max_rounds` rounds for each edge: None when
/// it fails for some edge or needs more rounds.
pub fn try_orthogonal_paths(edges: Vec<Segment>, map: Vec<Vec<TileBounds>>, max_rounds: usize) -> (paths:
    Option<Vec<Segment>>)
    ensures
        paths is Some <==> paths_exist_within(edges@, map@, max_rounds as nat),
        paths matches Some(p) ==> p@ == all_routed(router_tiles(map@), edges@),
{
    let mut new_edges: Vec<Segment> = Vec::new();
    let mut i: usize = 0;
    while i < edges.len()
        invariant
            0 <= i <= edges@.len(),
            paths_exist_within(edges@.take(i as int), map@, max_rounds as nat),
            new_edges@ == all_routed(router_tiles(map@), edges@.take(i as int)),
        decreases edges@.len() - i,
    {
        let e = edges[i];
        if map.len() == 0 {
            assert(!paths_exist_within(edges@, map@, max_rounds as nat) ) by {
                assert(edges@[i as int] == e);
            }
            return None;
        }
        let ghost before = new_edges@;
        if !route_edge_bounded(&map[0], e, &mut new_edges, max_rounds) {
            assert(!paths_exist_within(edges@, map@, max_rounds as nat) ) by {
                assert(edges@[i as int] == e);
            }
            return None;
        }
        proof {
            lemma_routed(map@[0]@, e, max_rounds as nat);
            assert(edges@.take(i + 1).drop_last() =~= edges@.take(i as int));
            assert forall|j: int| 0 <= j < i + 1 implies map@.len() > 0 && route_edge(
                router_tiles(map@),
                #[trigger] edges@.take(i + 1)[j],
                max_rounds as nat,
            ) is Some by {
                if j < i {
                    assert(edges@.take(i + 1)[j] == edges@.take(i as int)[j]);
                }
            }
        }
        i = i + 1;
    }
    assert(edges@.take(edges@.len() as int) =~= edges@);
    Some(new_edges)
}

/// Turns each path segment into a corridor: the box around the segment, widened by
/// `CORRIDOR_WIDTH` on every side.
pub open spec fn spec_corridor(e: Segment) -> (Point3, Point3) {
    (
        Point3((e.1.0 - CORRIDOR_WIDTH) as i64, (e.1.1 - CORRIDOR_WIDTH) as i64, (e.1.2 - CORRIDOR_WIDTH) as i64),
        Point3((e.2.0 + CORRIDOR_WIDTH) as i64, (e.2.1 + CORRIDOR_WIDTH) as i64, (e.2.2 + CORRIDOR_WIDTH) as i64),
    )
}

/// Whether the corridor around segment `e` can be computed in `i64`.
pub open spec fn corridor_fits(e: Segment) -> bool {
    &&& e.1.0 - CORRIDOR_WIDTH >= i64::MIN
    &&& e.1.1 - CORRIDOR_WIDTH >= i64::MIN
    &&& e.1.2 - CORRIDOR_WIDTH >= i64::MIN
    &&& e.2.0 + CORRIDOR_WIDTH <= i64::MAX
    &&& e.2.1 + CORRIDOR_WIDTH <= i64::MAX
    &&& e.2.2 + CORRIDOR_WIDTH <= i64::MAX
}

/// The corridor boxes around the path segments, in order.
pub fn create_corridors(edges: Vec<Segment>) -> (boxes: Vec<(Point3, Point3)>)
    requires
        forall|i: int| 0 <= i < edges@.len() ==> corridor_fits(#[trigger] edges@[i]),
    ensures
        boxes@ == edges@.map_values(|e: Segment| spec_corridor(e)),
        boxes@.len() == edges@.len(),
        forall|i: int|
            0 <= i < edges@.len() ==> {
                let e = #[trigger] edges@[i];
                let b = boxes@[i];
                &&& b.0.0 == e.1.0 - CORRIDOR_WIDTH
                &&& b.0.1 == e.1.1 - CORRIDOR_WIDTH
                &&& b.0.2 == e.1.2 - CORRIDOR_WIDTH
                &&& b.1.0 == e.2.0 + CORRIDOR_WIDTH
                &&& b.1.1 == e.2.1 + CORRIDOR_WIDTH
                &&& b.1.2 == e.2.2 + CORRIDOR_WIDTH
            },
{
    let mut boxes = Vec::<(Point3, Point3)>::new();
    let mut i: usize = 0;
    while i < edges.len()
        invariant
            forall|i: int| 0 <= i < edges@.len() ==> corridor_fits(#[trigger] edges@[i]),
            0 <= i <= edges@.len(),
            boxes@ == edges@.take(i as int).map_values(|e: Segment| spec_corridor(e)),
        decreases edges@.len() - i,
    {
        let e = edges[i];
        assert(corridor_fits(edges@[i as int]));
        let c1 = Point3(e.1.0 - CORRIDOR_WIDTH, e.1.1 - CORRIDOR_WIDTH, e.1.2 - CORRIDOR_WIDTH);
        let c2 = Point3(e.2.0 + CORRIDOR_WIDTH, e.2.1 + CORRIDOR_WIDTH, e.2.2 + CORRIDOR_WIDTH);
        boxes.push((c1, c2));
        assert(edges@.take(i + 1).map_values(|e: Segment| spec_corridor(e)) =~= edges@.take(
            i as int,
        ).map_values(|e: Segment| spec_corridor(e)).push(spec_corridor(e)));
        i = i + 1;
    }
    assert(edges@.take(edges@.len() as int) =~= edges@);
    proof {
        assert forall|i: int| 0 <= i < edges@.len() implies {
            let e = #[trigger] edges@[i];
            let b = boxes@[i];
            &&& b.0.0 == e.1.0 - CORRIDOR_WIDTH
            &&& b.0.1 == e.1.1 - CORRIDOR_WIDTH
            &&& b.0.2 == e.1.2 - CORRIDOR_WIDTH
            &&& b.1.0 == e.2.0 + CORRIDOR_WIDTH
            &&& b.1.1 == e.2.1 + CORRIDOR_WIDTH
            &&& b.1.2 == e.2.2 + CORRIDOR_WIDTH
        } by {
            lemma_corridor_widens(edges@[i]);
        }
    }
    boxes
}

/// Every segment, a single point included, becomes a box widened by `CORRIDOR_WIDTH` on every
/// side: its low corner is the segment's start moved down by the width on each axis, its high
/// corner the segment's end moved up by it.
pub proof fn lemma_corridor_widens(e: Segment)
    requires
        corridor_fits(e),
    ensures
        spec_corridor(e).0.0 == e.1.0 - CORRIDOR_WIDTH,
        spec_corridor(e).0.1 == e.1.1 - CORRIDOR_WIDTH,
        spec_corridor(e).0.2 == e.1.2 - CORRIDOR_WIDTH,
        spec_corridor(e).1.0 == e.2.0 + CORRIDOR_WIDTH,
        spec_corridor(e).1.1 == e.2.1 + CORRIDOR_WIDTH,
        spec_corridor(e).1.2 == e.2.2 + CORRIDOR_WIDTH,
{
}

} // verus!
