use vstd::prelude::*;
use crate::types::{Point3, Axis, Room, Tile, BSPNode};
use crate::{
    CORRIDOR_WIDTH,
    RoomPlacement, placement_fits, placed, build_ok, build_dfs, build_leaves, room_boxes,
    lemma_room_boxes_concat, lemma_room_boxes_single,
    ABS_DIST_X, ABS_DIST_Y, ABS_DIST_Z,
};
use crate::routing::{Segment, all_routed, route_edge};
use crate::obj::{
    box_text, boxes_text, lemma_boxes_text_concat, obj_header, create_obj, add_obj_box, vertex_lines,
    lemma_export_vertex_count,
};
use crate::map::{build_map, bounds_of, sort_by_high};
use crate::edges::{
    dfs_edges, edge_dfs, corridor_fits, spec_corridor, create_corridors, try_orthogonal_paths,
    router_tiles, sq_dist_fits, room_dist_fits, spans_fit, generate_edges_ok, dfs_ok, dfs_rooms,
    closest_room, lemma_corridor_widens,
};

verus! {

/// Whether the squared distance from `a` to `b` can be computed in `i64` (`sq_dist_fits`).
fn sq_dist_computable(a: Point3, b: Point3) -> (ok: bool)
    ensures
        ok == sq_dist_fits(a, b),
{
    let d0 = match a.0.checked_sub(b.0) {
        Some(d) => d,
        None => return false,
    };
    let d1 = match a.1.checked_sub(b.1) {
        Some(d) => d,
        None => return false,
    };
    let d2 = match a.2.checked_sub(b.2) {
        Some(d) => d,
        None => return false,
    };
    proof {
        assert(0 <= d0 * d0) by (nonlinear_arith);
        assert(0 <= d1 * d1) by (nonlinear_arith);
        assert(0 <= d2 * d2) by (nonlinear_arith);
    }
    let s0 = match d0.checked_mul(d0) {
        Some(s) => s,
        None => return false,
    };
    let s1 = match d1.checked_mul(d1) {
        Some(s) => s,
        None => return false,
    };
    let s2 = match d2.checked_mul(d2) {
        Some(s) => s,
        None => return false,
    };
    let t = match s0.checked_add(s1) {
        Some(t) => t,
        None => return false,
    };
    match t.checked_add(s2) {
        Some(_) => true,
        None => false,
    }
}

/// Whether the spans of the box `[lc, rc]` off `axis` fit in `i64` (`spans_fit`).
fn spans_computable(lc: Point3, rc: Point3, axis: Axis) -> (ok: bool)
    ensures
        ok == spans_fit(lc, rc, axis.num()),
{
    let a = axis.index();
    (a == 0 || rc.0.checked_sub(lc.0).is_some()) && (a == 1 || rc.1.checked_sub(lc.1).is_some()) && (
    a == 2 || rc.2.checked_sub(lc.2).is_some())
}

/// Whether every room's distance to `p` can be computed.
fn dists_computable(rooms: &Vec<&Room>, p: Point3) -> (ok: bool)
    ensures
        ok == forall|i: int| 0 <= i < rooms@.len() ==> room_dist_fits(*#[trigger] rooms@[i], p),
{
    let mut i: usize = 0;
    while i < rooms.len()
        invariant
            0 <= i <= rooms@.len(),
            forall|j: int| 0 <= j < i ==> room_dist_fits(*#[trigger] rooms@[j], p),
        decreases rooms@.len() - i,
    {
        let r = rooms[i];
        if !(sq_dist_computable(p, r.1) && sq_dist_computable(p, r.2)) {
            return false;
        }
        i = i + 1;
    }
    true
}

/// Whether `generate_edges` can join the two sides of a split (`generate_edges_ok`).
fn join_computable(left: &Vec<&Room>, right: &Vec<&Room>, axis: Axis, p: Point3) -> (ok: bool)
    ensures
        ok == generate_edges_ok(
            left@.map_values(|r: &Room| *r),
            right@.map_values(|r: &Room| *r),
            axis,
            p,
        ),
{
    let ghost l = left@.map_values(|r: &Room| *r);
    let ghost r = right@.map_values(|r: &Room| *r);
    if left.len() == 0 || right.len() == 0 {
        return true;
    }
    let ld = dists_computable(left, p);
    let rd = dists_computable(right, p);
    proof {
        assert(ld == forall|i: int| 0 <= i < l.len() ==> room_dist_fits(#[trigger] l[i], p)) by {
            if ld {
                assert forall|i: int| 0 <= i < l.len() implies room_dist_fits(#[trigger] l[i], p) by {
                    assert(l[i] == *left@[i]);
                }
            } else {
                let i = choose|i: int| 0 <= i < left@.len() && !room_dist_fits(*#[trigger] left@[i], p);
                assert(l[i] == *left@[i]);
            }
        }
        assert(rd == forall|i: int| 0 <= i < r.len() ==> room_dist_fits(#[trigger] r[i], p)) by {
            if rd {
                assert forall|i: int| 0 <= i < r.len() implies room_dist_fits(#[trigger] r[i], p) by {
                    assert(r[i] == *right@[i]);
                }
            } else {
                let i = choose|i: int| 0 <= i < right@.len() && !room_dist_fits(*#[trigger] right@[i], p);
                assert(r[i] == *right@[i]);
            }
        }
    }
    if !(ld && rd) {
        return false;
    }
    let li = closest_room(left.as_slice(), p);
    let ri = closest_room(right.as_slice(), p);
    assert(l[li as int] == *left@[li as int]);
    assert(r[ri as int] == *right@[ri as int]);
    let a = left[li];
    let b = right[ri];
    spans_computable(a.1, a.2, axis) && spans_computable(b.1, b.2, axis)
}

/// Whether `edge_dfs` can walk the tree below `node` (`dfs_ok`); if so, the rooms it finds there
/// (`dfs_rooms`).
pub fn walkable_rooms<'a>(node: &'a BSPNode<Tile>, divisions: u32) -> (r: Option<Vec<&'a Room>>)
    ensures
        r is Some == dfs_ok(*node, divisions),
        r matches Some(v) ==> v@.map_values(|x: &Room| *x) == dfs_rooms(*node, divisions),
    decreases node,
{
    if node.value.split_count > divisions {
        return None;
    }
    if node.value.split_count < divisions {
        match (&node.left, &node.right) {
            (Some(l), Some(rt)) => {
                let lw = walkable_rooms(l, divisions);
                let rw = walkable_rooms(rt, divisions);
                match (lw, rw) {
                    (Some(mut lv), Some(mut rv)) => {
                        if !join_computable(&lv, &rv, node.split_d, l.value.rc) {
                            return None;
                        }
                        let ghost lr = lv@;
                        let ghost rr = rv@;
                        lv.append(&mut rv);
                        assert(lv@.map_values(|x: &Room| *x) =~= lr.map_values(|x: &Room| *x) + rr.map_values(
                            |x: &Room| *x,
                        ));
                        Some(lv)
                    },
                    _ => None,
                }
            },
            _ => None,
        }
    } else {
        let mut rooms = Vec::new();
        if let Some(room) = &node.value.room {
            rooms.push(room);
        }
        assert(rooms@.map_values(|x: &Room| *x) =~= dfs_rooms(*node, divisions));
        Some(rooms)
    }
}

/// Whether `a + b + c` fits in an `i64`.
fn sum_fits(a: i64, b: i64, c: i64) -> (ok: bool)
    ensures
        ok == (i64::MIN <= a + b + c <= i64::MAX),
{
    let t = (a as i128) + (b as i128) + (c as i128);
    -9223372036854775808i128 <= t && t <= 9223372036854775807i128
}

/// Whether `a - b - c` fits in an `i64`.
fn diff_fits3(a: i64, b: i64, c: i64) -> (ok: bool)
    ensures
        ok == (i64::MIN <= a - b - c <= i64::MAX),
{
    let t = (a as i128) - (b as i128) - (c as i128);
    -9223372036854775808i128 <= t && t <= 9223372036854775807i128
}

/// Whether the room of placement `p` fits in `i64` (`placement_fits`).
fn placement_computable(p: RoomPlacement) -> (ok: bool)
    ensures
        ok == placement_fits(p),
{
    sum_fits(p.low.0, ABS_DIST_X / 2, p.inset.0) && sum_fits(p.low.1, ABS_DIST_Y / 2, p.inset.1)
        && sum_fits(p.low.2, ABS_DIST_Z / 2, p.inset.2) && diff_fits3(p.high.0, ABS_DIST_X / 2, p.inset.0)
        && diff_fits3(p.high.1, ABS_DIST_Y / 2, p.inset.1) && diff_fits3(p.high.2, ABS_DIST_Z / 2, p.inset.2)
}

/// Whether `build_dfs` can visit the tree below `node` with the placements from the `k`-th on,
/// numbering vertices after `v` (`build_ok`); if so, the number of placements used up and the
/// vertex number reached by then.
pub fn count_placements(node: &BSPNode<Tile>, ps: &Vec<Option<RoomPlacement>>, k: usize, v: usize) -> (r:
    Option<(usize, usize)>)
    ensures
        r is Some == build_ok(*node, ps@, k as int, v as int),
        r matches Some((k2, v2)) ==> k2 == placed(*node, ps@, k as int).1 && v2 == v + 8 * room_boxes(
            build_leaves(placed(*node, ps@, k as int).0),
        ).len(),
    decreases node,
{
    match &node.right {
        None => {
            if k >= ps.len() {
                return None;
            }
            let ghost leaf = placed(*node, ps@, k as int).0.value;
            proof {
                lemma_room_boxes_single(leaf);
            }
            if node.value.traversible {
                match ps[k] {
                    Some(p) => {
                        if placement_computable(p) && v <= usize::MAX - 8 {
                            Some((k + 1, v + 8))
                        } else {
                            None
                        }
                    },
                    None => None,
                }
            } else {
                Some((k + 1, v))
            }
        },
        Some(rt) => match &node.left {
            Some(l) => {
                match count_placements(rt, ps, k, v) {
                    Some((k1, v1)) => {
                        let r = count_placements(l, ps, k1, v1);
                        proof {
                            let pr = placed(**rt, ps@, k as int).0;
                            let pl = placed(**l, ps@, k1 as int).0;
                            assert(build_leaves(placed(*node, ps@, k as int).0) == build_leaves(pr)
                                + build_leaves(pl));
                            lemma_room_boxes_concat(build_leaves(pr), build_leaves(pl));
                        }
                        r
                    },
                    None => None,
                }
            },
            None => None,
        },
    }
}

/// Whether the corridor around each segment fits in `i64`.
fn corridors_computable(segs: &Vec<Segment>) -> (ok: bool)
    ensures
        ok == forall|i: int| 0 <= i < segs@.len() ==> corridor_fits(#[trigger] segs@[i]),
{
    let mut i: usize = 0;
    while i < segs.len()
        invariant
            0 <= i <= segs@.len(),
            forall|j: int| 0 <= j < i ==> corridor_fits(#[trigger] segs@[j]),
        decreases segs@.len() - i,
    {
        let e = segs[i];
        let ok = e.1.0.checked_sub(crate::CORRIDOR_WIDTH).is_some() && e.1.1.checked_sub(crate::CORRIDOR_WIDTH).is_some()
            && e.1.2.checked_sub(crate::CORRIDOR_WIDTH).is_some() && e.2.0.checked_add(crate::CORRIDOR_WIDTH).is_some()
            && e.2.1.checked_add(crate::CORRIDOR_WIDTH).is_some() && e.2.2.checked_add(crate::CORRIDOR_WIDTH).is_some();
        if !ok {
            return false;
        }
        i = i + 1;
    }
    true
}

/// Appends the boxes to the OBJ text, numbering vertices on from `v`, and returns the number of
/// the last vertex; None, with the text unchanged, when the numbers would pass `usize::MAX`.
pub fn add_boxes(boxes: &Vec<(Point3, Point3)>, obj_data: &mut String, v: usize) -> (r: Option<usize>)
    ensures
        r is Some == (v + 8 * boxes@.len() <= usize::MAX),
        r is None ==> final(obj_data)@ == old(obj_data)@,
        r matches Some(last) ==> last == v + 8 * boxes@.len() && final(obj_data)@ == old(obj_data)@
            + boxes_text(boxes@, v as int),
{
    let n = boxes.len();
    if n > (usize::MAX - v) / 8 {
        assert(v + 8 * n > usize::MAX) by (nonlinear_arith)
            requires
                n > (usize::MAX - v) / 8,
                v <= usize::MAX,
        ;
        return None;
    }
    assert(v + 8 * n <= usize::MAX) by (nonlinear_arith)
        requires
            n <= (usize::MAX - v) / 8,
            v <= usize::MAX,
    ;
    let mut cur = v;
    let mut i: usize = 0;
    assert(boxes@.take(0) =~= Seq::<(Point3, Point3)>::empty());
    assert(obj_data@ =~= old(obj_data)@ + boxes_text(boxes@.take(0), v as int));
    while i < n
        invariant
            n == boxes@.len(),
            v + 8 * n <= usize::MAX,
            0 <= i <= n,
            cur == v + 8 * i,
            obj_data@ == old(obj_data)@ + boxes_text(boxes@.take(i as int), v as int),
        decreases n - i,
    {
        let b = boxes[i];
        assert(cur + 8 <= usize::MAX) by (nonlinear_arith)
            requires
                cur == v + 8 * i,
                i < n,
                v + 8 * n <= usize::MAX,
        ;
        cur = add_obj_box(b.0, b.1, obj_data, cur);
        proof {
            let t = boxes@.take(i + 1);
            assert(t.drop_last() =~= boxes@.take(i as int));
            assert(t.last() == b);
            vstd::seq_lib::lemma_concat_associative(
                old(obj_data)@,
                boxes_text(boxes@.take(i as int), v as int),
                box_text(b.0, b.1, v + 8 * i),
            );
        }
        i = i + 1;
    }
    assert(boxes@.take(n as int) =~= boxes@);
    Some(cur)
}

/// The OBJ text that the generator produces for the partition below `root` once the rooms are
/// placed as `placements` says: the header, each room's box, then the box of every corridor along
/// the orthogonal paths between the rooms; the vertices are numbered on from 1 over all boxes, so
/// the faces of the `i`-th box (from 0) use the vertices `8 * i + 1` to `8 * i + 8`. None where the generator cannot finish: a placement
/// is missing or a room does not fit in `i64`; the partition cannot be walked; the router fails
/// or needs more than `max_rounds` rounds for some edge; a corridor does not fit in `i64`; or
/// the vertex numbers pass `usize::MAX`.
pub open spec fn spec_assemble(
    root: BSPNode<Tile>,
    divisions: u32,
    ps: Seq<Option<RoomPlacement>>,
    max_rounds: nat,
) -> Option<Seq<char>> {
    let built = placed(root, ps, 0).0;
    let leaves = build_leaves(built);
    let tiles = bounds_of(sort_by_high(leaves, 0));
    let edges = dfs_edges(built, divisions);
    let segs = all_routed(tiles, edges);
    let boxes = segs.map_values(|e: Segment| spec_corridor(e));
    if !build_ok(root, ps, 0, 0) || !dfs_ok(built, divisions) {
        None
    } else if !(forall|i: int| 0 <= i < edges.len() ==> route_edge(tiles, #[trigger] edges[i], max_rounds) is Some) {
        None
    } else if !(forall|i: int| 0 <= i < segs.len() ==> corridor_fits(#[trigger] segs[i])) {
        None
    } else if 8 * (room_boxes(leaves).len() + boxes.len()) > usize::MAX {
        None
    } else {
        Some(obj_header() + boxes_text(room_boxes(leaves) + boxes, 0))
    }
}

/// The generated OBJ text holds a box for every room and then one box for every segment of the
/// routed paths: it is the header followed by those boxes, numbered on from 1, so it holds exactly
/// `8 * (rooms + segments)` vertex lines; the first boxes are the rooms' and the box after them
/// for the `i`-th segment is that segment widened by `CORRIDOR_WIDTH` on every side.
pub proof fn lemma_assemble_writes_rooms_then_corridors(
    root: BSPNode<Tile>,
    divisions: u32,
    ps: Seq<Option<RoomPlacement>>,
    max_rounds: nat,
)
    requires
        spec_assemble(root, divisions, ps, max_rounds) is Some,
    ensures
        ({
            let built = placed(root, ps, 0).0;
            let leaves = build_leaves(built);
            let segs = all_routed(bounds_of(sort_by_high(leaves, 0)), dfs_edges(built, divisions));
            let rb = room_boxes(leaves);
            let text = spec_assemble(root, divisions, ps, max_rounds).unwrap();
            &&& vertex_lines(text) == 8 * (rb.len() + segs.len())
            &&& exists|bs: Seq<(Point3, Point3)>|
                {
                    &&& text == obj_header() + boxes_text(bs, 0)
                    &&& bs.len() == rb.len() + segs.len()
                    &&& forall|i: int| 0 <= i < rb.len() ==> bs[i] == #[trigger] rb[i]
                    &&& forall|i: int|
                        0 <= i < segs.len() ==> {
                            let e = #[trigger] segs[i];
                            let b = bs[rb.len() + i];
                            &&& b.0.0 == e.1.0 - CORRIDOR_WIDTH
                            &&& b.0.1 == e.1.1 - CORRIDOR_WIDTH
                            &&& b.0.2 == e.1.2 - CORRIDOR_WIDTH
                            &&& b.1.0 == e.2.0 + CORRIDOR_WIDTH
                            &&& b.1.1 == e.2.1 + CORRIDOR_WIDTH
                            &&& b.1.2 == e.2.2 + CORRIDOR_WIDTH
                        }
                }
        }),
{
    let built = placed(root, ps, 0).0;
    let leaves = build_leaves(built);
    let segs = all_routed(bounds_of(sort_by_high(leaves, 0)), dfs_edges(built, divisions));
    let rb = room_boxes(leaves);
    let cs = segs.map_values(|e: Segment| spec_corridor(e));
    let bs = rb + cs;
    let text = spec_assemble(root, divisions, ps, max_rounds).unwrap();
    assert(text == obj_header() + boxes_text(bs, 0));
    lemma_export_vertex_count(bs);
    assert forall|i: int| 0 <= i < rb.len() implies bs[i] == #[trigger] rb[i] by {}
    assert forall|i: int| 0 <= i < segs.len() implies {
        let e = #[trigger] segs[i];
        let b = bs[rb.len() + i];
        &&& b.0.0 == e.1.0 - CORRIDOR_WIDTH
        &&& b.0.1 == e.1.1 - CORRIDOR_WIDTH
        &&& b.0.2 == e.1.2 - CORRIDOR_WIDTH
        &&& b.1.0 == e.2.0 + CORRIDOR_WIDTH
        &&& b.1.1 == e.2.1 + CORRIDOR_WIDTH
        &&& b.1.2 == e.2.2 + CORRIDOR_WIDTH
    } by {
        assert(corridor_fits(segs[i]));
        lemma_corridor_widens(segs[i]);
        assert(bs[rb.len() + i] == cs[i]);
    }
}

/// Everything the generator does once the partition is split: places the rooms (`build_dfs`),
/// builds the tile map, joins the rooms by edges (`edge_dfs`), routes each edge as an orthogonal
/// path (`try_orthogonal_paths`, with at most `max_rounds` rounds for each edge), surrounds the paths with
/// corridors and writes every box into the OBJ text (`spec_assemble`).
pub fn assemble(
    root: BSPNode<Tile>,
    divisions: u32,
    placements: &Vec<Option<RoomPlacement>>,
    max_rounds: usize,
) -> (r: Option<String>)
    ensures
        r matches Some(s) ==> spec_assemble(root, divisions, placements@, max_rounds as nat) == Some(s@),
        r is None ==> spec_assemble(root, divisions, placements@, max_rounds as nat) is None,
{
    let mut root = root;
    let ghost root0 = root;
    let mut obj_data = create_obj();
    let mut v: usize = 0;
    let mut tvec = Vec::<Tile>::new();
    if count_placements(&root, placements, 0, v).is_none() {
        return None;
    }
    let mut next: usize = 0;
    build_dfs(&mut root, &mut tvec, placements, &mut next, &mut obj_data, &mut v);
    assert(tvec@ =~= build_leaves(root));
    let ghost leaves = tvec@;
    let map = build_map(&mut tvec);
    assert(map@[0]@ == bounds_of(sort_by_high(leaves, 0)));
    if walkable_rooms(&root, divisions).is_none() {
        return None;
    }
    let mut edges = Vec::<Segment>::new();
    edge_dfs(&root, divisions, &mut edges);
    assert(edges@ =~= dfs_edges(root, divisions));
    let ghost tiles = router_tiles(map@);
    let orthogonal_edges = match try_orthogonal_paths(edges, map, max_rounds) {
        Some(p) => p,
        None => {
            return None;
        },
    };
    if !corridors_computable(&orthogonal_edges) {
        return None;
    }
    let corridors = create_corridors(orthogonal_edges);
    let ghost text0 = obj_data@;
    match add_boxes(&corridors, &mut obj_data, v) {
        Some(_) => {},
        None => {
            return None;
        },
    }
    proof {
        let rb = room_boxes(leaves);
        lemma_boxes_text_concat(rb, corridors@, 0);
        vstd::seq_lib::lemma_concat_associative(obj_header(), boxes_text(rb, 0), boxes_text(corridors@, (8 * rb.len()) as int));
    }
    Some(obj_data)
}

} // verus!
