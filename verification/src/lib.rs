pub mod types;
pub mod random;
pub mod routing;
pub mod edges;
pub mod obj;
pub mod map;
pub mod generate;
pub mod joins;

use vstd::prelude::*;
use rand::rngs::StdRng;
use crate::types::{Point3, Axis, Room, Tile, BSPNode, box_ok, split_into, is_leaf_of};
use crate::obj::{add_obj_box, box_text, boxes_text, lemma_boxes_text_concat};

verus! {

/// The seed of the generator's random numbers.
pub const SEED: u64 = 184138956713986453;

/// How far apart rooms are placed.
pub const PLACE_DIST: i64 = 20;

/// How far a corridor reaches out on each side of the path it follows.
pub const CORRIDOR_WIDTH: i64 = 20;

/// Extra distance kept between a room and the walls of its tile, along X.
pub const ABS_DIST_X: i64 = 0;

/// Extra distance kept between a room and the walls of its tile, along Y.
pub const ABS_DIST_Y: i64 = 0;

/// Extra distance kept between a room and the walls of its tile, along Z.
pub const ABS_DIST_Z: i64 = 0;

/// The random number generator the dungeon is drawn with, seeded with `SEED`.
pub fn generator() -> StdRng {
    crate::random::seeded_rng(SEED)
}

/// The number of nodes that splitting a leaf `k` levels deep creates.
pub open spec fn new_nodes(k: nat) -> nat
    decreases k,
{
    if k == 0 {
        0
    } else {
        2 + 2 * new_nodes((k - 1) as nat)
    }
}

/// Whether the subtree at `node` is a partition built by splitting down to `depth`: every tile
/// is a well-formed box; each node split fewer than `depth` times has been cut along its split
/// axis into a left and a right half, numbered one after the other; the nodes split `depth`
/// times are leaves.
pub open spec fn split_tree(node: BSPNode<Tile>, depth: u32) -> bool
    decreases node,
{
    &&& box_ok(node.value.lc, node.value.rc)
    &&& node.value.split_count <= depth
    &&& if node.value.split_count < depth {
        match (node.left, node.right) {
            (Some(l), Some(r)) => {
                &&& split_into(node.value, node.split_d.num(), l.value, r.value, l.value.index)
                &&& split_tree(*l, depth)
                &&& split_tree(*r, depth)
            },
            _ => false,
        }
    } else {
        node.left is None && node.right is None
    }
}

/// Whether the nodes below `node` are numbered as `split_dfs` numbers them, from `lo` on: the
/// two halves of a split node get the next two numbers, then the subtree of the right half is
/// numbered, then that of the left half.
pub open spec fn numbered(node: BSPNode<Tile>, lo: int, depth: u32) -> bool
    decreases node,
{
    if node.value.split_count < depth {
        match (node.left, node.right) {
            (Some(l), Some(r)) => {
                let n = new_nodes((depth - node.value.split_count - 1) as nat);
                &&& l.value.index == lo
                &&& r.value.index == lo + 1
                &&& numbered(*r, lo + 2, depth)
                &&& numbered(*l, lo + 2 + n, depth)
            },
            _ => false,
        }
    } else {
        true
    }
}

proof fn lemma_new_nodes_step(k: nat)
    requires
        k > 0,
    ensures
        new_nodes(k) == 2 + 2 * new_nodes((k - 1) as nat),
{
}

/// Splits the tile at `root` and then each half in turn, right half first, until every leaf has
/// been split `depth` times. New nodes are numbered from `next_index` on.
pub fn split_dfs(root: &mut BSPNode<Tile>, depth: u32, rng: &mut StdRng, next_index: &mut usize)
    requires
        old(root).value.split_count < depth ==> box_ok(old(root).value.lc, old(root).value.rc),
        old(root).value.split_count < depth ==> *old(next_index) + new_nodes(
            (depth - old(root).value.split_count) as nat,
        ) <= usize::MAX,
    ensures
        old(root).value.split_count < depth ==> {
            &&& split_tree(*final(root), depth)
            &&& final(root).value == old(root).value
            &&& final(root).split_d == old(root).split_d
            &&& numbered(*final(root), *old(next_index) as int, depth)
            &&& *final(next_index) == *old(next_index) + new_nodes(
                (depth - old(root).value.split_count) as nat,
            )
        },
        old(root).value.split_count >= depth ==> *final(root) == *old(root) && *final(next_index)
            == *old(next_index) && *final(rng) == *old(rng),
    decreases depth - old(root).value.split_count,
{
    if root.value.split_count < depth {
        proof {
            lemma_new_nodes_step((depth - root.value.split_count) as nat);
        }
        root.split(rng, next_index);
        let right = root.right.take();
        let left = root.left.take();
        match (right, left) {
            (Some(mut r), Some(mut l)) => {
                let ghost n0 = *next_index;
                split_dfs(&mut r, depth, rng, next_index);
                assert(*next_index == n0 + new_nodes((depth - root.value.split_count - 1) as nat));
                assert(numbered(*r, n0 as int, depth));
                split_dfs(&mut l, depth, rng, next_index);
                assert(numbered(*l, n0 + new_nodes((depth - root.value.split_count - 1) as nat), depth));
                root.right = Some(r);
                root.left = Some(l);
                assert(split_tree(*r, depth));
                assert(split_tree(*l, depth));
                assert(split_into(root.value, root.split_d.num(), l.value, r.value, l.value.index));
            },
            _ => {},
        }
    }
}

/// The tiles of the leaves below `node`, in the order in which `build_dfs` visits them: right
/// subtree first. A node without a right child is a leaf.
pub open spec fn build_leaves(node: BSPNode<Tile>) -> Seq<Tile>
    decreases node,
{
    match node.right {
        None => seq![node.value],
        Some(r) => match node.left {
            Some(l) => build_leaves(*r) + build_leaves(*l),
            None => build_leaves(*r),
        },
    }
}

/// Tile `t` lies inside tile `outer`.
pub open spec fn within(t: Tile, outer: Tile) -> bool {
    &&& outer.lc.0 <= t.lc.0 && outer.lc.1 <= t.lc.1 && outer.lc.2 <= t.lc.2
    &&& t.rc.0 <= outer.rc.0 && t.rc.1 <= outer.rc.1 && t.rc.2 <= outer.rc.2
}

/// Tiles `t1` and `t2` do not overlap: along some axis one ends where or before the other
/// begins.
pub open spec fn apart(t1: Tile, t2: Tile) -> bool {
    exists|a: int| 0 <= a < 3 && (t1.rc.at(a) <= t2.lc.at(a) || t2.rc.at(a) <= t1.lc.at(a))
}

/// Point `p` lies in tile `t` (on its boundary included).
pub open spec fn holds_point(t: Tile, p: Point3) -> bool {
    &&& t.lc.0 <= p.0 <= t.rc.0
    &&& t.lc.1 <= p.1 <= t.rc.1
    &&& t.lc.2 <= p.2 <= t.rc.2
}

/// A partition built by splitting covers its tile: every point of the root's tile lies in some
/// leaf tile.
pub proof fn lemma_leaves_cover(node: BSPNode<Tile>, depth: u32, p: Point3)
    requires
        split_tree(node, depth),
        holds_point(node.value, p),
    ensures
        exists|i: int| 0 <= i < build_leaves(node).len() && holds_point(#[trigger] build_leaves(node)[i], p),
    decreases node,
{
    if node.value.split_count < depth {
        let l = *node.left.unwrap();
        let r = *node.right.unwrap();
        let a = node.split_d.num();
        let pos = l.value.rc.at(a);
        let lr = build_leaves(r);
        let ll = build_leaves(l);
        let s = build_leaves(node);
        assert(s == lr + ll);
        if p.at(a) <= pos {
            assert(holds_point(l.value, p));
            lemma_leaves_cover(l, depth, p);
            let j = choose|j: int| 0 <= j < ll.len() && holds_point(#[trigger] ll[j], p);
            assert(s[lr.len() + j] == ll[j]);
        } else {
            assert(holds_point(r.value, p));
            lemma_leaves_cover(r, depth, p);
            let j = choose|j: int| 0 <= j < lr.len() && holds_point(#[trigger] lr[j], p);
            assert(s[j] == lr[j]);
        }
    } else {
        assert(build_leaves(node)[0] == node.value);
    }
}

/// A partition built by splitting has no collisions: every leaf tile lies inside the tile of the
/// root, and no two leaf tiles overlap (that the leaves cover the root's tile is
/// `lemma_leaves_cover`).
pub proof fn lemma_leaves_partition(node: BSPNode<Tile>, depth: u32)
    requires
        split_tree(node, depth),
    ensures
        forall|i: int| 0 <= i < build_leaves(node).len() ==> within(#[trigger] build_leaves(node)[i], node.value),
        forall|i: int, j: int|
            0 <= i < build_leaves(node).len() && 0 <= j < build_leaves(node).len() && i != j ==> apart(
                #[trigger] build_leaves(node)[i],
                #[trigger] build_leaves(node)[j],
            ),
    decreases node,
{
    if node.value.split_count < depth {
        let l = *node.left.unwrap();
        let r = *node.right.unwrap();
        lemma_leaves_partition(l, depth);
        lemma_leaves_partition(r, depth);
        let a = node.split_d.num();
        let pos = l.value.rc.at(a);
        let lr = build_leaves(r);
        let ll = build_leaves(l);
        let s = build_leaves(node);
        assert(s == lr + ll);
        assert forall|i: int| 0 <= i < s.len() implies within(#[trigger] s[i], node.value) by {
            if i < lr.len() {
                assert(s[i] == lr[i]);
                assert(within(lr[i], r.value));
            } else {
                assert(s[i] == ll[i - lr.len()]);
                assert(within(ll[i - lr.len()], l.value));
            }
        }
        assert forall|i: int, j: int|
            0 <= i < s.len() && 0 <= j < s.len() && i != j implies apart(
                #[trigger] s[i],
                #[trigger] s[j],
            ) by {
            if i < lr.len() && j < lr.len() {
                assert(s[i] == lr[i] && s[j] == lr[j]);
            } else if i >= lr.len() && j >= lr.len() {
                assert(s[i] == ll[i - lr.len()] && s[j] == ll[j - lr.len()]);
            } else if i < lr.len() {
                let x = lr[i];
                let y = ll[j - lr.len()];
                assert(s[i] == x && s[j] == y);
                assert(within(x, r.value));
                assert(within(y, l.value));
                assert(y.rc.at(a) <= pos && pos <= x.lc.at(a));
                assert(y.rc.at(a) <= x.lc.at(a));
            } else {
                let y = ll[i - lr.len()];
                assert(s[j] == lr[j] && s[i] == y);
                assert(within(lr[j], r.value));
                assert(within(y, l.value));
                assert(y.rc.at(a) <= lr[j].lc.at(a));
            }
        }
    }
}

/// Where a room goes in its tile, as worked out from the tile's extent: `low` and `high` are
/// the tile's corners each moved inward by a fixed share of the extent, and `inset` the random
/// amount by which the room shrinks further on each axis, on both sides.
#[derive(Clone, Copy, Debug, PartialEq, Eq, Structural)]
pub struct RoomPlacement {
    pub low: Point3,
    pub high: Point3,
    pub inset: Point3,
}

/// The room that placement `p` puts in tile `t`.
pub open spec fn room_of(t: Tile, p: RoomPlacement) -> Room {
    Room(
        t.index,
        Point3(
            (p.low.0 + ABS_DIST_X / 2 + p.inset.0) as i64,
            (p.low.1 + ABS_DIST_Y / 2 + p.inset.1) as i64,
            (p.low.2 + ABS_DIST_Z / 2 + p.inset.2) as i64,
        ),
        Point3(
            (p.high.0 - ABS_DIST_X / 2 - p.inset.0) as i64,
            (p.high.1 - ABS_DIST_Y / 2 - p.inset.1) as i64,
            (p.high.2 - ABS_DIST_Z / 2 - p.inset.2) as i64,
        ),
        true,
    )
}

/// Whether the room that placement `p` puts in a tile can be computed in `i64`.
pub open spec fn placement_fits(p: RoomPlacement) -> bool {
    &&& i64::MIN <= p.low.0 + ABS_DIST_X / 2 + p.inset.0 <= i64::MAX
    &&& i64::MIN <= p.low.1 + ABS_DIST_Y / 2 + p.inset.1 <= i64::MAX
    &&& i64::MIN <= p.low.2 + ABS_DIST_Z / 2 + p.inset.2 <= i64::MAX
    &&& i64::MIN <= p.high.0 - ABS_DIST_X / 2 - p.inset.0 <= i64::MAX
    &&& i64::MIN <= p.high.1 - ABS_DIST_Y / 2 - p.inset.1 <= i64::MAX
    &&& i64::MIN <= p.high.2 - ABS_DIST_Z / 2 - p.inset.2 <= i64::MAX
}

/// Whether `construct_room` can place a room in tile `t`: a tile without room needs nothing;
/// one with room needs a placement whose room fits in `i64`, and room for 8 vertex numbers
/// after `v`.
pub open spec fn construct_ok(t: Tile, placement: Option<RoomPlacement>, v: int) -> bool {
    t.traversible ==> (placement matches Some(p) && placement_fits(p) && 0 <= v && v + 8 <= usize::MAX)
}

/// Places a room in tile `tile` as `placement` says, if the tile may hold one, and appends the
/// room's box, with vertex numbers after `v`, to the OBJ text. A tile that may not hold a room
/// gets none.
pub fn construct_room(tile: Tile, placement: Option<RoomPlacement>, obj_data: &mut String, v: usize) -> (r: Option<Room>)
    requires
        construct_ok(tile, placement, v as int),
    ensures
        !tile.traversible ==> r is None && final(obj_data)@ == old(obj_data)@,
        tile.traversible ==> r == Some(room_of(tile, placement.unwrap())) && final(obj_data)@
            == old(obj_data)@ + box_text(r.unwrap().1, r.unwrap().2, v as int),
{
    if tile.traversible == false {
        return None;
    }
    match placement {
        Some(p) => {
            let room = Room(
                tile.index,
                Point3(
                    p.low.0 + (ABS_DIST_X / 2) + p.inset.0,
                    p.low.1 + (ABS_DIST_Y / 2) + p.inset.1,
                    p.low.2 + (ABS_DIST_Z / 2) + p.inset.2,
                ),
                Point3(
                    p.high.0 - (ABS_DIST_X / 2) - p.inset.0,
                    p.high.1 - (ABS_DIST_Y / 2) - p.inset.1,
                    p.high.2 - (ABS_DIST_Z / 2) - p.inset.2,
                ),
                true,
            );
            add_obj_box(room.1, room.2, obj_data, v);
            Some(room)
        },
        None => None,
    }
}

/// The tree below `node` once `build_dfs` has visited its leaves, right subtree first, handing
/// the `k`-th placement onward to the leaves in turn; and the number of placements used up.
pub open spec fn placed(node: BSPNode<Tile>, ps: Seq<Option<RoomPlacement>>, k: int) -> (BSPNode<Tile>, int)
    decreases node,
{
    match node.right {
        None => if node.value.traversible {
            (
                BSPNode {
                    value: Tile { room: Some(room_of(node.value, ps[k].unwrap())), ..node.value },
                    ..node
                },
                k + 1,
            )
        } else {
            (node, k + 1)
        },
        Some(r) => match node.left {
            Some(l) => {
                let (r2, k1) = placed(*r, ps, k);
                let (l2, k2) = placed(*l, ps, k1);
                (BSPNode { right: Some(Box::new(r2)), left: Some(Box::new(l2)), ..node }, k2)
            },
            None => (node, k),
        },
    }
}

/// Whether `build_dfs` can visit the tree below `node` with the placements from the `k`-th on,
/// numbering vertices after `v`: each node with a right child has a left one, there is a
/// placement for each leaf, and each room can be placed and numbered within `usize`.
pub open spec fn build_ok(node: BSPNode<Tile>, ps: Seq<Option<RoomPlacement>>, k: int, v: int) -> bool
    decreases node,
{
    match node.right {
        None => 0 <= k < ps.len() && construct_ok(node.value, ps[k], v),
        Some(r) => match node.left {
            Some(l) => build_ok(*r, ps, k, v) && build_ok(
                *l,
                ps,
                placed(*r, ps, k).1,
                v + 8 * room_boxes(build_leaves(placed(*r, ps, k).0)).len(),
            ),
            None => false,
        },
    }
}

/// The box of the room in tile `t`, if the tile holds a room.
pub open spec fn room_box(t: Tile) -> Seq<(Point3, Point3)> {
    if t.traversible && t.room is Some {
        seq![(t.room.unwrap().1, t.room.unwrap().2)]
    } else {
        seq![]
    }
}

/// The boxes of the rooms in the tiles, in order.
pub open spec fn room_boxes(tiles: Seq<Tile>) -> Seq<(Point3, Point3)>
    decreases tiles.len(),
{
    if tiles.len() == 0 {
        seq![]
    } else {
        room_boxes(tiles.drop_last()) + room_box(tiles.last())
    }
}

/// The room boxes of two runs of tiles, one after the other.
pub proof fn lemma_room_boxes_concat(a: Seq<Tile>, b: Seq<Tile>)
    ensures
        room_boxes(a + b) == room_boxes(a) + room_boxes(b),
    decreases b.len(),
{
    if b.len() == 0 {
        assert(a + b =~= a);
        assert(room_boxes(a) + room_boxes(b) =~= room_boxes(a));
    } else {
        lemma_room_boxes_concat(a, b.drop_last());
        assert((a + b).drop_last() =~= a + b.drop_last());
        assert((a + b).last() == b.last());
        vstd::seq_lib::lemma_concat_associative(room_boxes(a), room_boxes(b.drop_last()), room_box(b.last()));
    }
}

/// The room boxes of a single tile.
pub proof fn lemma_room_boxes_single(t: Tile)
    ensures
        room_boxes(seq![t]) == room_box(t),
{
    assert(seq![t].drop_last() =~= Seq::<Tile>::empty());
    assert(room_boxes(Seq::<Tile>::empty()) == Seq::<(Point3, Point3)>::empty());
    assert(seq![t].last() == t);
    assert(room_boxes(seq![t]) =~= room_box(t));
}

/// `build_dfs` at a leaf.
#[verifier::spinoff_prover]
fn build_leaf(
    root: &mut BSPNode<Tile>,
    tvec: &mut Vec<Tile>,
    placements: &Vec<Option<RoomPlacement>>,
    next: &mut usize,
    obj_data: &mut String,
    v: &mut usize,
)
    requires
        old(root).right is None,
        build_ok(*old(root), placements@, *old(next) as int, *old(v) as int),
    ensures
        *final(root) == placed(*old(root), placements@, *old(next) as int).0,
        *final(next) == placed(*old(root), placements@, *old(next) as int).1,
        final(tvec)@ == old(tvec)@ + build_leaves(*final(root)),
        final(obj_data)@ == old(obj_data)@ + boxes_text(room_boxes(build_leaves(*final(root))), *old(v) as int),
        *final(v) == *old(v) + 8 * room_boxes(build_leaves(*final(root))).len(),
{
    let n = placements.len();
    let r = construct_room(root.value, placements[*next], obj_data, *v);
    assert(*next < n);
    *next = *next + 1;
    if r.is_some() {
        root.value.room = r;
        *v = *v + 8;
    }
    tvec.push(root.value);
    proof {
        lemma_room_boxes_single(root.value);
        assert(build_leaves(*final(root)) == seq![root.value]);
        let bx = room_box(root.value);
        if bx.len() > 0 {
            assert(bx.drop_last() =~= Seq::<(Point3, Point3)>::empty());
            assert(boxes_text(bx.drop_last(), *old(v) as int) == Seq::<char>::empty());
            assert(boxes_text(bx, *old(v) as int) =~= box_text(bx[0].0, bx[0].1, *old(v) as int));
        } else {
            assert(boxes_text(bx, *old(v) as int) == Seq::<char>::empty());
            assert(obj_data@ =~= old(obj_data)@ + Seq::<char>::empty());
        }
    }
}

/// Visits the leaves below `root`, right subtree first: places a room in each leaf that may hold
/// one, as the next of `placements` says, appending its box to the OBJ text with vertex numbers
/// after `v` (which moves on by 8 for each room), and appends each leaf's tile to `tvec`.
#[verifier::spinoff_prover]
pub fn build_dfs(
    root: &mut BSPNode<Tile>,
    tvec: &mut Vec<Tile>,
    placements: &Vec<Option<RoomPlacement>>,
    next: &mut usize,
    obj_data: &mut String,
    v: &mut usize,
)
    requires
        build_ok(*old(root), placements@, *old(next) as int, *old(v) as int),
    ensures
        *final(root) == placed(*old(root), placements@, *old(next) as int).0,
        *final(next) == placed(*old(root), placements@, *old(next) as int).1,
        final(tvec)@ == old(tvec)@ + build_leaves(*final(root)),
        final(obj_data)@ == old(obj_data)@ + boxes_text(room_boxes(build_leaves(*final(root))), *old(v) as int),
        *final(v) == *old(v) + 8 * room_boxes(build_leaves(*final(root))).len(),
    decreases *old(root),
{
    if root.right.is_none() {
        build_leaf(root, tvec, placements, next, obj_data, v);
    } else {
        let ghost tv0 = tvec@;
        let ghost ob0 = obj_data@;
        let ghost v0 = *v as int;
        let right = root.right.take();
        let left = root.left.take();
        match (right, left) {
            (Some(mut r), Some(mut l)) => {
                build_dfs(&mut r, tvec, placements, next, obj_data, v);
                build_dfs(&mut l, tvec, placements, next, obj_data, v);
                root.right = Some(r);
                root.left = Some(l);
                proof {
                    let br = room_boxes(build_leaves(*r));
                    let bl = room_boxes(build_leaves(*l));
                    assert(build_leaves(*final(root)) == build_leaves(*r) + build_leaves(*l));
                    lemma_room_boxes_concat(build_leaves(*r), build_leaves(*l));
                    lemma_boxes_text_concat(br, bl, v0);
                    assert(tvec@ =~= tv0 + build_leaves(*final(root)));
                    vstd::seq_lib::lemma_concat_associative(ob0, boxes_text(br, v0), boxes_text(bl, v0 + 8 * br.len()));
                }
            },
            _ => {},
        }
    }
}

/// The tile of the root of a partition of the box from the origin to `size`: index `index`, no
/// room, not split yet.
pub open spec fn root_tile(size: Point3, index: usize) -> Tile {
    Tile {
        index,
        lc: Point3(0, 0, 0),
        rc: size,
        traversible: false,
        split_count: 0,
        room: None,
    }
}

/// A partition that is just its root: the box from the origin to `size`, numbered `next_index`
/// (which moves on by one), with a random split axis.
pub fn new_root(size: Point3, rng: &mut StdRng, next_index: &mut usize) -> (root: BSPNode<Tile>)
    requires
        *old(next_index) < usize::MAX,
    ensures
        is_leaf_of(root, root_tile(size, *old(next_index))),
        *final(next_index) == *old(next_index) + 1,
{
    let index = *next_index;
    *next_index = index + 1;
    BSPNode {
        value: Tile {
            index,
            lc: Point3(0, 0, 0),
            rc: size,
            traversible: false,
            split_count: 0,
            room: None,
        },
        right: None,
        left: None,
        split_d: Axis::random_variant(rng),
    }
}

/// The number of nodes that splitting a leaf `k` levels deep creates, if it fits in `usize`.
pub fn node_budget(k: u32) -> (r: Option<usize>)
    ensures
        r is Some == (new_nodes(k as nat) <= usize::MAX),
        r matches Some(n) ==> n == new_nodes(k as nat),
{
    let mut n: usize = 0;
    let mut i: u32 = 0;
    while i < k
        invariant
            0 <= i <= k,
            n == new_nodes(i as nat),
        decreases k - i,
    {
        proof {
            lemma_new_nodes_step((i + 1) as nat);
        }
        if n > (usize::MAX - 2) / 2 {
            proof {
                lemma_new_nodes_grow((i + 1) as nat, k as nat);
            }
            return None;
        }
        n = 2 + 2 * n;
        i = i + 1;
    }
    Some(n)
}

proof fn lemma_new_nodes_grow(i: nat, k: nat)
    requires
        i <= k,
    ensures
        new_nodes(i) <= new_nodes(k),
    decreases k - i,
{
    if i < k {
        lemma_new_nodes_grow(i, (k - 1) as nat);
        lemma_new_nodes_step(k);
    }
}

/// Splits the box from the origin to `size` into a partition `divisions` levels deep, numbering
/// the nodes from 0 on (`new_root`, then `split_dfs`). With no division the box is the single
/// tile, whatever its size. Otherwise None when the box is not well formed or the nodes cannot
/// be numbered within `usize`.
pub fn partition(size: Point3, divisions: u32, rng: &mut StdRng) -> (r: Option<BSPNode<Tile>>)
    ensures
        r is Some == (0 < divisions ==> box_ok(Point3(0, 0, 0), size) && 1 + new_nodes(divisions as nat)
            <= usize::MAX),
        r matches Some(root) ==> {
            &&& root.value == root_tile(size, 0)
            &&& divisions > 0 ==> split_tree(root, divisions) && numbered(root, 1, divisions)
            &&& divisions == 0 ==> is_leaf_of(root, root_tile(size, 0))
        },
{
    if divisions > 0 && !(0 <= size.0 && 0 <= size.1 && 0 <= size.2) {
        return None;
    }
    let mut next: usize = 0;
    let mut root = new_root(size, rng, &mut next);
    if divisions > 0 {
        match node_budget(divisions) {
            Some(n) => {
                if n > usize::MAX - 1 {
                    return None;
                }
            },
            None => {
                return None;
            },
        }
    }
    split_dfs(&mut root, divisions, rng, &mut next);
    Some(root)
}

/// The tiles of the leaves below `root`, right subtree first (`build_leaves`).
pub fn leaves_in_build_order(root: &BSPNode<Tile>) -> (r: Vec<Tile>)
    ensures
        r@ == build_leaves(*root),
    decreases root,
{
    match &root.right {
        None => {
            let mut v = Vec::new();
            v.push(root.value);
            assert(v@ =~= seq![root.value]);
            v
        },
        Some(rt) => {
            let mut v = leaves_in_build_order(rt);
            match &root.left {
                Some(l) => {
                    let mut w = leaves_in_build_order(l);
                    v.append(&mut w);
                },
                None => {},
            }
            v
        },
    }
}

proof fn lemma_leaf_indices(node: BSPNode<Tile>, lo: int, depth: u32)
    requires
        split_tree(node, depth),
        numbered(node, lo, depth),
    ensures
        node.value.split_count < depth ==> forall|i: int|
            0 <= i < build_leaves(node).len() ==> lo <= (#[trigger] build_leaves(node)[i]).index < lo
                + new_nodes((depth - node.value.split_count) as nat),
        node.value.split_count >= depth ==> build_leaves(node) == seq![node.value],
        forall|i: int, j: int|
            0 <= i < build_leaves(node).len() && 0 <= j < build_leaves(node).len() && i != j
                ==> (#[trigger] build_leaves(node)[i]).index != (#[trigger] build_leaves(node)[j]).index,
    decreases node,
{
    if node.value.split_count < depth {
        let l = *node.left.unwrap();
        let r = *node.right.unwrap();
        let k = (depth - node.value.split_count) as nat;
        let n = new_nodes((k - 1) as nat);
        lemma_new_nodes_step(k);
        lemma_leaf_indices(r, lo + 2, depth);
        lemma_leaf_indices(l, lo + 2 + n, depth);
        let lr = build_leaves(r);
        let ll = build_leaves(l);
        let s = build_leaves(node);
        assert(s == lr + ll);
        // every leaf of the right half is numbered lo + 1 or from lo + 2 on, below lo + 2 + n;
        // every leaf of the left half is numbered lo or from lo + 2 + n on
        assert forall|i: int| 0 <= i < lr.len() implies (#[trigger] lr[i]).index == lo + 1 || (lo + 2
            <= lr[i].index < lo + 2 + n) by {}
        assert forall|i: int| 0 <= i < ll.len() implies (#[trigger] ll[i]).index == lo || (lo + 2 + n
            <= ll[i].index < lo + 2 + 2 * n) by {}
        assert forall|i: int| 0 <= i < s.len() implies lo <= (#[trigger] s[i]).index < lo + new_nodes(
            k,
        ) by {
            if i < lr.len() {
                assert(s[i] == lr[i]);
            } else {
                assert(s[i] == ll[i - lr.len()]);
            }
        }
        assert forall|i: int, j: int|
            0 <= i < s.len() && 0 <= j < s.len() && i != j implies (#[trigger] s[i]).index != (
            #[trigger] s[j]).index by {
            if i < lr.len() && j < lr.len() {
                assert(s[i] == lr[i] && s[j] == lr[j]);
            } else if i >= lr.len() && j >= lr.len() {
                assert(s[i] == ll[i - lr.len()] && s[j] == ll[j - lr.len()]);
            } else if i < lr.len() {
                assert(s[i] == lr[i] && s[j] == ll[j - lr.len()]);
            } else {
                assert(s[j] == lr[j] && s[i] == ll[i - lr.len()]);
            }
        }
    }
}

/// Every tile of a partition built by `partition` has a number of its own: the leaf tiles carry
/// pairwise distinct indices, all after the root's 0 and within the number of nodes created.
pub proof fn lemma_partition_numbering(root: BSPNode<Tile>, divisions: u32)
    requires
        divisions > 0,
        root.value.split_count == 0,
        split_tree(root, divisions),
        numbered(root, 1, divisions),
    ensures
        forall|i: int|
            0 <= i < build_leaves(root).len() ==> 1 <= (#[trigger] build_leaves(root)[i]).index <= new_nodes(
                divisions as nat,
            ),
        forall|i: int, j: int|
            0 <= i < build_leaves(root).len() && 0 <= j < build_leaves(root).len() && i != j
                ==> (#[trigger] build_leaves(root)[i]).index != (#[trigger] build_leaves(root)[j]).index,
{
    lemma_leaf_indices(root, 1, divisions);
}

/// Placing rooms keeps the leaves where they are: the same number of leaves, each with the
/// same index and corners.
proof fn lemma_placed_keeps_tiles(node: BSPNode<Tile>, ps: Seq<Option<RoomPlacement>>, k: int, v: int)
    requires
        build_ok(node, ps, k, v),
    ensures
        build_leaves(placed(node, ps, k).0).len() == build_leaves(node).len(),
        forall|i: int|
            0 <= i < build_leaves(node).len() ==> {
                let t = #[trigger] build_leaves(node)[i];
                let u = build_leaves(placed(node, ps, k).0)[i];
                u.index == t.index && u.lc == t.lc && u.rc == t.rc
            },
    decreases node,
{
    match node.right {
        None => {},
        Some(r) => {
            let l = node.left.unwrap();
            lemma_placed_keeps_tiles(*r, ps, k, v);
            let k1 = placed(*r, ps, k).1;
            lemma_placed_keeps_tiles(*l, ps, k1, v + 8 * room_boxes(build_leaves(placed(*r, ps, k).0)).len());
            let a = build_leaves(*r);
            let b = build_leaves(*l);
            let a2 = build_leaves(placed(*r, ps, k).0);
            let b2 = build_leaves(placed(*l, ps, k1).0);
            assert(build_leaves(node) == a + b);
            assert(build_leaves(placed(node, ps, k).0) == a2 + b2);
            assert forall|i: int| 0 <= i < build_leaves(node).len() implies {
                let t = #[trigger] build_leaves(node)[i];
                let u = build_leaves(placed(node, ps, k).0)[i];
                u.index == t.index && u.lc == t.lc && u.rc == t.rc
            } by {
                if i < a.len() {
                    assert(build_leaves(node)[i] == a[i]);
                    assert(build_leaves(placed(node, ps, k).0)[i] == a2[i]);
                } else {
                    assert(build_leaves(node)[i] == b[i - a.len()]);
                    assert(build_leaves(placed(node, ps, k).0)[i] == b2[i - a.len()]);
                }
            }
        },
    }
}

/// Room `r` lies inside tile `t`.
pub open spec fn room_inside(r: Room, t: Tile) -> bool {
    &&& t.lc.0 <= r.1.0 && t.lc.1 <= r.1.1 && t.lc.2 <= r.1.2
    &&& r.2.0 <= t.rc.0 && r.2.1 <= t.rc.1 && r.2.2 <= t.rc.2
}

/// Rooms `r1` and `r2` do not overlap: along some axis one ends where or before the other begins.
pub open spec fn rooms_apart(r1: Room, r2: Room) -> bool {
    exists|a: int| 0 <= a < 3 && (r1.2.at(a) <= r2.1.at(a) || r2.2.at(a) <= r1.1.at(a))
}

/// The generator places rooms without collisions: in a partition built by splitting, once
/// `build_dfs` has placed the rooms, rooms that lie inside their tiles never overlap one another.
pub proof fn lemma_rooms_do_not_collide(
    node: BSPNode<Tile>,
    depth: u32,
    ps: Seq<Option<RoomPlacement>>,
    k: int,
    v: int,
)
    requires
        split_tree(node, depth),
        build_ok(node, ps, k, v),
        forall|i: int|
            0 <= i < build_leaves(placed(node, ps, k).0).len() && (#[trigger] build_leaves(
                placed(node, ps, k).0,
            )[i]).room is Some ==> room_inside(
                build_leaves(placed(node, ps, k).0)[i].room.unwrap(),
                build_leaves(placed(node, ps, k).0)[i],
            ),
    ensures
        forall|i: int, j: int|
            0 <= i < build_leaves(placed(node, ps, k).0).len() && 0 <= j < build_leaves(
                placed(node, ps, k).0,
            ).len() && i != j && (#[trigger] build_leaves(placed(node, ps, k).0)[i]).room is Some
                && (#[trigger] build_leaves(placed(node, ps, k).0)[j]).room is Some ==> rooms_apart(
                build_leaves(placed(node, ps, k).0)[i].room.unwrap(),
                build_leaves(placed(node, ps, k).0)[j].room.unwrap(),
            ),
{
    lemma_leaves_partition(node, depth);
    lemma_placed_keeps_tiles(node, ps, k, v);
    let t = build_leaves(node);
    let u = build_leaves(placed(node, ps, k).0);
    assert forall|i: int, j: int|
        0 <= i < u.len() && 0 <= j < u.len() && i != j && (#[trigger] u[i]).room is Some && (
        #[trigger] u[j]).room is Some implies rooms_apart(u[i].room.unwrap(), u[j].room.unwrap()) by {
        assert(apart(t[i], t[j]));
        let a = choose|a: int| 0 <= a < 3 && (t[i].rc.at(a) <= t[j].lc.at(a) || t[j].rc.at(a) <= t[i].lc.at(a));
        assert(room_inside(u[i].room.unwrap(), u[i]));
        assert(room_inside(u[j].room.unwrap(), u[j]));
        let r1 = u[i].room.unwrap();
        let r2 = u[j].room.unwrap();
        assert(r1.2.at(a) <= r2.1.at(a) || r2.2.at(a) <= r1.1.at(a));
    }
}

} // verus!
