use vstd::prelude::*;
use rand::rngs::StdRng;
use crate::random::{random_index, random_i64_in, random_ratio};

verus! {

/// A point (or a corner of an axis-aligned box) in 3D integer space.
#[derive(Clone, Copy, Debug, PartialEq, Eq, Structural)]
pub struct Point3(pub i64, pub i64, pub i64);

/// One of the three coordinate axes.
#[derive(Clone, Copy, Debug, PartialEq, Eq, Structural)]
pub enum Axis {
    X,
    Y,
    Z,
}

impl Point3 {
    /// The coordinate of this point along axis number `axis` (0, 1 or 2).
    pub open spec fn at(self, axis: int) -> i64 {
        if axis == 0 {
            self.0
        } else if axis == 1 {
            self.1
        } else {
            self.2
        }
    }

    /// This point with the coordinate along axis number `axis` replaced by `v`.
    pub open spec fn with(self, axis: int, v: i64) -> Point3 {
        if axis == 0 {
            Point3(v, self.1, self.2)
        } else if axis == 1 {
            Point3(self.0, v, self.2)
        } else {
            Point3(self.0, self.1, v)
        }
    }

    /// Reads the coordinate along axis number `axis`.
    pub fn get(&self, axis: usize) -> (r: i64)
        requires
            axis < 3,
        ensures
            r == self.at(axis as int),
    {
        if axis == 0 {
            self.0
        } else if axis == 1 {
            self.1
        } else {
            self.2
        }
    }

    /// Overwrites the coordinate along axis number `axis`.
    pub fn set(&mut self, axis: usize, v: i64)
        requires
            axis < 3,
        ensures
            *final(self) == old(self).with(axis as int, v),
    {
        if axis == 0 {
            self.0 = v;
        } else if axis == 1 {
            self.1 = v;
        } else {
            self.2 = v;
        }
    }
}

impl Axis {
    /// The number of the axis: 0 for X, 1 for Y, 2 for Z.
    pub open spec fn num(self) -> int {
        match self {
            Axis::X => 0,
            Axis::Y => 1,
            Axis::Z => 2,
        }
    }

    /// The number of the axis, as an index into a point's coordinates.
    pub fn index(&self) -> (r: usize)
        ensures
            r as int == self.num(),
    {
        match self {
            Axis::X => 0,
            Axis::Y => 1,
            Axis::Z => 2,
        }
    }
}

/// A room: the index of the tile that holds it, its low corner, its high corner, and whether
/// it is in use.
#[derive(Clone, Copy, Debug, PartialEq, Eq, Structural)]
pub struct Room(pub usize, pub Point3, pub Point3, pub bool);

/// Rust's integer division by two, which rounds toward zero.
pub open spec fn half(x: int) -> int {
    if x >= 0 {
        x / 2
    } else {
        -((-x) / 2)
    }
}

/// Whether `a - b` fits in an `i64`.
pub open spec fn diff_fits(a: i64, b: i64) -> bool {
    i64::MIN <= a - b <= i64::MAX
}

/// A cell of the space partition: an axis-aligned box `[lc, rc]`, the number of splits that led
/// to it, whether a room may be placed in it, and the room placed there, if any.
#[derive(Clone, Copy, Debug, PartialEq, Eq, Structural)]
pub struct Tile {
    pub index: usize,
    pub lc: Point3,
    pub rc: Point3,
    pub traversible: bool,
    pub split_count: u32,
    pub room: Option<Room>,
}

impl Tile {
    /// The extent of the tile along X.
    pub fn get_width(&self) -> (r: i64)
        requires
            diff_fits(self.rc.0, self.lc.0),
        ensures
            r == self.rc.0 - self.lc.0,
    {
        self.rc.0 - self.lc.0
    }

    /// The extent of the tile along Y.
    pub fn get_height(&self) -> (r: i64)
        requires
            diff_fits(self.rc.1, self.lc.1),
        ensures
            r == self.rc.1 - self.lc.1,
    {
        self.rc.1 - self.lc.1
    }

    /// The extent of the tile along Z.
    pub fn get_depth(&self) -> (r: i64)
        requires
            diff_fits(self.rc.2, self.lc.2),
        ensures
            r == self.rc.2 - self.lc.2,
    {
        self.rc.2 - self.lc.2
    }
}

/// A node of a binary space partition: its value, its two halves once it is split, and the axis
/// along which it is split.
pub struct BSPNode<T> {
    pub value: T,
    pub left: Option<Box<BSPNode<T>>>,
    pub right: Option<Box<BSPNode<T>>>,
    pub split_d: Axis,
}

/// Whether the box `[lc, rc]` is well formed: `lc` lies below `rc` on every axis, and each
/// extent fits in an `i64`.
pub open spec fn box_ok(lc: Point3, rc: Point3) -> bool {
    &&& lc.0 <= rc.0 && lc.1 <= rc.1 && lc.2 <= rc.2
    &&& diff_fits(rc.0, lc.0) && diff_fits(rc.1, lc.1) && diff_fits(rc.2, lc.2)
}

/// The two halves of tile `t` when it is cut along axis `a` at coordinate `pos`, whose indices
/// are `first` and `first + 1` and whose room flags are `lt` and `rt`: each half has been split
/// once more than `t`, and no room yet.
pub open spec fn halves(t: Tile, a: int, pos: i64, first: usize, lt: bool, rt: bool) -> (Tile, Tile) {
    (
        Tile {
            index: first,
            lc: t.lc,
            rc: t.rc.with(a, pos),
            traversible: lt,
            split_count: (t.split_count + 1) as u32,
            room: None,
        },
        Tile {
            index: (first + 1) as usize,
            lc: t.lc.with(a, pos),
            rc: t.rc,
            traversible: rt,
            split_count: (t.split_count + 1) as u32,
            room: None,
        },
    )
}

/// Whether `left` and `right` are the halves of tile `t` cut along axis `a`, with indices
/// `first` and `first + 1`, at a coordinate that leaves each half at least a quarter of the
/// tile's extent along `a`.
pub open spec fn split_into(t: Tile, a: int, left: Tile, right: Tile, first: usize) -> bool {
    let pos = left.rc.at(a);
    let w = t.rc.at(a) - t.lc.at(a);
    &&& t.lc.at(a) + w / 4 <= pos <= t.rc.at(a) - w / 4
    &&& (left, right) == halves(t, a, pos, first, left.traversible, right.traversible)
}

impl Axis {
    /// The axis with number `k`: 0 for X, 1 for Y, 2 for Z.
    pub fn from_index(k: usize) -> (r: Axis)
        requires
            k < 3,
        ensures
            r.num() == k,
    {
        if k == 0 {
            Axis::X
        } else if k == 1 {
            Axis::Y
        } else {
            Axis::Z
        }
    }

    /// An axis chosen at random: the axis numbered by an index that `rand` draws from `0..3`.
    pub fn random_variant(rng: &mut StdRng) -> Axis {
        let k = random_index(rng, 3);
        Axis::from_index(k)
    }
}

/// A node that has not been split, holding tile `t`.
pub open spec fn is_leaf_of(n: BSPNode<Tile>, t: Tile) -> bool {
    n.value == t && n.left is None && n.right is None
}

impl BSPNode<Tile> {
    /// Splits the tile of this node along its split axis, at a random coordinate that leaves each
    /// half at least a quarter of the tile's extent. The halves become the two children: the
    /// left one below the cut and the right one above it, each with a random split axis of its
    /// own, numbered with the next two indices of `next_index`, and each holding a room with
    /// chance two in three.
    pub fn split(&mut self, rng: &mut StdRng, next_index: &mut usize)
        requires
            box_ok(old(self).value.lc, old(self).value.rc),
            old(self).value.split_count < u32::MAX,
            *old(next_index) + 2 <= usize::MAX,
        ensures
            final(self).value == old(self).value,
            final(self).split_d == old(self).split_d,
            *final(next_index) == *old(next_index) + 2,
            final(self).left matches Some(l) && final(self).right matches Some(r) && is_leaf_of(
                *l,
                l.value,
            ) && is_leaf_of(*r, r.value) && split_into(
                old(self).value,
                old(self).split_d.num(),
                l.value,
                r.value,
                *old(next_index),
            ),
    {
        let t = self.value;
        let a = self.split_d.index();
        let lo = t.lc.get(a);
        let hi = t.rc.get(a);
        let w = hi - lo;
        let pos = random_i64_in(rng, lo + w / 4, hi - w / 4);
        let first = *next_index;
        *next_index = first + 2;
        let lt = random_ratio(rng, 2, 3);
        let rt = random_ratio(rng, 2, 3);
        let mut left_rc = t.rc;
        left_rc.set(a, pos);
        let mut right_lc = t.lc;
        right_lc.set(a, pos);
        let left = BSPNode {
            value: Tile {
                index: first,
                lc: t.lc,
                rc: left_rc,
                traversible: lt,
                split_count: t.split_count + 1,
                room: None,
            },
            left: None,
            right: None,
            split_d: Axis::random_variant(rng),
        };
        let right = BSPNode {
            value: Tile {
                index: first + 1,
                lc: right_lc,
                rc: t.rc,
                traversible: rt,
                split_count: t.split_count + 1,
                room: None,
            },
            left: None,
            right: None,
            split_d: Axis::random_variant(rng),
        };
        proof {
            assert(left_rc.at(a as int) == pos);
        }
        self.left = Some(Box::new(left));
        self.right = Some(Box::new(right));
    }
}

} // verus!
