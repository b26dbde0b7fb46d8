use grch_procedural_gen::types::{Axis, BSPNode, Point3, Tile};
use rand::rngs::StdRng;
use rand::SeedableRng;

#[test]
fn point_coordinates_by_axis() {
    let mut p = Point3(1, 2, 3);
    assert_eq!((p.get(0), p.get(1), p.get(2)), (1, 2, 3));
    p.set(1, -9);
    assert_eq!(p, Point3(1, -9, 3));
    assert_eq!((Axis::X.index(), Axis::Y.index(), Axis::Z.index()), (0, 1, 2));
}

#[test]
fn tile_extents() {
    let t = Tile {
        index: 0,
        lc: Point3(-4, 10, 0),
        rc: Point3(6, 30, 7),
        traversible: false,
        split_count: 0,
        room: None,
    };
    assert_eq!((t.get_width(), t.get_height(), t.get_depth()), (10, 20, 7));
}

#[test]
fn split_cuts_the_tile_in_two() {
    let mut rng = StdRng::seed_from_u64(7);
    for axis in [Axis::X, Axis::Y, Axis::Z] {
        let t = Tile {
            index: 0,
            lc: Point3(0, 0, 0),
            rc: Point3(100, 200, 300),
            traversible: false,
            split_count: 2,
            room: None,
        };
        let mut node = BSPNode { value: t, left: None, right: None, split_d: axis };
        let mut next = 5;
        node.split(&mut rng, &mut next);
        assert_eq!(next, 7);
        let l = node.left.as_ref().unwrap().value;
        let r = node.right.as_ref().unwrap().value;
        let a = axis.index();
        let pos = l.rc.get(a);
        let w = t.rc.get(a);
        assert!(w / 4 <= pos && pos <= w - w / 4);
        assert_eq!(r.lc.get(a), pos);
        assert_eq!((l.index, r.index), (5, 6));
        assert_eq!((l.split_count, r.split_count), (3, 3));
        assert_eq!((l.lc, r.rc), (t.lc, t.rc));
        assert!(l.room.is_none() && r.room.is_none());
        for k in 0..3 {
            if k != a {
                assert_eq!(l.rc.get(k), t.rc.get(k));
                assert_eq!(r.lc.get(k), t.lc.get(k));
            }
        }
    }
}

#[test]
fn axes_by_number() {
    assert_eq!(Axis::from_index(0), Axis::X);
    assert_eq!(Axis::from_index(1), Axis::Y);
    assert_eq!(Axis::from_index(2), Axis::Z);
}
