use grch_procedural_gen::map::{build_map, sort_tiles_by_high, tile_bounds};
use grch_procedural_gen::types::{Point3, Tile};

fn tile(index: usize, rc: Point3) -> Tile {
    Tile { index, lc: Point3(0, 0, 0), rc, traversible: false, split_count: 0, room: None }
}

#[test]
fn sorting_keeps_equal_tiles_in_order() {
    let mut v = vec![
        tile(0, Point3(5, 1, 0)),
        tile(1, Point3(3, 2, 0)),
        tile(2, Point3(5, 0, 0)),
        tile(3, Point3(1, 9, 0)),
        tile(4, Point3(3, 5, 0)),
    ];
    sort_tiles_by_high(&mut v, 0);
    let order: Vec<usize> = v.iter().map(|t| t.index).collect();
    assert_eq!(order, vec![3, 1, 4, 0, 2]);
}

#[test]
fn tile_map_sorts_by_each_axis_in_turn() {
    let mut v = vec![
        tile(0, Point3(5, 1, 2)),
        tile(1, Point3(3, 2, 2)),
        tile(2, Point3(5, 0, 1)),
    ];
    let map = build_map(&mut v);
    assert_eq!(map.len(), 3);
    let ids = |k: usize| -> Vec<usize> { map[k].iter().map(|t| t.0).collect() };
    assert_eq!(ids(0), vec![1, 0, 2]);
    assert_eq!(ids(1), vec![2, 0, 1]);
    assert_eq!(ids(2), vec![2, 0, 1]);
    assert_eq!(map[0][0], (1, Point3(0, 0, 0), Point3(3, 2, 2)));
    assert_eq!(tile_bounds(&v), map[2]);
}
