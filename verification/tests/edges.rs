use grch_procedural_gen::generate::walkable_rooms;
use grch_procedural_gen::edges::{
    create_corridors, edge_dfs, edge_rooms, generate_edges, orthogonal_paths, try_orthogonal_paths,
};
use grch_procedural_gen::types::{Axis, BSPNode, Point3, Room, Tile};

fn leaf(index: usize, lc: Point3, rc: Point3, room: Option<Room>) -> BSPNode<Tile> {
    BSPNode {
        value: Tile { index, lc, rc, traversible: room.is_some(), split_count: 1, room },
        left: None,
        right: None,
        split_d: Axis::X,
    }
}

#[test]
fn edge_rooms_joins_face_centres_along_x() {
    let r1 = Room(3, Point3(0, 0, 0), Point3(10, 20, 30), true);
    let r2 = Room(4, Point3(10, 4, 6), Point3(20, 9, 17), true);
    let e = edge_rooms(&r1, &r2, Axis::X);
    assert_eq!(e, (3, Point3(10, 10, 15), Point3(10, 6, 11), Axis::X));
}

#[test]
fn edge_rooms_joins_face_centres_along_y_and_z() {
    let r1 = Room(1, Point3(0, 0, 0), Point3(10, 20, 30), true);
    let r2 = Room(2, Point3(4, 30, 6), Point3(9, 40, 17), true);
    assert_eq!(edge_rooms(&r1, &r2, Axis::Y), (1, Point3(5, 20, 15), Point3(6, 30, 11), Axis::Y));
    assert_eq!(edge_rooms(&r1, &r2, Axis::Z), (1, Point3(5, 10, 30), Point3(6, 35, 6), Axis::Z));
}

#[test]
fn edge_rooms_halves_toward_zero() {
    // a reversed room: the half span is rounded toward zero, as Rust divides
    let r1 = Room(0, Point3(0, 0, 0), Point3(-3, -8, -5), true);
    let r2 = Room(1, Point3(0, 0, 0), Point3(-3, -8, -5), true);
    let e = edge_rooms(&r1, &r2, Axis::Y);
    assert_eq!(e.1, Point3(-2, -8, -3));
    assert_eq!(e.2, Point3(-1, 0, -2));
}

#[test]
fn generate_edges_picks_the_closest_rooms() {
    let a = Room(1, Point3(0, 0, 0), Point3(5, 5, 5), true);
    let b = Room(2, Point3(10, 10, 10), Point3(20, 20, 20), true);
    let c = Room(3, Point3(30, 30, 30), Point3(40, 40, 40), true);
    let d = Room(4, Point3(21, 0, 0), Point3(25, 5, 5), true);
    let left = vec![&a, &b];
    let right = vec![&c, &d];
    let mut edges = Vec::new();
    generate_edges((&left[..], &right[..]), Axis::X, Point3(20, 20, 20), &mut edges);
    assert_eq!(edges, vec![(2, Point3(20, 15, 15), Point3(30, 35, 35), Axis::X)]);
}

#[test]
fn generate_edges_keeps_the_first_of_equally_close_rooms() {
    let a = Room(1, Point3(0, 0, 0), Point3(2, 2, 2), true);
    let b = Room(2, Point3(0, 0, 0), Point3(2, 2, 2), true);
    let c = Room(3, Point3(4, 0, 0), Point3(6, 2, 2), true);
    let left = vec![&a, &b];
    let right = vec![&c];
    let mut edges = vec![(9, Point3(0, 0, 0), Point3(0, 0, 0), Axis::Z)];
    generate_edges((&left[..], &right[..]), Axis::X, Point3(3, 1, 1), &mut edges);
    assert_eq!(edges.len(), 2);
    assert_eq!(edges[1].0, 1);
}

#[test]
fn generate_edges_adds_nothing_when_a_side_is_empty() {
    let a = Room(1, Point3(0, 0, 0), Point3(2, 2, 2), true);
    let left = vec![&a];
    let right: Vec<&Room> = Vec::new();
    let mut edges = Vec::new();
    generate_edges((&left[..], &right[..]), Axis::X, Point3(3, 1, 1), &mut edges);
    assert!(edges.is_empty());
    generate_edges((&right[..], &left[..]), Axis::X, Point3(3, 1, 1), &mut edges);
    assert!(edges.is_empty());
}

#[test]
fn edge_dfs_joins_the_two_halves() {
    let room1 = Room(1, Point3(2, 2, 2), Point3(8, 8, 8), true);
    let room2 = Room(2, Point3(12, 2, 2), Point3(18, 8, 8), true);
    let root = BSPNode {
        value: Tile {
            index: 0,
            lc: Point3(0, 0, 0),
            rc: Point3(20, 10, 10),
            traversible: false,
            split_count: 0,
            room: None,
        },
        left: Some(Box::new(leaf(1, Point3(0, 0, 0), Point3(10, 10, 10), Some(room1)))),
        right: Some(Box::new(leaf(2, Point3(10, 0, 0), Point3(20, 10, 10), Some(room2)))),
        split_d: Axis::X,
    };
    let mut edges = Vec::new();
    let rooms = edge_dfs(&root, 1, &mut edges);
    assert_eq!(rooms, vec![&room1, &room2]);
    assert_eq!(edges, vec![(1, Point3(8, 5, 5), Point3(12, 5, 5), Axis::X)]);
}

#[test]
fn edge_dfs_skips_tiles_without_rooms() {
    let room2 = Room(2, Point3(12, 2, 2), Point3(18, 8, 8), true);
    let root = BSPNode {
        value: Tile {
            index: 0,
            lc: Point3(0, 0, 0),
            rc: Point3(20, 10, 10),
            traversible: false,
            split_count: 0,
            room: None,
        },
        left: Some(Box::new(leaf(1, Point3(0, 0, 0), Point3(10, 10, 10), None))),
        right: Some(Box::new(leaf(2, Point3(10, 0, 0), Point3(20, 10, 10), Some(room2)))),
        split_d: Axis::X,
    };
    let mut edges = Vec::new();
    let rooms = edge_dfs(&root, 1, &mut edges);
    assert_eq!(rooms, vec![&room2]);
    assert!(edges.is_empty());
}

fn two_tiles() -> Vec<Vec<(usize, Point3, Point3)>> {
    vec![vec![
        (0, Point3(0, 0, 0), Point3(10, 10, 10)),
        (1, Point3(10, 0, 0), Point3(20, 10, 10)),
    ]]
}

fn expected_path() -> Vec<(usize, Point3, Point3, Axis)> {
    vec![
        (0, Point3(8, 5, 5), Point3(10, 5, 5), Axis::X),
        (0, Point3(10, 5, 5), Point3(10, 5, 5), Axis::X),
        (0, Point3(10, 5, 5), Point3(10, 5, 5), Axis::X),
        (0, Point3(10, 5, 5), Point3(10, 5, 5), Axis::X),
        (0, Point3(10, 5, 5), Point3(12, 5, 5), Axis::X),
    ]
}

#[test]
fn orthogonal_paths_crosses_into_the_next_tile() {
    let edges = vec![(0, Point3(8, 5, 5), Point3(12, 5, 5), Axis::X)];
    let paths = orthogonal_paths(edges, two_tiles());
    assert_eq!(paths, expected_path());
}

#[test]
fn orthogonal_paths_is_an_unbroken_chain() {
    let edges = vec![(0, Point3(8, 5, 5), Point3(12, 5, 5), Axis::X)];
    let paths = orthogonal_paths(edges, two_tiles());
    assert_eq!(paths[0].1, Point3(8, 5, 5));
    assert_eq!(paths.last().unwrap().2, Point3(12, 5, 5));
    for w in paths.windows(2) {
        assert_eq!(w[1].1, w[0].2);
    }
    for s in &paths {
        let moved = (s.1 .0 != s.2 .0) as u32 + (s.1 .1 != s.2 .1) as u32 + (s.1 .2 != s.2 .2) as u32;
        assert!(moved <= 1);
    }
}

#[test]
fn orthogonal_paths_moves_down_as_well() {
    let edges = vec![(1, Point3(12, 5, 5), Point3(8, 5, 5), Axis::X)];
    let paths = orthogonal_paths(edges, two_tiles());
    assert_eq!(
        paths,
        vec![
            (1, Point3(12, 5, 5), Point3(10, 5, 5), Axis::X),
            (1, Point3(10, 5, 5), Point3(10, 5, 5), Axis::X),
            (1, Point3(10, 5, 5), Point3(10, 5, 5), Axis::X),
            (1, Point3(10, 5, 5), Point3(10, 5, 5), Axis::X),
            (1, Point3(10, 5, 5), Point3(8, 5, 5), Axis::X),
        ]
    );
}

#[test]
fn try_orthogonal_paths_needs_enough_rounds() {
    let edges = vec![(0, Point3(8, 5, 5), Point3(12, 5, 5), Axis::X)];
    assert_eq!(try_orthogonal_paths(edges.clone(), two_tiles(), 1), None);
    assert_eq!(try_orthogonal_paths(edges, two_tiles(), 2), Some(expected_path()));
}

#[test]
fn try_orthogonal_paths_fails_without_a_starting_tile() {
    let edges = vec![(7, Point3(8, 5, 5), Point3(12, 5, 5), Axis::X)];
    assert_eq!(try_orthogonal_paths(edges, two_tiles(), 10), None);
}

#[test]
fn try_orthogonal_paths_fails_without_a_next_tile() {
    let tiles = vec![vec![(0, Point3(0, 0, 0), Point3(10, 10, 10))]];
    let edges = vec![(0, Point3(8, 5, 5), Point3(12, 5, 5), Axis::X)];
    assert_eq!(try_orthogonal_paths(edges, tiles, 10), None);
}

#[test]
fn try_orthogonal_paths_needs_a_map_only_for_edges() {
    let empty: Vec<Vec<(usize, Point3, Point3)>> = Vec::new();
    assert_eq!(try_orthogonal_paths(Vec::new(), empty.clone(), 0), Some(Vec::new()));
    let edges = vec![(0, Point3(8, 5, 5), Point3(12, 5, 5), Axis::X)];
    assert_eq!(try_orthogonal_paths(edges, empty, 10), None);
}

#[test]
fn create_corridors_widens_each_segment() {
    let boxes = create_corridors(vec![
        (0, Point3(1, 2, 3), Point3(4, 5, 6), Axis::X),
        (0, Point3(-1, 0, 7), Point3(-1, 0, 9), Axis::Z),
    ]);
    assert_eq!(
        boxes,
        vec![
            (Point3(-19, -18, -17), Point3(24, 25, 26)),
            (Point3(-21, -20, -13), Point3(19, 20, 29)),
        ]
    );
}

#[test]
fn a_half_without_rooms_needs_no_distances() {
    let room2 = Room(2, Point3(12, 2, 2), Point3(18, 8, 8), true);
    let far = 4_000_000_000i64;
    let root = BSPNode {
        value: Tile {
            index: 0,
            lc: Point3(0, 0, 0),
            rc: Point3(2 * far, 10, 10),
            traversible: false,
            split_count: 0,
            room: None,
        },
        left: Some(Box::new(leaf(1, Point3(0, 0, 0), Point3(far, far, far), None))),
        right: Some(Box::new(leaf(2, Point3(far, 0, 0), Point3(2 * far, 10, 10), Some(room2)))),
        split_d: Axis::X,
    };
    assert!(walkable_rooms(&root, 1).is_some());
    let mut edges = Vec::new();
    let rooms = edge_dfs(&root, 1, &mut edges);
    assert_eq!(rooms, vec![&room2]);
    assert!(edges.is_empty());
    let empty: Vec<&Room> = Vec::new();
    let right = vec![&room2];
    generate_edges((&empty[..], &right[..]), Axis::X, Point3(far, far, far), &mut edges);
    assert!(edges.is_empty());
}
