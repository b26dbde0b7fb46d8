use grch_procedural_gen::edges::{edge_dfs, try_orthogonal_paths};
use grch_procedural_gen::generate::{add_boxes, assemble, count_placements, walkable_rooms};
use grch_procedural_gen::map::build_map;
use grch_procedural_gen::types::{Point3, Room, Tile};
use grch_procedural_gen::{build_dfs, leaves_in_build_order, node_budget, partition, RoomPlacement};
use rand::rngs::StdRng;
use rand::SeedableRng;

/// A room that fills the middle half of its tile.
fn middle(t: &Tile) -> RoomPlacement {
    let q = |lo: i64, hi: i64| (hi - lo) / 4;
    RoomPlacement {
        low: Point3(t.lc.0 + q(t.lc.0, t.rc.0), t.lc.1 + q(t.lc.1, t.rc.1), t.lc.2 + q(t.lc.2, t.rc.2)),
        high: Point3(t.rc.0 - q(t.lc.0, t.rc.0), t.rc.1 - q(t.lc.1, t.rc.1), t.rc.2 - q(t.lc.2, t.rc.2)),
        inset: Point3(0, 0, 0),
    }
}

fn placements(root: &grch_procedural_gen::types::BSPNode<Tile>) -> Vec<Option<RoomPlacement>> {
    leaves_in_build_order(root)
        .iter()
        .map(|t| if t.traversible { Some(middle(t)) } else { None })
        .collect()
}

#[test]
fn partition_numbers_every_leaf_once() {
    let mut rng = StdRng::seed_from_u64(11);
    let root = partition(Point3(1000, 1000, 1000), 5, &mut rng).unwrap();
    assert_eq!(root.value.index, 0);
    let mut ids: Vec<usize> = leaves_in_build_order(&root).iter().map(|t| t.index).collect();
    assert_eq!(ids.len(), 32);
    ids.sort();
    ids.dedup();
    assert_eq!(ids.len(), 32);
    assert!(ids.iter().all(|&i| 1 <= i && i <= 62));
}

#[test]
fn rooms_inside_their_tiles_do_not_collide() {
    let mut rng = StdRng::seed_from_u64(5);
    let mut root = partition(Point3(2048, 2048, 2048), 5, &mut rng).unwrap();
    let ps = placements(&root);
    let mut tvec = Vec::new();
    let mut next = 0;
    let mut s = String::new();
    let mut v = 0;
    build_dfs(&mut root, &mut tvec, &ps, &mut next, &mut s, &mut v);
    let rooms: Vec<Room> = tvec.iter().filter_map(|t| t.room).collect();
    assert!(!rooms.is_empty());
    for i in 0..rooms.len() {
        for j in 0..rooms.len() {
            if i != j {
                let (a, b) = (rooms[i], rooms[j]);
                assert!((0..3).any(|k| a.2.get(k) <= b.1.get(k) || b.2.get(k) <= a.1.get(k)));
            }
        }
    }
}

#[test]
fn every_routed_edge_is_an_orthogonal_chain() {
    let mut rng = StdRng::seed_from_u64(9);
    let mut root = partition(Point3(2048, 2048, 2048), 4, &mut rng).unwrap();
    let ps = placements(&root);
    let mut tvec = Vec::new();
    let mut next = 0;
    let mut s = String::new();
    let mut v = 0;
    build_dfs(&mut root, &mut tvec, &ps, &mut next, &mut s, &mut v);
    let map = build_map(&mut tvec);
    assert!(walkable_rooms(&root, 4).is_some());
    let mut edges = Vec::new();
    let rooms = edge_dfs(&root, 4, &mut edges);
    assert_eq!(edges.len(), if rooms.is_empty() { 0 } else { rooms.len() - 1 });
    for e in edges {
        if let Some(path) = try_orthogonal_paths(vec![e], map.clone(), 100_000) {
            assert!(path.len() >= 3);
            assert_eq!(path[0].1, e.1);
            assert_eq!(path.last().unwrap().2, e.2);
            for w in path.windows(2) {
                assert_eq!(w[1].1, w[0].2);
            }
            for p in &path {
                assert_eq!((p.0, p.3), (e.0, e.3));
                let moved = (0..3).filter(|&k| p.1.get(k) != p.2.get(k)).count();
                assert!(moved <= 1);
            }
        }
    }
}

#[test]
fn add_boxes_numbers_the_boxes_one_after_another() {
    let mut s = String::new();
    let boxes = vec![
        (Point3(0, 0, 0), Point3(1, 1, 1)),
        (Point3(2, 2, 2), Point3(3, 3, 3)),
    ];
    assert_eq!(add_boxes(&boxes, &mut s, 0), Some(16));
    assert!(s.contains("f 9 15 13\n"));
    assert!(s.ends_with("f 16 12 14\n"));
    let mut t = String::new();
    assert_eq!(add_boxes(&boxes, &mut t, usize::MAX - 10), None);
}

#[test]
fn assemble_needs_a_placement_for_each_leaf() {
    let mut rng = StdRng::seed_from_u64(1);
    let root = partition(Point3(500, 500, 500), 2, &mut rng).unwrap();
    assert_eq!(count_placements(&root, &Vec::new(), 0, 0), None);
    assert_eq!(assemble(root, 2, &Vec::new(), 1000), None);
}

#[test]
fn assemble_needs_rooms_for_traversible_leaves() {
    let mut rng = StdRng::seed_from_u64(1);
    let root = partition(Point3(500, 500, 500), 2, &mut rng).unwrap();
    let leaves = leaves_in_build_order(&root);
    let none: Vec<Option<RoomPlacement>> = leaves.iter().map(|_| None).collect();
    if leaves.iter().any(|t| t.traversible) {
        assert_eq!(assemble(root, 2, &none, 1000), None);
    } else {
        assert!(assemble(root, 2, &none, 1000).is_some());
    }
}

#[test]
fn assemble_writes_header_and_rooms_first() {
    let mut rng = StdRng::seed_from_u64(2);
    let root = partition(Point3(900, 900, 900), 3, &mut rng).unwrap();
    let ps = placements(&root);
    let n_rooms = ps.iter().filter(|p| p.is_some()).count();
    if let Some(text) = assemble(root, 3, &ps, 100_000) {
        assert!(text.starts_with("#OBJ file exported by grch-procedural-gen\n o grchDungeon\n"));
        let vertices = text.lines().filter(|l| l.starts_with("v ")).count();
        let faces = text.lines().filter(|l| l.starts_with("f ")).count();
        assert!(vertices >= 8 * n_rooms);
        assert_eq!(vertices % 8, 0);
        assert_eq!(faces, vertices / 8 * 12);
    }
}

#[test]
fn node_budget_counts_the_nodes_of_a_split() {
    assert_eq!(node_budget(0), Some(0));
    assert_eq!(node_budget(1), Some(2));
    assert_eq!(node_budget(6), Some(126));
    assert_eq!(node_budget(64), None);
}
