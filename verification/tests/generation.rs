use grch_procedural_gen::generate::assemble;
use grch_procedural_gen::types::{Point3, Tile};
use grch_procedural_gen::{
    build_dfs, construct_room, generator, leaves_in_build_order, partition, RoomPlacement, SEED,
};
use rand::rngs::StdRng;
use rand::{RngExt, SeedableRng};

const ROOM_RANDOM_VARIABILITY: f64 = 0.05;
const ROOM_SCALE_FACTOR: f64 = 0.08;

fn placement(t: &Tile, rng: &mut StdRng) -> RoomPlacement {
    let (w, h, d) = (t.get_width(), t.get_height(), t.get_depth());
    let dx = (w as f64 * rng.random_range(0.0..ROOM_RANDOM_VARIABILITY)) as i64;
    let dy = (h as f64 * rng.random_range(0.0..ROOM_RANDOM_VARIABILITY)) as i64;
    let dz = (d as f64 * rng.random_range(0.0..ROOM_RANDOM_VARIABILITY)) as i64;
    RoomPlacement {
        low: Point3(
            (t.lc.0 as f64 + w as f64 * ROOM_SCALE_FACTOR) as i64,
            (t.lc.1 as f64 + h as f64 * ROOM_SCALE_FACTOR) as i64,
            (t.lc.2 as f64 + d as f64 * ROOM_SCALE_FACTOR) as i64,
        ),
        high: Point3(
            (t.rc.0 as f64 - w as f64 * ROOM_SCALE_FACTOR) as i64,
            (t.rc.1 as f64 - h as f64 * ROOM_SCALE_FACTOR) as i64,
            (t.rc.2 as f64 - d as f64 * ROOM_SCALE_FACTOR) as i64,
        ),
        inset: Point3(dx, dy, dz),
    }
}

fn generate(size: Point3, divisions: u32) -> Option<String> {
    let mut rng = generator();
    let root = partition(size, divisions, &mut rng).unwrap();
    let leaves = leaves_in_build_order(&root);
    let placements: Vec<Option<RoomPlacement>> = leaves
        .iter()
        .map(|t| if t.traversible { Some(placement(t, &mut rng)) } else { None })
        .collect();
    assemble(root, divisions, &placements, 1_000_000)
}

#[test]
fn generates_obj_successfully() {
    let obj = generate(Point3(2048, 2048, 2048), 6).expect("OBJ text was not generated");
    assert!(obj.len() > 0, "OBJ text was generated but is empty");
}

#[test]
fn deterministic_generation() {
    let first = generate(Point3(2048, 2048, 2048), 6).expect("Failed to generate first OBJ");
    let second = generate(Point3(2048, 2048, 2048), 6).expect("Failed to generate second OBJ");
    assert_eq!(first, second);
}

#[test]
fn obj_contains_geometry() {
    let obj = generate(Point3(2048, 2048, 2048), 6).expect("Failed to generate OBJ");
    assert!(obj.lines().any(|line| line.starts_with("v ")), "OBJ contains no vertices");
    assert!(obj.lines().any(|line| line.starts_with("f ")), "OBJ contains no faces");
}

#[test]
fn partition_leaves_do_not_collide() {
    let mut rng = StdRng::seed_from_u64(SEED);
    let root = partition(Point3(2048, 2048, 2048), 6, &mut rng).unwrap();
    let leaves = leaves_in_build_order(&root);
    assert_eq!(leaves.len(), 64);
    for t in &leaves {
        assert_eq!(t.split_count, 6);
        assert!(0 <= t.lc.0 && t.rc.0 <= 2048 && 0 <= t.lc.1 && t.rc.1 <= 2048 && 0 <= t.lc.2 && t.rc.2 <= 2048);
    }
    for i in 0..leaves.len() {
        for j in 0..leaves.len() {
            if i != j {
                let (a, b) = (leaves[i], leaves[j]);
                let apart = (0..3).any(|k| a.rc.get(k) <= b.lc.get(k) || b.rc.get(k) <= a.lc.get(k));
                assert!(apart, "leaves {} and {} overlap", i, j);
            }
        }
    }
}

#[test]
fn partition_refuses_a_negative_box() {
    let mut rng = StdRng::seed_from_u64(SEED);
    assert!(partition(Point3(-1, 5, 5), 2, &mut rng).is_none());
}

#[test]
fn partition_without_divisions_is_a_single_tile() {
    let mut rng = StdRng::seed_from_u64(SEED);
    let root = partition(Point3(10, 10, 10), 0, &mut rng).unwrap();
    assert!(root.left.is_none() && root.right.is_none());
    assert_eq!(root.value.rc, Point3(10, 10, 10));
    assert_eq!(leaves_in_build_order(&root), vec![root.value]);
}

#[test]
fn construct_room_places_only_in_traversible_tiles() {
    let mut t = Tile {
        index: 4,
        lc: Point3(0, 0, 0),
        rc: Point3(100, 100, 100),
        traversible: false,
        split_count: 1,
        room: None,
    };
    let p = RoomPlacement { low: Point3(8, 8, 8), high: Point3(92, 92, 92), inset: Point3(1, 2, 3) };
    let mut s = String::new();
    assert_eq!(construct_room(t, Some(p), &mut s, 0), None);
    assert_eq!(s, "");
    t.traversible = true;
    let r = construct_room(t, Some(p), &mut s, 0).unwrap();
    assert_eq!(r.0, 4);
    assert_eq!(r.1, Point3(9, 10, 11));
    assert_eq!(r.2, Point3(91, 90, 89));
    assert!(r.3);
    assert!(s.starts_with("v 9 10 11\n"));
}

#[test]
fn build_dfs_places_rooms_right_half_first() {
    let mut rng = StdRng::seed_from_u64(3);
    let mut root = partition(Point3(100, 100, 100), 1, &mut rng).unwrap();
    let leaves = leaves_in_build_order(&root);
    assert_eq!(leaves[0], root.right.as_ref().unwrap().value);
    root.right.as_mut().unwrap().value.traversible = true;
    root.left.as_mut().unwrap().value.traversible = true;
    let ps = vec![
        Some(RoomPlacement { low: Point3(1, 1, 1), high: Point3(2, 2, 2), inset: Point3(0, 0, 0) }),
        Some(RoomPlacement { low: Point3(3, 3, 3), high: Point3(4, 4, 4), inset: Point3(0, 0, 0) }),
    ];
    let mut tvec = Vec::new();
    let mut next = 0;
    let mut s = String::new();
    let mut v = 0;
    build_dfs(&mut root, &mut tvec, &ps, &mut next, &mut s, &mut v);
    assert_eq!(next, 2);
    assert_eq!(tvec.len(), 2);
    assert_eq!(tvec[0].room.unwrap().1, Point3(1, 1, 1));
    assert_eq!(tvec[1].room.unwrap().1, Point3(3, 3, 3));
    assert_eq!(root.right.as_ref().unwrap().value.room.unwrap().2, Point3(2, 2, 2));
    assert!(s.starts_with("v 1 1 1\n"));
    assert!(s.contains("v 3 3 3\n"));
    assert_eq!(v, 16);
    assert!(s.contains("f 1 7 5\n"));
    assert!(s.contains("f 9 15 13\n"));
}

#[test]
fn generator_is_seeded_with_seed() {
    assert_eq!(generator(), StdRng::seed_from_u64(SEED));
    assert_ne!(generator(), StdRng::seed_from_u64(SEED + 1));
}

#[test]
fn obj_faces_use_their_own_vertices() {
    let obj = generate(Point3(2048, 2048, 2048), 6).expect("Failed to generate OBJ");
    let lines: Vec<&str> = obj.lines().skip(2).collect();
    assert_eq!(lines.len() % 20, 0);
    let mut vertices = 0usize;
    for (b, chunk) in lines.chunks(20).enumerate() {
        assert!(chunk[..8].iter().all(|l| l.starts_with("v ")));
        vertices += 8;
        for face in &chunk[8..] {
            assert!(face.starts_with("f "));
            for n in face[2..].split_whitespace() {
                let n: usize = n.parse().unwrap();
                assert!(8 * b < n && n <= 8 * b + 8, "box {} names vertex {}", b, n);
                assert!(n <= vertices);
            }
        }
    }
}

#[test]
fn no_division_gives_a_header_only_obj_whatever_the_size() {
    let mut rng = StdRng::seed_from_u64(SEED);
    let root = partition(Point3(-5, 10, -7), 0, &mut rng).unwrap();
    assert_eq!(root.value.rc, Point3(-5, 10, -7));
    let leaves = leaves_in_build_order(&root);
    let placements: Vec<Option<RoomPlacement>> = leaves.iter().map(|_| None).collect();
    assert_eq!(
        assemble(root, 0, &placements, 10),
        Some("#OBJ file exported by grch-procedural-gen\n o grchDungeon\n".to_string())
    );
}
