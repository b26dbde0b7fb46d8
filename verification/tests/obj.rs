use grch_procedural_gen::obj::{add_obj_box, create_obj, push_int, push_nat};
use grch_procedural_gen::types::Point3;

#[test]
fn create_obj_writes_the_header() {
    assert_eq!(create_obj(), "#OBJ file exported by grch-procedural-gen\n o grchDungeon\n");
}

#[test]
fn add_obj_box_writes_vertices_then_faces() {
    let mut s = String::new();
    let last = add_obj_box(Point3(0, 1, 2), Point3(3, 4, 5), &mut s, 0);
    assert_eq!(last, 8);
    let expected = "v 0 1 2\nv 3 1 2\nv 3 4 2\nv 3 4 5\nv 0 4 5\nv 3 1 5\nv 0 4 2\nv 0 1 5\n\
f 1 7 5\nf 1 5 8\nf 1 7 3\nf 1 3 2\nf 2 3 4\nf 2 4 6\nf 1 8 6\nf 1 6 2 \nf 7 5 4\nf 7 4 3\nf 8 5 4\nf 8 4 6\n";
    assert_eq!(s, expected);
}

#[test]
fn add_obj_box_numbers_vertices_after_v() {
    let mut s = create_obj();
    let last = add_obj_box(Point3(-7, -100, 0), Point3(10, 20, 30), &mut s, 16);
    assert_eq!(last, 24);
    assert!(s.starts_with("#OBJ file exported by grch-procedural-gen\n o grchDungeon\nv -7 -100 0\nv 10 -100 0\n"));
    assert!(s.ends_with("f 24 20 22\n"));
    assert!(s.contains("f 17 22 18 \n"));
}

#[test]
fn numbers_are_written_in_decimal() {
    let mut s = String::new();
    push_int(&mut s, i64::MIN);
    s.push('|');
    push_int(&mut s, i64::MAX);
    s.push('|');
    push_int(&mut s, 0);
    s.push('|');
    push_nat(&mut s, 1090);
    assert_eq!(s, "-9223372036854775808|9223372036854775807|0|1090");
}

#[test]
fn returned_number_counts_the_vertex_lines() {
    let mut s = create_obj();
    let mut v = 0;
    for k in 0..3i64 {
        let before = v;
        let start = s.len();
        v = add_obj_box(Point3(k, -k, 2 * k), Point3(k + 1, 5, 9), &mut s, v);
        assert_eq!(s.lines().filter(|l| l.starts_with("v ")).count(), v);
        let faces: Vec<&str> = s[start..].lines().filter(|l| l.starts_with("f ")).collect();
        assert_eq!(faces.len(), 12);
        for f in faces {
            for n in f[2..].split_whitespace() {
                let n: usize = n.parse().unwrap();
                assert!(before < n && n <= v);
            }
        }
    }
    assert_eq!(v, 24);
    assert!(s.ends_with("f 24 20 22\n"));
}
