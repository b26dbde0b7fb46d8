use vstd::prelude::*;
use crate::types::Point3;

verus! {

/// The text of the decimal digit `d`.
pub open spec fn digit_char(d: int) -> char {
    if d == 0 {
        '0'
    } else if d == 1 {
        '1'
    } else if d == 2 {
        '2'
    } else if d == 3 {
        '3'
    } else if d == 4 {
        '4'
    } else if d == 5 {
        '5'
    } else if d == 6 {
        '6'
    } else if d == 7 {
        '7'
    } else if d == 8 {
        '8'
    } else {
        '9'
    }
}

/// The decimal digits of `n`, most significant first, with no leading zero.
pub open spec fn nat_text(n: nat) -> Seq<char>
    decreases n,
{
    if n < 10 {
        seq![digit_char(n as int)]
    } else {
        nat_text(n / 10).push(digit_char((n % 10) as int))
    }
}

/// The decimal text of `i`, with a leading `-` when it is negative.
pub open spec fn int_text(i: int) -> Seq<char> {
    if i < 0 {
        seq!['-'] + nat_text((-i) as nat)
    } else {
        nat_text(i as nat)
    }
}

/// The OBJ line of a vertex at `(x, y, z)`.
pub open spec fn vertex_line(x: int, y: int, z: int) -> Seq<char> {
    seq!['v', ' '] + int_text(x) + seq![' '] + int_text(y) + seq![' '] + int_text(z) + seq!['\n']
}

/// The OBJ line of a triangular face through vertices `a`, `b` and `c`.
pub open spec fn face_line(a: int, b: int, c: int) -> Seq<char> {
    seq!['f', ' '] + int_text(a) + seq![' '] + int_text(b) + seq![' '] + int_text(c) + seq!['\n']
}

/// The same face line with a space before the line break.
pub open spec fn face_line_spaced(a: int, b: int, c: int) -> Seq<char> {
    seq!['f', ' '] + int_text(a) + seq![' '] + int_text(b) + seq![' '] + int_text(c) + seq![' ', '\n']
}

/// The eight corners of the box `[c1, c2]`, in the order in which a box writes its vertices.
pub open spec fn box_vertices(c1: Point3, c2: Point3) -> Seq<char> {
    vertex_line(c1.0 as int, c1.1 as int, c1.2 as int)
        + vertex_line(c2.0 as int, c1.1 as int, c1.2 as int)
        + vertex_line(c2.0 as int, c2.1 as int, c1.2 as int)
        + vertex_line(c2.0 as int, c2.1 as int, c2.2 as int)
        + vertex_line(c1.0 as int, c2.1 as int, c2.2 as int)
        + vertex_line(c2.0 as int, c1.1 as int, c2.2 as int)
        + vertex_line(c1.0 as int, c2.1 as int, c1.2 as int)
        + vertex_line(c1.0 as int, c1.1 as int, c2.2 as int)
}

/// The twelve triangles of a box whose vertices are numbered from `o + 1` to `o + 8`: two for
/// each of its six sides.
pub open spec fn box_faces(o: int) -> Seq<char> {
    face_line(o + 1, o + 7, o + 5)
        + face_line(o + 1, o + 5, o + 8)
        + face_line(o + 1, o + 7, o + 3)
        + face_line(o + 1, o + 3, o + 2)
        + face_line(o + 2, o + 3, o + 4)
        + face_line(o + 2, o + 4, o + 6)
        + face_line(o + 1, o + 8, o + 6)
        + face_line_spaced(o + 1, o + 6, o + 2)
        + face_line(o + 7, o + 5, o + 4)
        + face_line(o + 7, o + 4, o + 3)
        + face_line(o + 8, o + 5, o + 4)
        + face_line(o + 8, o + 4, o + 6)
}

/// The OBJ text of the box `[c1, c2]` whose vertices get the numbers `o + 1` to `o + 8`.
#[verifier::opaque]
pub open spec fn box_text(c1: Point3, c2: Point3, o: int) -> Seq<char> {
    box_vertices(c1, c2) + box_faces(o)
}

/// The header that starts every exported OBJ file.
pub open spec fn obj_header() -> Seq<char> {
    "#OBJ file exported by grch-procedural-gen\n o grchDungeon\n"@
}

/// Appends the decimal digit `d`.
fn push_digit(s: &mut String, d: u64)
    requires
        d < 10,
    ensures
        final(s)@ == old(s)@.push(digit_char(d as int)),
{
    let t = if d == 0 {
        "0"
    } else if d == 1 {
        "1"
    } else if d == 2 {
        "2"
    } else if d == 3 {
        "3"
    } else if d == 4 {
        "4"
    } else if d == 5 {
        "5"
    } else if d == 6 {
        "6"
    } else if d == 7 {
        "7"
    } else if d == 8 {
        "8"
    } else {
        "9"
    };
    proof {
        reveal_strlit("0");
        reveal_strlit("1");
        reveal_strlit("2");
        reveal_strlit("3");
        reveal_strlit("4");
        reveal_strlit("5");
        reveal_strlit("6");
        reveal_strlit("7");
        reveal_strlit("8");
        reveal_strlit("9");
    }
    s.append(t);
    assert(s@ =~= old(s)@.push(digit_char(d as int)));
}

/// Appends the decimal text of `n`.
pub fn push_nat(s: &mut String, n: u64)
    ensures
        final(s)@ == old(s)@ + nat_text(n as nat),
    decreases n,
{
    if n >= 10 {
        push_nat(s, n / 10);
        push_digit(s, n % 10);
        assert(final(s)@ =~= old(s)@ + nat_text(n as nat));
    } else {
        push_digit(s, n);
        assert(final(s)@ =~= old(s)@ + nat_text(n as nat));
    }
}

/// Appends the decimal text of `i`.
pub fn push_int(s: &mut String, i: i64)
    ensures
        final(s)@ == old(s)@ + int_text(i as int),
{
    if i < 0 {
        s.append("-");
        proof {
            reveal_strlit("-");
        }
        let mag: u64 = if i == i64::MIN {
            9223372036854775808u64
        } else {
            (-i) as u64
        };
        push_nat(s, mag);
        assert(final(s)@ =~= old(s)@ + int_text(i as int));
    } else {
        push_nat(s, i as u64);
    }
}

/// Appends the separator between two numbers of a line.
fn push_space(s: &mut String)
    ensures
        final(s)@ == old(s)@ + seq![' '],
{
    s.append(" ");
    proof {
        reveal_strlit(" ");
    }
}

/// Appends the line of a vertex at `(x, y, z)`.
fn push_vertex(s: &mut String, x: i64, y: i64, z: i64)
    ensures
        final(s)@ == old(s)@ + vertex_line(x as int, y as int, z as int),
{
    s.append("v ");
    push_int(s, x);
    push_space(s);
    push_int(s, y);
    push_space(s);
    push_int(s, z);
    s.append("\n");
    proof {
        reveal_strlit("v ");
        reveal_strlit("\n");
    }
    assert(final(s)@ =~= old(s)@ + vertex_line(x as int, y as int, z as int));
}

/// Appends the line of a face through vertices `a`, `b` and `c`, with a space before the line
/// break when `spaced`.
fn push_face(s: &mut String, a: usize, b: usize, c: usize, spaced: bool)
    ensures
        final(s)@ == old(s)@ + if spaced {
            face_line_spaced(a as int, b as int, c as int)
        } else {
            face_line(a as int, b as int, c as int)
        },
{
    s.append("f ");
    push_nat(s, a as u64);
    push_space(s);
    push_nat(s, b as u64);
    push_space(s);
    push_nat(s, c as u64);
    if spaced {
        s.append(" \n");
    } else {
        s.append("\n");
    }
    proof {
        reveal_strlit("f ");
        reveal_strlit("\n");
        reveal_strlit(" \n");
    }
    assert(final(s)@ =~= old(s)@ + if spaced {
        face_line_spaced(a as int, b as int, c as int)
    } else {
        face_line(a as int, b as int, c as int)
    });
}

/// A new OBJ text, holding only its header.
pub fn create_obj() -> (s: String)
    ensures
        s@ == obj_header(),
{
    String::from_str("#OBJ file exported by grch-procedural-gen\n o grchDungeon\n")
}

/// Appends `line` to `s`, where `s` is `base` followed by `done`: afterwards `s` is `base`
/// followed by `done + line`.
proof fn lemma_push_line(base: Seq<char>, done: Seq<char>, line: Seq<char>)
    ensures
        (base + done) + line == base + (done + line),
{
    vstd::seq_lib::lemma_concat_associative(base, done, line);
}

/// Appends the eight vertices of the box `[c1, c2]`.
fn push_box_vertices(s: &mut String, c1: Point3, c2: Point3)
    ensures
        final(s)@ == old(s)@ + box_vertices(c1, c2),
{
    let ghost base = s@;
    push_vertex(s, c1.0, c1.1, c1.2);
    let ghost done = vertex_line(c1.0 as int, c1.1 as int, c1.2 as int);
    assert(s@ == base + done);
    push_vertex(s, c2.0, c1.1, c1.2);
    proof {
        lemma_push_line(base, done, vertex_line(c2.0 as int, c1.1 as int, c1.2 as int));
        done = done + vertex_line(c2.0 as int, c1.1 as int, c1.2 as int);
    }
    push_vertex(s, c2.0, c2.1, c1.2);
    proof {
        lemma_push_line(base, done, vertex_line(c2.0 as int, c2.1 as int, c1.2 as int));
        done = done + vertex_line(c2.0 as int, c2.1 as int, c1.2 as int);
    }
    push_vertex(s, c2.0, c2.1, c2.2);
    proof {
        lemma_push_line(base, done, vertex_line(c2.0 as int, c2.1 as int, c2.2 as int));
        done = done + vertex_line(c2.0 as int, c2.1 as int, c2.2 as int);
    }
    push_vertex(s, c1.0, c2.1, c2.2);
    proof {
        lemma_push_line(base, done, vertex_line(c1.0 as int, c2.1 as int, c2.2 as int));
        done = done + vertex_line(c1.0 as int, c2.1 as int, c2.2 as int);
    }
    push_vertex(s, c2.0, c1.1, c2.2);
    proof {
        lemma_push_line(base, done, vertex_line(c2.0 as int, c1.1 as int, c2.2 as int));
        done = done + vertex_line(c2.0 as int, c1.1 as int, c2.2 as int);
    }
    push_vertex(s, c1.0, c2.1, c1.2);
    proof {
        lemma_push_line(base, done, vertex_line(c1.0 as int, c2.1 as int, c1.2 as int));
        done = done + vertex_line(c1.0 as int, c2.1 as int, c1.2 as int);
    }
    push_vertex(s, c1.0, c1.1, c2.2);
    proof {
        lemma_push_line(base, done, vertex_line(c1.0 as int, c1.1 as int, c2.2 as int));
    }
}

/// Appends one face line, where `s` is `base` followed by `done`.
fn push_face_after(
    s: &mut String,
    a: usize,
    b: usize,
    c: usize,
    spaced: bool,
    Ghost(base): Ghost<Seq<char>>,
    Ghost(done): Ghost<Seq<char>>,
)
    requires
        old(s)@ == base + done,
    ensures
        final(s)@ == base + (done + if spaced {
            face_line_spaced(a as int, b as int, c as int)
        } else {
            face_line(a as int, b as int, c as int)
        }),
{
    push_face(s, a, b, c, spaced);
    proof {
        lemma_push_line(
            base,
            done,
            if spaced {
                face_line_spaced(a as int, b as int, c as int)
            } else {
                face_line(a as int, b as int, c as int)
            },
        );
    }
}

/// Appends the twelve triangles of a box whose vertices are numbered from `o + 1` to `o + 8`.
fn push_box_faces(s: &mut String, o: usize)
    requires
        o + 8 <= usize::MAX,
    ensures
        final(s)@ == old(s)@ + box_faces(o as int),
{
    let ghost base = s@;
    let ghost oi = o as int;
    push_face(s, o + 1, o + 7, o + 5, false);
    let ghost d1 = face_line(oi + 1, oi + 7, oi + 5);
    push_face_after(s, o + 1, o + 5, o + 8, false, Ghost(base), Ghost(d1));
    let ghost d2 = d1 + face_line(oi + 1, oi + 5, oi + 8);
    push_face_after(s, o + 1, o + 7, o + 3, false, Ghost(base), Ghost(d2));
    let ghost d3 = d2 + face_line(oi + 1, oi + 7, oi + 3);
    push_face_after(s, o + 1, o + 3, o + 2, false, Ghost(base), Ghost(d3));
    let ghost d4 = d3 + face_line(oi + 1, oi + 3, oi + 2);
    push_face_after(s, o + 2, o + 3, o + 4, false, Ghost(base), Ghost(d4));
    let ghost d5 = d4 + face_line(oi + 2, oi + 3, oi + 4);
    push_face_after(s, o + 2, o + 4, o + 6, false, Ghost(base), Ghost(d5));
    let ghost d6 = d5 + face_line(oi + 2, oi + 4, oi + 6);
    push_face_after(s, o + 1, o + 8, o + 6, false, Ghost(base), Ghost(d6));
    let ghost d7 = d6 + face_line(oi + 1, oi + 8, oi + 6);
    push_face_after(s, o + 1, o + 6, o + 2, true, Ghost(base), Ghost(d7));
    let ghost d8 = d7 + face_line_spaced(oi + 1, oi + 6, oi + 2);
    push_face_after(s, o + 7, o + 5, o + 4, false, Ghost(base), Ghost(d8));
    let ghost d9 = d8 + face_line(oi + 7, oi + 5, oi + 4);
    push_face_after(s, o + 7, o + 4, o + 3, false, Ghost(base), Ghost(d9));
    let ghost d10 = d9 + face_line(oi + 7, oi + 4, oi + 3);
    push_face_after(s, o + 8, o + 5, o + 4, false, Ghost(base), Ghost(d10));
    let ghost d11 = d10 + face_line(oi + 8, oi + 5, oi + 4);
    push_face_after(s, o + 8, o + 4, o + 6, false, Ghost(base), Ghost(d11));
}

/// Appends the box `[c1, c2]` to an OBJ text: its eight vertices, then its twelve triangles,
/// whose vertex numbers start after `v`. Returns `v + 8`, the number of the box's last vertex.
pub fn add_obj_box(c1: Point3, c2: Point3, obj_data: &mut String, v: usize) -> (last: usize)
    requires
        v + 8 <= usize::MAX,
    ensures
        final(obj_data)@ == old(obj_data)@ + box_text(c1, c2, v as int),
        last == v + 8,
        ends_line(old(obj_data)@) ==> {
            &&& ends_line(final(obj_data)@)
            &&& vertex_lines(final(obj_data)@) == vertex_lines(old(obj_data)@) + 8
        },
{
    let ghost base = obj_data@;
    push_box_vertices(obj_data, c1, c2);
    let o = v;
    push_box_faces(obj_data, o);
    proof {
        lemma_push_line(base, box_vertices(c1, c2), box_faces(v as int));
        reveal(box_text);
        if ends_line(base) {
            lemma_box_adds_eight_vertex_lines(base, c1, c2, v as int);
        }
    }
    o + 8
}

/// The OBJ text of the boxes, one after another, the first one's vertices numbered after `v`
/// and each next one's after those of the one before.
pub open spec fn boxes_text(boxes: Seq<(Point3, Point3)>, v: int) -> Seq<char>
    decreases boxes.len(),
{
    if boxes.len() == 0 {
        seq![]
    } else {
        boxes_text(boxes.drop_last(), v) + box_text(
            boxes.last().0,
            boxes.last().1,
            v + 8 * (boxes.len() - 1),
        )
    }
}

/// Writing boxes one after another keeps numbering on: the boxes of `b` written after those of
/// `a` get their vertex numbers after all of `a`'s.
pub proof fn lemma_boxes_text_concat(a: Seq<(Point3, Point3)>, b: Seq<(Point3, Point3)>, v: int)
    ensures
        boxes_text(a + b, v) == boxes_text(a, v) + boxes_text(b, v + 8 * a.len()),
    decreases b.len(),
{
    if b.len() == 0 {
        assert(a + b =~= a);
        assert(boxes_text(a, v) + boxes_text(b, v + 8 * a.len()) =~= boxes_text(a, v));
    } else {
        lemma_boxes_text_concat(a, b.drop_last(), v);
        assert((a + b).drop_last() =~= a + b.drop_last());
        assert((a + b).last() == b.last());
        assert(v + 8 * ((a + b).len() - 1) == (v + 8 * a.len()) + 8 * (b.len() - 1));
        vstd::seq_lib::lemma_concat_associative(
            boxes_text(a, v),
            boxes_text(b.drop_last(), v + 8 * a.len()),
            box_text(b.last().0, b.last().1, v + 8 * (a.len() + b.len() - 1)),
        );
    }
}

/// The vertex numbers of the twelve triangles of a box whose vertices are numbered from `o + 1`
/// to `o + 8`, in the order `box_faces` writes them.
pub open spec fn face_triples(o: int) -> Seq<(int, int, int)> {
    seq![
        (o + 1, o + 7, o + 5),
        (o + 1, o + 5, o + 8),
        (o + 1, o + 7, o + 3),
        (o + 1, o + 3, o + 2),
        (o + 2, o + 3, o + 4),
        (o + 2, o + 4, o + 6),
        (o + 1, o + 8, o + 6),
        (o + 1, o + 6, o + 2),
        (o + 7, o + 5, o + 4),
        (o + 7, o + 4, o + 3),
        (o + 8, o + 5, o + 4),
        (o + 8, o + 4, o + 6),
    ]
}

/// The face lines of the triples, one after another; the eighth has a space before its line
/// break.
pub open spec fn faces_text(ts: Seq<(int, int, int)>) -> Seq<char>
    decreases ts.len(),
{
    if ts.len() == 0 {
        seq![]
    } else {
        let t = ts.last();
        faces_text(ts.drop_last()) + if ts.len() == 8 {
            face_line_spaced(t.0, t.1, t.2)
        } else {
            face_line(t.0, t.1, t.2)
        }
    }
}

/// Every face of a box names only the box's own vertices: `box_faces(o)` is the face lines of
/// `face_triples(o)`, whose numbers all lie between `o + 1` and `o + 8`. So a box written with
/// vertex numbers after `v`, where `v` counts the vertices already written (as `add_obj_box`
/// returns it for the next box), never names another box's vertices.
#[verifier::spinoff_prover]
#[verifier::rlimit(40)]
pub proof fn lemma_box_faces_own_vertices(o: int)
    ensures
        box_faces(o) == faces_text(face_triples(o)),
        forall|i: int|
            0 <= i < 12 ==> {
                let t = #[trigger] face_triples(o)[i];
                &&& o + 1 <= t.0 <= o + 8
                &&& o + 1 <= t.1 <= o + 8
                &&& o + 1 <= t.2 <= o + 8
            },
{
    let ts = face_triples(o);
    assert(ts.take(0) =~= Seq::<(int, int, int)>::empty());
    assert(faces_text(ts.take(1)) == face_line(o + 1, o + 7, o + 5)) by {
        assert(ts.take(1).drop_last() =~= ts.take(0));
        assert(faces_text(ts.take(0)) == Seq::<char>::empty());
        assert(Seq::<char>::empty() + face_line(o + 1, o + 7, o + 5) =~= face_line(o + 1, o + 7, o + 5));
    }
    assert(faces_text(ts.take(2)) == faces_text(ts.take(1)) + face_line(o + 1, o + 5, o + 8)) by {
        assert(ts.take(2).drop_last() =~= ts.take(1));
    }
    assert(faces_text(ts.take(3)) == faces_text(ts.take(2)) + face_line(o + 1, o + 7, o + 3)) by {
        assert(ts.take(3).drop_last() =~= ts.take(2));
    }
    assert(faces_text(ts.take(4)) == faces_text(ts.take(3)) + face_line(o + 1, o + 3, o + 2)) by {
        assert(ts.take(4).drop_last() =~= ts.take(3));
    }
    assert(faces_text(ts.take(5)) == faces_text(ts.take(4)) + face_line(o + 2, o + 3, o + 4)) by {
        assert(ts.take(5).drop_last() =~= ts.take(4));
    }
    assert(faces_text(ts.take(6)) == faces_text(ts.take(5)) + face_line(o + 2, o + 4, o + 6)) by {
        assert(ts.take(6).drop_last() =~= ts.take(5));
    }
    assert(faces_text(ts.take(7)) == faces_text(ts.take(6)) + face_line(o + 1, o + 8, o + 6)) by {
        assert(ts.take(7).drop_last() =~= ts.take(6));
    }
    assert(faces_text(ts.take(8)) == faces_text(ts.take(7)) + face_line_spaced(o + 1, o + 6, o + 2)) by {
        assert(ts.take(8).drop_last() =~= ts.take(7));
    }
    assert(faces_text(ts.take(9)) == faces_text(ts.take(8)) + face_line(o + 7, o + 5, o + 4)) by {
        assert(ts.take(9).drop_last() =~= ts.take(8));
    }
    assert(faces_text(ts.take(10)) == faces_text(ts.take(9)) + face_line(o + 7, o + 4, o + 3)) by {
        assert(ts.take(10).drop_last() =~= ts.take(9));
    }
    assert(faces_text(ts.take(11)) == faces_text(ts.take(10)) + face_line(o + 8, o + 5, o + 4)) by {
        assert(ts.take(11).drop_last() =~= ts.take(10));
    }
    assert(faces_text(ts.take(12)) == faces_text(ts.take(11)) + face_line(o + 8, o + 4, o + 6)) by {
        assert(ts.take(12).drop_last() =~= ts.take(11));
    }
    assert(ts.take(12) =~= ts);
}

/// The number of lines of `s` that start with `"v "`, where `at_start` says whether `s` itself
/// starts a line.
pub open spec fn vertex_lines_from(s: Seq<char>, at_start: bool) -> nat
    decreases s.len(),
{
    if s.len() == 0 {
        0
    } else {
        (if at_start && s[0] == 'v' && s.len() >= 2 && s[1] == ' ' {
            1nat
        } else {
            0nat
        }) + vertex_lines_from(s.drop_first(), s[0] == '\n')
    }
}

/// The number of lines of the text `s` that start with `"v "`: its vertex lines.
pub open spec fn vertex_lines(s: Seq<char>) -> nat {
    vertex_lines_from(s, true)
}

/// Whether `s` is empty or ends with a line break.
pub open spec fn ends_line(s: Seq<char>) -> bool {
    s.len() == 0 || s.last() == '\n'
}

proof fn lemma_vertex_lines_concat(a: Seq<char>, b: Seq<char>, st: bool)
    requires
        ends_line(a),
    ensures
        vertex_lines_from(a + b, st) == vertex_lines_from(a, st) + vertex_lines_from(
            b,
            if a.len() == 0 {
                st
            } else {
                true
            },
        ),
    decreases a.len(),
{
    if a.len() == 0 {
        assert(a + b =~= b);
    } else {
        let ab = a + b;
        assert(ab[0] == a[0]);
        assert(ab.drop_first() =~= a.drop_first() + b);
        let h: nat = if st && a[0] == 'v' && a.len() >= 2 && a[1] == ' ' { 1 } else { 0 };
        if a.len() == 1 {
            assert(a[0] == '\n');
            assert(a.drop_first() =~= Seq::<char>::empty());
            assert(ab.drop_first() =~= b);
            assert(vertex_lines_from(Seq::<char>::empty(), true) == 0);
            assert(vertex_lines_from(a, st) == 0 + vertex_lines_from(a.drop_first(), true));
            assert(vertex_lines_from(ab, st) == 0 + vertex_lines_from(ab.drop_first(), true));
        } else {
            assert(ab[1] == a[1]);
            assert(a.drop_first().last() == a.last());
            lemma_vertex_lines_concat(a.drop_first(), b, a[0] == '\n');
            assert(vertex_lines_from(a, st) == h + vertex_lines_from(a.drop_first(), a[0] == '\n'));
            assert(vertex_lines_from(ab, st) == h + vertex_lines_from(ab.drop_first(), a[0] == '\n'));
        }
    }
}

proof fn lemma_no_line_start(s: Seq<char>)
    requires
        forall|i: int| 0 <= i < s.len() - 1 ==> s[i] != '\n',
    ensures
        vertex_lines_from(s, false) == 0,
    decreases s.len(),
{
    if s.len() > 0 {
        if s.len() == 1 {
            assert(s.drop_first() =~= Seq::<char>::empty());
            assert(vertex_lines_from(s.drop_first(), s[0] == '\n') == 0);
        } else {
            assert forall|i: int| 0 <= i < s.drop_first().len() - 1 implies s.drop_first()[i] != '\n' by {
                assert(s.drop_first()[i] == s[i + 1]);
            }
            lemma_no_line_start(s.drop_first());
            assert(s[0] != '\n');
        }
        assert(vertex_lines_from(s, false) == 0 + vertex_lines_from(s.drop_first(), s[0] == '\n'));
    }
}

proof fn lemma_nat_text_chars(n: nat)
    ensures
        forall|i: int| 0 <= i < nat_text(n).len() ==> #[trigger] nat_text(n)[i] != '\n' && nat_text(n)[i] != 'v',
    decreases n,
{
    if n >= 10 {
        lemma_nat_text_chars(n / 10);
        let t = nat_text(n / 10);
        assert forall|i: int| 0 <= i < nat_text(n).len() implies #[trigger] nat_text(n)[i] != '\n'
            && nat_text(n)[i] != 'v' by {
            if i < t.len() {
                assert(nat_text(n)[i] == t[i]);
            }
        }
    }
}

proof fn lemma_int_text_chars(x: int)
    ensures
        forall|i: int| 0 <= i < int_text(x).len() ==> #[trigger] int_text(x)[i] != '\n',
{
    lemma_nat_text_chars(if x < 0 { (-x) as nat } else { x as nat });
    if x < 0 {
        let t = nat_text((-x) as nat);
        assert forall|i: int| 0 <= i < int_text(x).len() implies #[trigger] int_text(x)[i] != '\n' by {
            if i > 0 {
                assert(int_text(x)[i] == t[i - 1]);
            }
        }
    }
}

/// A line made of `head`, three numbers separated by spaces, and `tail`, where `tail` ends with
/// the line break and holds no other: it has no line break but the last.
proof fn lemma_line_breaks(head: Seq<char>, x: int, y: int, z: int, tail: Seq<char>)
    requires
        head.len() == 2,
        head[1] == ' ',
        head[0] != '\n',
        tail.len() >= 1,
        tail.last() == '\n',
        forall|i: int| 0 <= i < tail.len() - 1 ==> tail[i] != '\n',
    ensures
        ({
            let l = head + int_text(x) + seq![' '] + int_text(y) + seq![' '] + int_text(z) + tail;
            &&& l.last() == '\n'
            &&& forall|i: int| 0 <= i < l.len() - 1 ==> l[i] != '\n'
            &&& vertex_lines_from(l, true) == if head[0] == 'v' { 1nat } else { 0nat }
        }),
{
    lemma_int_text_chars(x);
    lemma_int_text_chars(y);
    lemma_int_text_chars(z);
    let tx = int_text(x);
    let ty = int_text(y);
    let tz = int_text(z);
    let l = head + tx + seq![' '] + ty + seq![' '] + tz + tail;
    let n1 = head.len() + tx.len();
    let n2 = n1 + 1 + ty.len();
    let n3 = n2 + 1 + tz.len();
    assert forall|i: int| 0 <= i < l.len() - 1 implies l[i] != '\n' by {
        if i < 2 {
            assert(l[i] == head[i]);
        } else if i < n1 {
            assert(l[i] == tx[i - 2]);
        } else if i == n1 {
            assert(l[i] == ' ');
        } else if i < n2 {
            assert(l[i] == ty[i - n1 - 1]);
        } else if i == n2 {
            assert(l[i] == ' ');
        } else if i < n3 {
            assert(l[i] == tz[i - n2 - 1]);
        } else {
            assert(l[i] == tail[i - n3]);
        }
    }
    assert(l.last() == tail.last());
    assert(l[0] == head[0] && l[1] == ' ');
    lemma_no_line_start(l.drop_first());
}

proof fn lemma_vertex_line_count(x: int, y: int, z: int)
    ensures
        ends_line(vertex_line(x, y, z)),
        vertex_line(x, y, z).len() > 0,
        vertex_lines_from(vertex_line(x, y, z), true) == 1,
{
    lemma_line_breaks(seq!['v', ' '], x, y, z, seq!['\n']);
}

proof fn lemma_face_line_count(x: int, y: int, z: int)
    ensures
        ends_line(face_line(x, y, z)),
        face_line(x, y, z).len() > 0,
        vertex_lines_from(face_line(x, y, z), true) == 0,
        ends_line(face_line_spaced(x, y, z)),
        face_line_spaced(x, y, z).len() > 0,
        vertex_lines_from(face_line_spaced(x, y, z), true) == 0,
{
    lemma_line_breaks(seq!['f', ' '], x, y, z, seq!['\n']);
    lemma_line_breaks(seq!['f', ' '], x, y, z, seq![' ', '\n']);
}

/// Appending one line to a text that ends a line: the vertex lines add up, and the text still
/// ends a line.
proof fn lemma_append_line(a: Seq<char>, l: Seq<char>, k: nat)
    requires
        ends_line(a),
        l.len() > 0,
        ends_line(l),
        vertex_lines_from(l, true) == k,
    ensures
        ends_line(a + l),
        vertex_lines(a + l) == vertex_lines(a) + k,
{
    lemma_vertex_lines_concat(a, l, true);
    assert((a + l).last() == l.last());
}

proof fn lemma_box_vertices_count(c1: Point3, c2: Point3)
    ensures
        ends_line(box_vertices(c1, c2)),
        vertex_lines(box_vertices(c1, c2)) == 8,
{
    let l1 = vertex_line(c1.0 as int, c1.1 as int, c1.2 as int);
    let l2 = vertex_line(c2.0 as int, c1.1 as int, c1.2 as int);
    let l3 = vertex_line(c2.0 as int, c2.1 as int, c1.2 as int);
    let l4 = vertex_line(c2.0 as int, c2.1 as int, c2.2 as int);
    let l5 = vertex_line(c1.0 as int, c2.1 as int, c2.2 as int);
    let l6 = vertex_line(c2.0 as int, c1.1 as int, c2.2 as int);
    let l7 = vertex_line(c1.0 as int, c2.1 as int, c1.2 as int);
    let l8 = vertex_line(c1.0 as int, c1.1 as int, c2.2 as int);
    lemma_vertex_line_count(c1.0 as int, c1.1 as int, c1.2 as int);
    lemma_vertex_line_count(c2.0 as int, c1.1 as int, c1.2 as int);
    lemma_vertex_line_count(c2.0 as int, c2.1 as int, c1.2 as int);
    lemma_vertex_line_count(c2.0 as int, c2.1 as int, c2.2 as int);
    lemma_vertex_line_count(c1.0 as int, c2.1 as int, c2.2 as int);
    lemma_vertex_line_count(c2.0 as int, c1.1 as int, c2.2 as int);
    lemma_vertex_line_count(c1.0 as int, c2.1 as int, c1.2 as int);
    lemma_vertex_line_count(c1.0 as int, c1.1 as int, c2.2 as int);
    let e = Seq::<char>::empty();
    assert(vertex_lines(e) == 0);
    lemma_append_line(e, l1, 1);
    assert(e + l1 =~= l1);
    lemma_append_line(l1, l2, 1);
    lemma_append_line(l1 + l2, l3, 1);
    lemma_append_line(l1 + l2 + l3, l4, 1);
    lemma_append_line(l1 + l2 + l3 + l4, l5, 1);
    lemma_append_line(l1 + l2 + l3 + l4 + l5, l6, 1);
    lemma_append_line(l1 + l2 + l3 + l4 + l5 + l6, l7, 1);
    lemma_append_line(l1 + l2 + l3 + l4 + l5 + l6 + l7, l8, 1);
}

proof fn lemma_box_faces_count(o: int)
    ensures
        ends_line(box_faces(o)),
        vertex_lines(box_faces(o)) == 0,
{
    let f1 = face_line(o + 1, o + 7, o + 5);
    let f2 = face_line(o + 1, o + 5, o + 8);
    let f3 = face_line(o + 1, o + 7, o + 3);
    let f4 = face_line(o + 1, o + 3, o + 2);
    let f5 = face_line(o + 2, o + 3, o + 4);
    let f6 = face_line(o + 2, o + 4, o + 6);
    let f7 = face_line(o + 1, o + 8, o + 6);
    let f8 = face_line_spaced(o + 1, o + 6, o + 2);
    let f9 = face_line(o + 7, o + 5, o + 4);
    let f10 = face_line(o + 7, o + 4, o + 3);
    let f11 = face_line(o + 8, o + 5, o + 4);
    let f12 = face_line(o + 8, o + 4, o + 6);
    lemma_face_line_count(o + 1, o + 7, o + 5);
    lemma_face_line_count(o + 1, o + 5, o + 8);
    lemma_face_line_count(o + 1, o + 7, o + 3);
    lemma_face_line_count(o + 1, o + 3, o + 2);
    lemma_face_line_count(o + 2, o + 3, o + 4);
    lemma_face_line_count(o + 2, o + 4, o + 6);
    lemma_face_line_count(o + 1, o + 8, o + 6);
    lemma_face_line_count(o + 1, o + 6, o + 2);
    lemma_face_line_count(o + 7, o + 5, o + 4);
    lemma_face_line_count(o + 7, o + 4, o + 3);
    lemma_face_line_count(o + 8, o + 5, o + 4);
    lemma_face_line_count(o + 8, o + 4, o + 6);
    let e = Seq::<char>::empty();
    assert(vertex_lines(e) == 0);
    lemma_append_line(e, f1, 0);
    assert(e + f1 =~= f1);
    lemma_append_line(f1, f2, 0);
    lemma_append_line(f1 + f2, f3, 0);
    lemma_append_line(f1 + f2 + f3, f4, 0);
    lemma_append_line(f1 + f2 + f3 + f4, f5, 0);
    lemma_append_line(f1 + f2 + f3 + f4 + f5, f6, 0);
    lemma_append_line(f1 + f2 + f3 + f4 + f5 + f6, f7, 0);
    lemma_append_line(f1 + f2 + f3 + f4 + f5 + f6 + f7, f8, 0);
    lemma_append_line(f1 + f2 + f3 + f4 + f5 + f6 + f7 + f8, f9, 0);
    lemma_append_line(f1 + f2 + f3 + f4 + f5 + f6 + f7 + f8 + f9, f10, 0);
    lemma_append_line(f1 + f2 + f3 + f4 + f5 + f6 + f7 + f8 + f9 + f10, f11, 0);
    lemma_append_line(f1 + f2 + f3 + f4 + f5 + f6 + f7 + f8 + f9 + f10 + f11, f12, 0);
}

/// Writing a box adds exactly its eight vertex lines: after `add_obj_box` on a text that ends a
/// line and holds `v` vertex lines, the text holds `v + 8`, the number `add_obj_box` returns,
/// and still ends a line; and the box's twelve faces name only the numbers `v + 1` to `v + 8`.
/// So passing the result on as the next `v` keeps every face naming its own box's vertices.
pub proof fn lemma_box_adds_eight_vertex_lines(a: Seq<char>, c1: Point3, c2: Point3, v: int)
    requires
        ends_line(a),
    ensures
        ends_line(a + box_text(c1, c2, v)),
        vertex_lines(a + box_text(c1, c2, v)) == vertex_lines(a) + 8,
        box_text(c1, c2, v) == box_vertices(c1, c2) + faces_text(face_triples(v)),
        forall|i: int|
            0 <= i < 12 ==> {
                let t = #[trigger] face_triples(v)[i];
                &&& v + 1 <= t.0 <= v + 8
                &&& v + 1 <= t.1 <= v + 8
                &&& v + 1 <= t.2 <= v + 8
            },
{
    lemma_box_faces_own_vertices(v);
    reveal(box_text);
    let bv = box_vertices(c1, c2);
    let bf = box_faces(v);
    lemma_box_vertices_count(c1, c2);
    lemma_box_faces_count(v);
    if bf.len() > 0 {
        lemma_append_line(bv, bf, 0);
    }
    assert(bf.len() > 0) by {
        lemma_face_line_count(v + 1, v + 7, v + 5);
    }
    lemma_append_line(a, bv + bf, 8);
}

proof fn lemma_line_without_vertex(l: Seq<char>)
    requires
        l.len() > 0,
        l[0] != 'v',
        forall|i: int| 0 <= i < l.len() - 1 ==> l[i] != '\n',
    ensures
        vertex_lines_from(l, true) == 0,
{
    if l.len() == 1 {
        assert(l.drop_first() =~= Seq::<char>::empty());
        assert(vertex_lines_from(l.drop_first(), l[0] == '\n') == 0);
    } else {
        assert forall|i: int| 0 <= i < l.drop_first().len() - 1 implies l.drop_first()[i] != '\n' by {
            assert(l.drop_first()[i] == l[i + 1]);
        }
        lemma_no_line_start(l.drop_first());
    }
}

proof fn lemma_header_count()
    ensures
        ends_line(obj_header()),
        vertex_lines(obj_header()) == 0,
{
    reveal_strlit("#OBJ file exported by grch-procedural-gen\n o grchDungeon\n");
    let h = obj_header();
    let l1 = h.take(42);
    let l2 = h.skip(42);
    assert(h == l1 + l2);
    assert(l1[41] == '\n');
    lemma_line_without_vertex(l1);
    lemma_line_without_vertex(l2);
    lemma_append_line(Seq::<char>::empty(), l1, 0);
    assert(Seq::<char>::empty() + l1 =~= l1);
    lemma_append_line(l1, l2, 0);
}

proof fn lemma_boxes_vertex_count(a: Seq<char>, bs: Seq<(Point3, Point3)>, v: int)
    requires
        ends_line(a),
    ensures
        ends_line(a + boxes_text(bs, v)),
        vertex_lines(a + boxes_text(bs, v)) == vertex_lines(a) + 8 * bs.len(),
    decreases bs.len(),
{
    if bs.len() == 0 {
        assert(a + boxes_text(bs, v) =~= a);
    } else {
        let init = bs.drop_last();
        lemma_boxes_vertex_count(a, init, v);
        let t = box_text(bs.last().0, bs.last().1, v + 8 * (bs.len() - 1));
        lemma_box_adds_eight_vertex_lines(a + boxes_text(init, v), bs.last().0, bs.last().1, v + 8 * (bs.len() - 1));
        vstd::seq_lib::lemma_concat_associative(a, boxes_text(init, v), t);
    }
}

/// An OBJ export numbers its vertices by count: the header followed by the boxes `bs`, numbered
/// from 1 on, holds exactly 8 vertex lines for each box, so the vertices that the `i`-th box
/// (from 0) writes are the ones numbered `8 * i + 1` to `8 * i + 8`, the numbers its faces name
/// (`lemma_box_faces_own_vertices`).
pub proof fn lemma_export_vertex_count(bs: Seq<(Point3, Point3)>)
    ensures
        vertex_lines(obj_header() + boxes_text(bs, 0)) == 8 * bs.len(),
        forall|i: int|
            0 <= i <= bs.len() ==> vertex_lines(obj_header() + boxes_text(#[trigger] bs.take(i), 0)) == 8 * i,
{
    lemma_header_count();
    lemma_boxes_vertex_count(obj_header(), bs, 0);
    assert forall|i: int| 0 <= i <= bs.len() implies vertex_lines(obj_header() + boxes_text(
        #[trigger] bs.take(i),
        0,
    )) == 8 * i by {
        lemma_boxes_vertex_count(obj_header(), bs.take(i), 0);
    }
}

} // verus!
