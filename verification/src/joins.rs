use vstd::prelude::*;
use crate::types::{Tile, BSPNode};
use crate::edges::{dfs_rooms, dfs_edges, first_closest, lemma_first_closest, spec_edge_rooms};

verus! {

/// A join between two rooms, given by their positions in a list of rooms.
pub type Join = (int, int);

/// The joins moved `n` positions on.
pub open spec fn shift(js: Seq<Join>, n: int) -> Seq<Join> {
    js.map_values(|j: Join| (j.0 + n, j.1 + n))
}

/// The positions, in `dfs_rooms(node, divisions)`, of the two rooms that each edge of
/// `dfs_edges(node, divisions)` joins: the left room, then the right one.
pub open spec fn dfs_joins(node: BSPNode<Tile>, divisions: u32) -> Seq<Join>
    decreases node,
{
    if node.value.split_count < divisions {
        match (node.left, node.right) {
            (Some(l), Some(r)) => {
                let a = dfs_rooms(*l, divisions);
                let b = dfs_rooms(*r, divisions);
                let p = l.value.rc;
                dfs_joins(*l, divisions) + shift(dfs_joins(*r, divisions), a.len() as int) + if a.len()
                    > 0 && b.len() > 0 {
                    seq![(first_closest(a, p), a.len() + first_closest(b, p))]
                } else {
                    seq![]
                }
            },
            _ => seq![],
        }
    } else {
        seq![]
    }
}

/// Rooms `x` and `y` are joined directly.
pub open spec fn joined(js: Seq<Join>, x: int, y: int) -> bool {
    exists|i: int| 0 <= i < js.len() && (#[trigger] js[i] == (x, y) || js[i] == (y, x))
}

/// `p` is a walk along joins.
pub open spec fn is_walk(js: Seq<Join>, p: Seq<int>) -> bool {
    &&& p.len() >= 1
    &&& forall|k: int| 0 <= k < p.len() - 1 ==> joined(js, #[trigger] p[k], p[k + 1])
}

/// Rooms `x` and `y` are linked by a walk along joins.
pub open spec fn linked(js: Seq<Join>, x: int, y: int) -> bool {
    exists|p: Seq<int>| #[trigger] is_walk(js, p) && p[0] == x && p.last() == y
}

proof fn lemma_linked_refl(js: Seq<Join>, x: int)
    ensures
        linked(js, x, x),
{
    assert(is_walk(js, seq![x]));
}

proof fn lemma_linked_edge(js: Seq<Join>, x: int, y: int)
    requires
        joined(js, x, y),
    ensures
        linked(js, x, y),
{
    let p = seq![x, y];
    assert(joined(js, p[0], p[1]));
    assert(is_walk(js, p));
}

proof fn lemma_linked_sym(js: Seq<Join>, x: int, y: int)
    requires
        linked(js, x, y),
    ensures
        linked(js, y, x),
{
    let p = choose|p: Seq<int>| #[trigger] is_walk(js, p) && p[0] == x && p.last() == y;
    let q = p.reverse();
    assert forall|k: int| 0 <= k < q.len() - 1 implies joined(js, #[trigger] q[k], q[k + 1]) by {
        let m = p.len() - 2 - k;
        assert(q[k] == p[m + 1] && q[k + 1] == p[m]);
        assert(joined(js, p[m], p[m + 1]));
        let i = choose|i: int| 0 <= i < js.len() && (#[trigger] js[i] == (p[m], p[m + 1]) || js[i] == (p[m + 1], p[m]));
    }
    assert(is_walk(js, q));
    assert(q[0] == p.last());
}

proof fn lemma_linked_trans(js: Seq<Join>, x: int, y: int, z: int)
    requires
        linked(js, x, y),
        linked(js, y, z),
    ensures
        linked(js, x, z),
{
    let p = choose|p: Seq<int>| #[trigger] is_walk(js, p) && p[0] == x && p.last() == y;
    let q = choose|q: Seq<int>| #[trigger] is_walk(js, q) && q[0] == y && q.last() == z;
    let w = p + q.skip(1);
    assert forall|k: int| 0 <= k < w.len() - 1 implies joined(js, #[trigger] w[k], w[k + 1]) by {
        if k < p.len() - 1 {
            assert(w[k] == p[k] && w[k + 1] == p[k + 1]);
        } else if k == p.len() - 1 {
            assert(w[k] == q[0] && w[k + 1] == q[1]);
        } else {
            let m = k - p.len() + 1;
            assert(w[k] == q[m] && w[k + 1] == q[m + 1]);
        }
    }
    assert(is_walk(js, w));
    if q.len() > 1 {
        assert(w.last() == q.last());
    } else {
        assert(w =~= p);
    }
}

proof fn lemma_linked_sub(js: Seq<Join>, big: Seq<Join>, x: int, y: int)
    requires
        linked(js, x, y),
        forall|i: int| 0 <= i < js.len() ==> big.contains(#[trigger] js[i]),
    ensures
        linked(big, x, y),
{
    let p = choose|p: Seq<int>| #[trigger] is_walk(js, p) && p[0] == x && p.last() == y;
    assert forall|k: int| 0 <= k < p.len() - 1 implies joined(big, #[trigger] p[k], p[k + 1]) by {
        assert(joined(js, p[k], p[k + 1]));
        let i = choose|i: int| 0 <= i < js.len() && (#[trigger] js[i] == (p[k], p[k + 1]) || js[i] == (p[k + 1], p[k]));
        assert(big.contains(js[i]));
        let j = choose|j: int| 0 <= j < big.len() && big[j] == js[i];
        assert(big[j] == js[i]);
    }
    assert(is_walk(big, p));
}

proof fn lemma_linked_shift(js: Seq<Join>, n: int, x: int, y: int)
    requires
        linked(js, x, y),
    ensures
        linked(shift(js, n), x + n, y + n),
{
    let p = choose|p: Seq<int>| #[trigger] is_walk(js, p) && p[0] == x && p.last() == y;
    let q = p.map_values(|v: int| v + n);
    let s = shift(js, n);
    assert forall|k: int| 0 <= k < q.len() - 1 implies joined(s, #[trigger] q[k], q[k + 1]) by {
        assert(joined(js, p[k], p[k + 1]));
        let i = choose|i: int| 0 <= i < js.len() && (#[trigger] js[i] == (p[k], p[k + 1]) || js[i] == (p[k + 1], p[k]));
        assert(s[i] == (js[i].0 + n, js[i].1 + n));
    }
    assert(is_walk(s, q));
}

/// Each edge of `edge_dfs` joins the two rooms of its join: there is one join for each edge, and
/// each edge is `edge_rooms` applied to the two rooms its join names.
pub proof fn lemma_dfs_joins_match_edges(node: BSPNode<Tile>, divisions: u32)
    ensures
        dfs_joins(node, divisions).len() == dfs_edges(node, divisions).len(),
        forall|i: int|
            0 <= i < dfs_joins(node, divisions).len() ==> {
                let j = #[trigger] dfs_joins(node, divisions)[i];
                let rooms = dfs_rooms(node, divisions);
                &&& 0 <= j.0 < rooms.len()
                &&& 0 <= j.1 < rooms.len()
                &&& dfs_edges(node, divisions)[i] == spec_edge_rooms(
                    rooms[j.0],
                    rooms[j.1],
                    dfs_edges(node, divisions)[i].3,
                )
            },
    decreases node,
{
    let js = dfs_joins(node, divisions);
    let rooms = dfs_rooms(node, divisions);
    if node.value.split_count < divisions {
        match (node.left, node.right) {
            (Some(l), Some(r)) => {
                lemma_dfs_joins_match_edges(*l, divisions);
                lemma_dfs_joins_match_edges(*r, divisions);
                let a = dfs_rooms(*l, divisions);
                let b = dfs_rooms(*r, divisions);
                let p = l.value.rc;
                let jl = dfs_joins(*l, divisions);
                let jr = shift(dfs_joins(*r, divisions), a.len() as int);
                let el = dfs_edges(*l, divisions);
                let er = dfs_edges(*r, divisions);
                let n = a.len() as int;
                let last: Seq<Join> = if a.len() > 0 && b.len() > 0 {
                    seq![(first_closest(a, p), a.len() + first_closest(b, p))]
                } else {
                    seq![]
                };
                assert(js == jl + jr + last);
                assert(rooms == a + b);
                if a.len() > 0 && b.len() > 0 {
                    lemma_first_closest(a, p);
                    lemma_first_closest(b, p);
                }
                assert forall|i: int| 0 <= i < js.len() implies {
                    let j = #[trigger] js[i];
                    &&& 0 <= j.0 < rooms.len()
                    &&& 0 <= j.1 < rooms.len()
                    &&& dfs_edges(node, divisions)[i] == spec_edge_rooms(
                        rooms[j.0],
                        rooms[j.1],
                        dfs_edges(node, divisions)[i].3,
                    )
                } by {
                    if i < jl.len() {
                        assert(js[i] == jl[i]);
                        assert(dfs_edges(node, divisions)[i] == el[i]);
                        assert(rooms[jl[i].0] == a[jl[i].0]);
                        assert(rooms[jl[i].1] == a[jl[i].1]);
                    } else if i < jl.len() + jr.len() {
                        let m = i - jl.len();
                        let jo = dfs_joins(*r, divisions)[m];
                        assert(js[i] == jr[m]);
                        assert(jr[m] == (jo.0 + n, jo.1 + n));
                        assert(dfs_edges(node, divisions)[i] == er[m]);
                        assert(rooms[jo.0 + n] == b[jo.0]);
                        assert(rooms[jo.1 + n] == b[jo.1]);
                    } else {
                        assert(js[i] == last[0]);
                        assert(rooms[first_closest(a, p)] == a[first_closest(a, p)]);
                        assert(rooms[n + first_closest(b, p)] == b[first_closest(b, p)]);
                    }
                }
            },
            _ => {},
        }
    }
}

/// The joins of `edge_dfs` link every room it finds to the first one. With one join for each
/// edge (`lemma_dfs_joins_match_edges`) and one edge fewer than rooms (`lemma_dfs_edge_count`),
/// the joins form a spanning tree of the rooms.
#[verifier::spinoff_prover]
pub proof fn lemma_dfs_joins_connect(node: BSPNode<Tile>, divisions: u32)
    ensures
        forall|v: int|
            0 <= v < dfs_rooms(node, divisions).len() ==> #[trigger] linked(dfs_joins(node, divisions), v, 0),
    decreases node,
{
    let js = dfs_joins(node, divisions);
    let rooms = dfs_rooms(node, divisions);
    if node.value.split_count < divisions {
        match (node.left, node.right) {
            (Some(l), Some(r)) => {
                lemma_dfs_joins_connect(*l, divisions);
                lemma_dfs_joins_connect(*r, divisions);
                let a = dfs_rooms(*l, divisions);
                let b = dfs_rooms(*r, divisions);
                let p = l.value.rc;
                let jl = dfs_joins(*l, divisions);
                let jr0 = dfs_joins(*r, divisions);
                let n = a.len() as int;
                let jr = shift(jr0, n);
                let last: Seq<Join> = if a.len() > 0 && b.len() > 0 {
                    seq![(first_closest(a, p), a.len() + first_closest(b, p))]
                } else {
                    seq![]
                };
                assert(js == jl + jr + last);
                assert(rooms.len() == a.len() + b.len());
                assert forall|i: int| 0 <= i < jl.len() implies js.contains(#[trigger] jl[i]) by {
                    assert(js[i] == jl[i]);
                }
                assert forall|i: int| 0 <= i < jr.len() implies js.contains(#[trigger] jr[i]) by {
                    assert(js[jl.len() + i] == jr[i]);
                }
                assert forall|v: int| 0 <= v < rooms.len() implies #[trigger] linked(js, v, 0) by {
                    if v < n {
                        assert(linked(jl, v, 0));
                        lemma_linked_sub(jl, js, v, 0);
                    } else {
                        let w = v - n;
                        assert(linked(jr0, w, 0));
                        lemma_linked_shift(jr0, n, w, 0);
                        lemma_linked_sub(jr, js, v, n);
                        if n > 0 {
                            lemma_first_closest(a, p);
                            lemma_first_closest(b, p);
                            let cl = first_closest(a, p);
                            let cr = first_closest(b, p);
                            assert(linked(jr0, cr, 0));
                            lemma_linked_sym(jr0, cr, 0);
                            lemma_linked_shift(jr0, n, 0, cr);
                            lemma_linked_sub(jr, js, n, n + cr);
                            assert(js[js.len() - 1] == (cl, n + cr));
                            assert(joined(js, n + cr, cl));
                            lemma_linked_edge(js, n + cr, cl);
                            assert(linked(jl, cl, 0));
                            lemma_linked_sub(jl, js, cl, 0);
                            lemma_linked_trans(js, v, n, n + cr);
                            lemma_linked_trans(js, v, n + cr, cl);
                            lemma_linked_trans(js, v, cl, 0);
                        }
                    }
                }
            },
            _ => {},
        }
    } else {
        lemma_linked_refl(js, 0);
    }
}

} // verus!
