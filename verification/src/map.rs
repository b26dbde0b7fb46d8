use vstd::prelude::*;
use crate::types::Tile;
use crate::routing::TileBounds;

verus! {

broadcast use vstd::seq_lib::group_to_multiset_ensures;

/// `s` with tile `x` put after every tile whose high corner along axis `a` is at most that of
/// `x`, where `s` is sorted by that coordinate.
pub open spec fn insert_by_high(s: Seq<Tile>, x: Tile, a: int) -> Seq<Tile>
    decreases s.len(),
{
    if s.len() == 0 {
        seq![x]
    } else if s.last().rc.at(a) <= x.rc.at(a) {
        s.push(x)
    } else {
        insert_by_high(s.drop_last(), x, a).push(s.last())
    }
}

/// The tiles sorted by the coordinate of their high corner along axis `a`; tiles with equal
/// coordinates keep their order.
pub open spec fn sort_by_high(s: Seq<Tile>, a: int) -> Seq<Tile>
    decreases s.len(),
{
    if s.len() == 0 {
        seq![]
    } else {
        insert_by_high(sort_by_high(s.drop_last(), a), s.last(), a)
    }
}

/// Whether the tiles are in order of the coordinate of their high corner along axis `a`.
pub open spec fn sorted_by_high(s: Seq<Tile>, a: int) -> bool {
    forall|i: int, j: int| 0 <= i <= j < s.len() ==> (#[trigger] s[i]).rc.at(a) <= (#[trigger] s[j]).rc.at(a)
}

proof fn lemma_insert_by_high_at(s: Seq<Tile>, x: Tile, a: int, j: int)
    requires
        0 <= j <= s.len(),
        j == 0 || s[j - 1].rc.at(a) <= x.rc.at(a),
        forall|k: int| j <= k < s.len() ==> (#[trigger] s[k]).rc.at(a) > x.rc.at(a),
    ensures
        insert_by_high(s, x, a) == s.insert(j, x),
    decreases s.len(),
{
    if s.len() == 0 {
        assert(s.insert(j, x) =~= seq![x]);
    } else if s.last().rc.at(a) <= x.rc.at(a) {
        assert(j == s.len());
        assert(s.insert(j, x) =~= s.push(x));
    } else {
        lemma_insert_by_high_at(s.drop_last(), x, a, j);
        assert(s.drop_last().insert(j, x).push(s.last()) =~= s.insert(j, x));
    }
}

proof fn lemma_insert_by_high(s: Seq<Tile>, x: Tile, a: int)
    requires
        sorted_by_high(s, a),
    ensures
        sorted_by_high(insert_by_high(s, x, a), a),
        insert_by_high(s, x, a).to_multiset() == s.to_multiset().insert(x),
    decreases s.len(),
{
    if s.len() == 0 {
        assert(s.push(x) =~= seq![x]);
    } else if s.last().rc.at(a) <= x.rc.at(a) {
    } else {
        let init = s.drop_last();
        assert(sorted_by_high(init, a));
        lemma_insert_by_high(init, x, a);
        let r = insert_by_high(init, x, a);
        let t = r.push(s.last());
        assert forall|i: int, j: int| 0 <= i <= j < t.len() implies (#[trigger] t[i]).rc.at(a) <= (
        #[trigger] t[j]).rc.at(a) by {
            if j == t.len() - 1 && i < j {
                assert(r.to_multiset().count(r[i]) > 0);
                assert(r.to_multiset() == init.to_multiset().insert(x));
                if r[i] != x {
                    assert(init.to_multiset().count(r[i]) > 0);
                    assert(init.contains(r[i]));
                    let k = choose|k: int| 0 <= k < init.len() && init[k] == r[i];
                    assert(s[k] == init[k]);
                    assert(s[k].rc.at(a) <= s[s.len() - 1].rc.at(a));
                }
            }
        }
        assert(s == init.push(s.last()));
        assert(t.to_multiset() == r.to_multiset().insert(s.last()));
        assert(s.to_multiset() == init.to_multiset().insert(s.last()));
        assert(t.to_multiset() =~= s.to_multiset().insert(x));
    }
}

/// Sorting tiles by the coordinate of their high corner along an axis puts them in that order
/// and keeps every tile, as often as it occurs.
pub proof fn lemma_sort_by_high(s: Seq<Tile>, a: int)
    ensures
        sorted_by_high(sort_by_high(s, a), a),
        sort_by_high(s, a).to_multiset() == s.to_multiset(),
    decreases s.len(),
{
    if s.len() > 0 {
        lemma_sort_by_high(s.drop_last(), a);
        lemma_insert_by_high(sort_by_high(s.drop_last(), a), s.last(), a);
        assert(s == s.drop_last().push(s.last()));
    }
}

/// Sorts the tiles by the coordinate of their high corner along axis `a`, keeping the order of
/// tiles with equal coordinates.
pub fn sort_tiles_by_high(tvec: &mut Vec<Tile>, a: usize)
    requires
        a < 3,
    ensures
        final(tvec)@ == sort_by_high(old(tvec)@, a as int),
{
    let mut res: Vec<Tile> = Vec::new();
    let mut i: usize = 0;
    while i < tvec.len()
        invariant
            a < 3,
            0 <= i <= tvec@.len(),
            tvec@ == old(tvec)@,
            res@ == sort_by_high(tvec@.take(i as int), a as int),
        decreases tvec@.len() - i,
    {
        let x = tvec[i];
        let key = x.rc.get(a);
        let mut j: usize = res.len();
        while j > 0 && res[j - 1].rc.get(a) > key
            invariant
                a < 3,
                key == x.rc.at(a as int),
                0 <= j <= res@.len(),
                forall|k: int| j <= k < res@.len() ==> (#[trigger] res@[k]).rc.at(a as int) > key,
            decreases j,
        {
            j = j - 1;
        }
        proof {
            lemma_insert_by_high_at(res@, x, a as int, j as int);
            assert(tvec@.take(i + 1).drop_last() =~= tvec@.take(i as int));
            assert(tvec@.take(i + 1).last() == x);
        }
        res.insert(j, x);
        i = i + 1;
    }
    assert(tvec@.take(tvec@.len() as int) =~= tvec@);
    *tvec = res;
}

/// The index and corners of each tile, in order.
pub open spec fn bounds_of(s: Seq<Tile>) -> Seq<TileBounds> {
    s.map_values(|t: Tile| (t.index, t.lc, t.rc))
}

/// The index and corners of each tile, in order.
pub fn tile_bounds(tvec: &Vec<Tile>) -> (r: Vec<TileBounds>)
    ensures
        r@ == bounds_of(tvec@),
{
    let mut r: Vec<TileBounds> = Vec::new();
    let mut i: usize = 0;
    while i < tvec.len()
        invariant
            0 <= i <= tvec@.len(),
            r@ == bounds_of(tvec@.take(i as int)),
        decreases tvec@.len() - i,
    {
        let t = tvec[i];
        r.push((t.index, t.lc, t.rc));
        assert(bounds_of(tvec@.take(i + 1)) =~= bounds_of(tvec@.take(i as int)).push((t.index, t.lc, t.rc)));
        i = i + 1;
    }
    assert(tvec@.take(tvec@.len() as int) =~= tvec@);
    r
}

/// The tile map: the tiles sorted by the X of their high corner, then that list sorted by Y,
/// then that one by Z; each list given as the index and corners of its tiles.
pub open spec fn spec_tile_map(tiles: Seq<Tile>) -> Seq<Seq<TileBounds>> {
    let s0 = sort_by_high(tiles, 0);
    let s1 = sort_by_high(s0, 1);
    let s2 = sort_by_high(s1, 2);
    seq![bounds_of(s0), bounds_of(s1), bounds_of(s2)]
}

/// Builds the tile map (`spec_tile_map`); `tvec` is left sorted as the last list.
pub fn build_map(tvec: &mut Vec<Tile>) -> (map: Vec<Vec<TileBounds>>)
    ensures
        map@.len() == 3,
        forall|i: int| 0 <= i < 3 ==> (#[trigger] map@[i])@ == spec_tile_map(old(tvec)@)[i],
        final(tvec)@ == sort_by_high(sort_by_high(sort_by_high(old(tvec)@, 0), 1), 2),
{
    let mut map = Vec::<Vec<TileBounds>>::new();
    sort_tiles_by_high(tvec, 0);
    map.push(tile_bounds(tvec));
    sort_tiles_by_high(tvec, 1);
    map.push(tile_bounds(tvec));
    sort_tiles_by_high(tvec, 2);
    map.push(tile_bounds(tvec));
    map
}

} // verus!
