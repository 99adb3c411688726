//! Scoring the board with all stones taken as alive.

use crate::board::{
    adj, area, area_of, cell, foe, group_points, idx, in_board, inb, index_of, lemma_area, lemma_nb,
    lemma_pt, nb, neighbour, point_of, pt, Pos, Position, Pt, BLACK, CELLS, EMPTY, MAX,
    RULE_CHINESE, WHITE,
};
use crate::chain::{
    connected, lemma_connected_cell, lemma_connected_refl, lemma_connected_sym, lemma_same_block,
    Filler,
};
use crate::count::{
    below, count, lemma_below_finite, lemma_count_disjoint, lemma_count_step, lemma_count_zero,
};
use crate::game::Game;
use vstd::prelude::*;

verus! {

broadcast use group_points;

/// A stone of colour `c` stands next to the block of `q`.
pub open spec fn touches(s: int, b: Seq<u8>, q: Pt, c: u8) -> bool {
    exists|r: Pt, e: Pt|
        #[trigger] connected(s, b, q, r) && #[trigger] adj(r, e) && inb(s, e) && cell(s, b, e) == c
}

/// The empty point with index `i` lies in a region that `c` alone borders.
pub open spec fn owned(s: int, b: Seq<u8>, c: u8) -> spec_fn(int) -> bool {
    |i: int|
        b[i] == EMPTY && touches(s, b, pt(s, i), c) && !touches(s, b, pt(s, i), foe(c))
}

/// A stone of colour `c` stands on the point with index `i`.
pub open spec fn held(b: Seq<u8>, c: u8) -> spec_fn(int) -> bool {
    |i: int| b[i] == c
}

/// Number of empty points in regions that `c` alone borders.
pub open spec fn territory_of(s: int, b: Seq<u8>, c: u8) -> int {
    count(area(s), owned(s, b, c))
}

/// Number of stones of colour `c`.
pub open spec fn stones_of(s: int, b: Seq<u8>, c: u8) -> int {
    count(area(s), held(b, c))
}

/// Points of Black and of White, with the whole points of White's compensation.
/// Under Chinese rules stones and territory count; under the others territory and
/// the stones that the side has captured.
pub open spec fn scores(p: Pos, rule: u8) -> (int, int) {
    let tb = territory_of(p.size, p.board, BLACK);
    let tw = territory_of(p.size, p.board, WHITE);
    if rule == RULE_CHINESE {
        (
            stones_of(p.size, p.board, BLACK) + tb,
            stones_of(p.size, p.board, WHITE) + tw + 7,
        )
    } else {
        (tb + p.captured_by_black, tw + p.captured_by_white + 6)
    }
}

/// Points of one region border the same colours.
proof fn lemma_touches_same(s: int, b: Seq<u8>, q: Pt, r: Pt, c: u8)
    requires
        connected(s, b, q, r),
    ensures
        touches(s, b, q, c) <==> touches(s, b, r, c),
{
    lemma_same_block(s, b, q, r);
    if touches(s, b, q, c) {
        let (m, e) = choose|m: Pt, e: Pt|
            #[trigger] connected(s, b, q, m) && #[trigger] adj(m, e) && inb(s, e) && cell(s, b, e)
                == c;
        assert(connected(s, b, r, m));
    }
    if touches(s, b, r, c) {
        let (m, e) = choose|m: Pt, e: Pt|
            #[trigger] connected(s, b, r, m) && #[trigger] adj(m, e) && inb(s, e) && cell(s, b, e)
                == c;
        assert(connected(s, b, q, m));
    }
}

/// Among the first `n` points of a list one has a neighbour of colour `c`.
pub open spec fn list_touches(s: int, b: Seq<u8>, v: Seq<Pt>, n: int, c: u8) -> bool {
    exists|k: int, d: int|
        0 <= k < n && 0 <= d < 4 && inb(s, #[trigger] nb(v[k], d)) && cell(s, b, nb(v[k], d)) == c
}

proof fn lemma_list_touches(s: int, b: Seq<u8>, q: Pt, v: Seq<Pt>, c: u8)
    requires
        s <= MAX,
        forall|r: Pt| v.contains(r) <==> connected(s, b, q, r),
    ensures
        list_touches(s, b, v, v.len() as int, c) <==> touches(s, b, q, c),
{
    if list_touches(s, b, v, v.len() as int, c) {
        let (k, d) = choose|k: int, d: int|
            0 <= k < v.len() && 0 <= d < 4 && inb(s, #[trigger] nb(v[k], d)) && cell(
                s,
                b,
                nb(v[k], d),
            ) == c;
        assert(v.contains(v[k]));
        assert(connected(s, b, q, v[k]));
        lemma_connected_cell(s, b, q, v[k]);
        lemma_nb(s, v[k], nb(v[k], d));
        assert(adj(v[k], nb(v[k], d)));
    }
    if touches(s, b, q, c) {
        let (m, e) = choose|m: Pt, e: Pt|
            #[trigger] connected(s, b, q, m) && #[trigger] adj(m, e) && inb(s, e) && cell(s, b, e)
                == c;
        lemma_connected_cell(s, b, q, m);
        assert(v.contains(m));
        let k = choose|k: int| 0 <= k < v.len() && v[k] == m;
        lemma_nb(s, m, e);
        assert(e == nb(v[k], 0) || e == nb(v[k], 1) || e == nb(v[k], 2) || e == nb(v[k], 3));
    }
}

/// Which colours stand next to the points of a region.
fn border_colours(pos: &Position, region: &Vec<(i32, i32)>) -> (r: (bool, bool))
    requires
        pos.wf(),
        forall|k: int| 0 <= k < region@.len() ==> inb(pos@.size, #[trigger] region@[k]),
    ensures
        r.0 == list_touches(pos@.size, pos@.board, region@, region@.len() as int, BLACK),
        r.1 == list_touches(pos@.size, pos@.board, region@, region@.len() as int, WHITE),
{
    let ghost s = pos@.size;
    let ghost b = pos@.board;
    let ghost v = region@;
    let mut touch_b: bool = false;
    let mut touch_w: bool = false;
    let mut k: usize = 0;
    while k < region.len()
        invariant
            pos.wf(),
            s == pos@.size,
            b == pos@.board,
            v == region@,
            forall|j: int| 0 <= j < v.len() ==> inb(s, #[trigger] v[j]),
            0 <= k <= v.len(),
            touch_b == list_touches(s, b, v, k as int, BLACK),
            touch_w == list_touches(s, b, v, k as int, WHITE),
        decreases v.len() - k,
    {
        let (gx, gy) = region[k];
        let ghost had_b = touch_b;
        let ghost had_w = touch_w;
        let mut d: usize = 0;
        while d < 4
            invariant
                pos.wf(),
                s == pos@.size,
                b == pos@.board,
                v == region@,
                0 <= k < v.len(),
                (gx, gy) == v[k as int],
                inb(s, (gx, gy)),
                0 <= d <= 4,
                touch_b == (had_b || exists|e: int|
                    0 <= e < d && inb(s, #[trigger] nb(v[k as int], e)) && cell(
                        s,
                        b,
                        nb(v[k as int], e),
                    ) == BLACK),
                touch_w == (had_w || exists|e: int|
                    0 <= e < d && inb(s, #[trigger] nb(v[k as int], e)) && cell(
                        s,
                        b,
                        nb(v[k as int], e),
                    ) == WHITE),
            decreases 4 - d,
        {
            let (nx, ny) = neighbour(gx, gy, d);
            if in_board(pos, nx, ny) {
                let c: u8 = pos.at(nx, ny);
                if c == BLACK {
                    touch_b = true;
                } else if c == WHITE {
                    touch_w = true;
                }
            }
            proof {
                assert((nx, ny) == nb(v[k as int], d as int));
            }
            d = d + 1;
        }
        k = k + 1;
    }
    (touch_b, touch_w)
}

/// Indices of the marked points that a side owns.
pub open spec fn marked_owned(s: int, b: Seq<u8>, c: u8, v: Seq<bool>) -> spec_fn(int) -> bool {
    |i: int| v[i] && owned(s, b, c)(i)
}

/// Marking a region adds its points to those counted if its side owns it.
proof fn lemma_mark_region(
    s: int,
    b: Seq<u8>,
    c: u8,
    v: Seq<bool>,
    w: Seq<bool>,
    list: Seq<Pt>,
    q: Pt,
)
    requires
        0 < s <= MAX,
        inb(s, q),
        b.len() == CELLS,
        cell(s, b, q) == EMPTY,
        list.no_duplicates(),
        forall|r: Pt| list.contains(r) <==> connected(s, b, q, r),
        forall|i: int|
            0 <= i < area(s) ==> (#[trigger] w[i] <==> v[i] || connected(s, b, q, pt(s, i))),
        forall|i: int| 0 <= i < area(s) && #[trigger] v[i] ==> !connected(s, b, q, pt(s, i)),
    ensures
        count(area(s), marked_owned(s, b, c, w)) == count(area(s), marked_owned(s, b, c, v)) + (
        if touches(s, b, q, c) && !touches(s, b, q, foe(c)) {
            list.len() as int
        } else {
            0
        }),
{
    let own = touches(s, b, q, c) && !touches(s, b, q, foe(c));
    let f = marked_owned(s, b, c, v);
    let g = |i: int| own && connected(s, b, q, pt(s, i));
    let h = marked_owned(s, b, c, w);
    lemma_area(s);
    assert forall|i: int| 0 <= i < area(s) implies !(#[trigger] f(i) && g(i)) by {
        assert(v[i] ==> !connected(s, b, q, pt(s, i)));
    }
    assert forall|i: int| 0 <= i < area(s) implies (#[trigger] h(i) <==> f(i) || g(i)) by {
        assert(w[i] <==> v[i] || connected(s, b, q, pt(s, i)));
        if connected(s, b, q, pt(s, i)) {
            lemma_connected_cell(s, b, q, pt(s, i));
            lemma_touches_same(s, b, q, pt(s, i), c);
            lemma_touches_same(s, b, q, pt(s, i), foe(c));
            assert(idx(s, pt(s, i)) == i);
        }
    }
    lemma_count_disjoint(area(s), f, g, h);
    if own {
        let ids = list.map_values(|r: Pt| idx(s, r));
        assert forall|j: int| 0 <= j < list.len() implies inb(s, #[trigger] list[j]) by {
            assert(list.contains(list[j]));
            lemma_connected_cell(s, b, q, list[j]);
        }
        assert(ids.no_duplicates()) by {
            assert forall|i: int, j: int|
                0 <= i < ids.len() && 0 <= j < ids.len() && i != j implies ids[i] != ids[j] by {
                assert(pt(s, idx(s, list[i])) == list[i]);
                assert(pt(s, idx(s, list[j])) == list[j]);
            }
        }
        ids.unique_seq_to_set();
        assert(ids.to_set() =~= below(area(s), g)) by {
            assert forall|i: int| ids.to_set().contains(i) <==> below(area(s), g).contains(i) by {
                if ids.to_set().contains(i) {
                    let j = choose|j: int| 0 <= j < ids.len() && ids[j] == i;
                    assert(inb(s, list[j]));
                    assert(list.contains(list[j]));
                    assert(pt(s, i) == list[j]);
                }
                if below(area(s), g).contains(i) {
                    assert(list.contains(pt(s, i)));
                    let j = choose|j: int| 0 <= j < list.len() && list[j] == pt(s, i);
                    assert(ids[j] == i);
                }
            }
        }
    } else {
        assert(below(area(s), g) =~= Set::<int>::empty());
    }
}

/// Counts the territory of Black and of White.
pub fn territory(pos: &Position) -> (r: (i32, i32))
    requires
        pos.wf(),
    ensures
        r.0 == territory_of(pos@.size, pos@.board, BLACK),
        r.1 == territory_of(pos@.size, pos@.board, WHITE),
        0 <= r.0 <= CELLS,
        0 <= r.1 <= CELLS,
{
    let ghost s = pos@.size;
    let ghost b = pos@.board;
    let n: usize = area_of(pos.size);
    let mut visited: Vec<bool> = vec![false; CELLS];
    let mut tb: i32 = 0;
    let mut tw: i32 = 0;
    let mut i: usize = 0;
    proof {
        assert(below(area(s), marked_owned(s, b, BLACK, visited@)) =~= Set::<int>::empty());
        assert(below(area(s), marked_owned(s, b, WHITE, visited@)) =~= Set::<int>::empty());
    }
    while i < n
        invariant
            pos.wf(),
            s == pos@.size,
            b == pos@.board,
            n == area(s),
            n <= CELLS,
            0 <= i <= n,
            visited@.len() == CELLS,
            forall|j: int| 0 <= j < area(s) && #[trigger] visited@[j] ==> b[j] == EMPTY,
            forall|j: int, k: int|
                0 <= j < area(s) && 0 <= k < area(s) && #[trigger] visited@[j] && connected(
                    s,
                    b,
                    pt(s, j),
                    pt(s, k),
                ) ==> #[trigger] visited@[k],
            forall|j: int| 0 <= j < i && b[j] == EMPTY ==> #[trigger] visited@[j],
            tb == count(area(s), marked_owned(s, b, BLACK, visited@)),
            tw == count(area(s), marked_owned(s, b, WHITE, visited@)),
            0 <= tb <= CELLS,
            0 <= tw <= CELLS,
        decreases n - i,
    {
        let (x, y) = point_of(pos.size, i);
        let ghost q: Pt = (x, y);
        proof {
            lemma_pt(s, i as int);
        }
        if !visited[i] && pos.at(x, y) == EMPTY {
            let mut region: Vec<(i32, i32)> = Vec::new();
            let mut filler: Filler = Filler::new(x, y);
            let (_lib, cnt) = filler.run(pos, &mut region);
            let ghost list = region@;
            let ghost v = visited@;
            proof {
                assert forall|k: int| 0 <= k < list.len() implies inb(s, #[trigger] list[k]) by {
                    assert(list.contains(list[k]));
                    lemma_connected_cell(s, b, q, list[k]);
                }
            }
            let mut k: usize = 0;
            while k < cnt
                invariant
                    pos.wf(),
                    s == pos@.size,
                    list == region@,
                    cnt == list.len(),
                    forall|j: int| 0 <= j < list.len() ==> inb(s, #[trigger] list[j]),
                    0 <= k <= cnt,
                    visited@.len() == CELLS,
                    v.len() == CELLS,
                    forall|j: int|
                        0 <= j < area(s) ==> (#[trigger] visited@[j] <==> v[j] || list.take(
                            k as int,
                        ).contains(pt(s, j))),
                decreases cnt - k,
            {
                let (gx, gy) = region[k];
                let at: usize = index_of(pos.size, gx, gy);
                let ghost before = visited@;
                visited.set(at, true);
                proof {
                    let t0 = list.take(k as int);
                    let t1 = list.take(k + 1);
                    assert(t1 =~= t0.push(list[k as int]));
                    assert forall|j: int| 0 <= j < area(s) implies (#[trigger] visited@[j]
                        <==> v[j] || t1.contains(pt(s, j))) by {
                        assert(before[j] <==> v[j] || t0.contains(pt(s, j)));
                        if t0.contains(pt(s, j)) {
                            let m = choose|m: int| 0 <= m < t0.len() && t0[m] == pt(s, j);
                            assert(t1[m] == pt(s, j));
                        }
                        if j == at {
                            assert(t1[k as int] == pt(s, j));
                        } else if t1.contains(pt(s, j)) {
                            let m = choose|m: int| 0 <= m < t1.len() && t1[m] == pt(s, j);
                            assert(idx(s, pt(s, j)) == j);
                            assert(m < k);
                            assert(t0[m] == pt(s, j));
                        }
                    }
                }
                k = k + 1;
            }
            let (touch_b, touch_w) = border_colours(pos, &region);
            proof {
                assert(list.take(cnt as int) =~= list);
                let w = visited@;
                assert forall|j: int| 0 <= j < area(s) implies (#[trigger] w[j] <==> v[j]
                    || connected(s, b, q, pt(s, j))) by {
                    assert(list.contains(pt(s, j)) <==> connected(s, b, q, pt(s, j)));
                }
                assert forall|j: int| 0 <= j < area(s) && #[trigger] v[j] implies !connected(
                    s,
                    b,
                    q,
                    pt(s, j),
                ) by {
                    if connected(s, b, q, pt(s, j)) {
                        lemma_connected_sym(s, b, q, pt(s, j));
                        assert(v[i as int]);
                    }
                }
                lemma_mark_region(s, b, BLACK, v, w, list, q);
                lemma_mark_region(s, b, WHITE, v, w, list, q);
                lemma_list_touches(s, b, q, list, BLACK);
                lemma_list_touches(s, b, q, list, WHITE);
                lemma_below_finite(area(s), marked_owned(s, b, BLACK, w));
                lemma_below_finite(area(s), marked_owned(s, b, WHITE, w));
                assert forall|j: int| 0 <= j < area(s) && #[trigger] w[j] implies b[j]
                    == EMPTY by {
                    if !v[j] {
                        lemma_connected_cell(s, b, q, pt(s, j));
                        assert(idx(s, pt(s, j)) == j);
                    }
                }
                assert forall|j: int, k: int|
                    0 <= j < area(s) && 0 <= k < area(s) && #[trigger] w[j] && connected(
                        s,
                        b,
                        pt(s, j),
                        pt(s, k),
                    ) implies #[trigger] w[k] by {
                    if !v[j] {
                        lemma_same_block(s, b, q, pt(s, j));
                        assert(connected(s, b, q, pt(s, k)));
                    } else {
                        assert(v[k]);
                    }
                }
                lemma_connected_refl(s, b, q);
                assert(w[i as int]);
            }
            if touch_b && !touch_w {
                tb = tb + cnt as i32;
            } else if touch_w && !touch_b {
                tw = tw + cnt as i32;
            }
        }
        i = i + 1;
    }
    proof {
        assert(below(area(s), marked_owned(s, b, BLACK, visited@)) =~= below(
            area(s),
            owned(s, b, BLACK),
        ));
        assert(below(area(s), marked_owned(s, b, WHITE, visited@)) =~= below(
            area(s),
            owned(s, b, WHITE),
        ));
    }
    (tb, tw)
}

/// Counts the stones of Black and of White.
fn count_stones(pos: &Position) -> (r: (i32, i32))
    requires
        pos.wf(),
    ensures
        r.0 == stones_of(pos@.size, pos@.board, BLACK),
        r.1 == stones_of(pos@.size, pos@.board, WHITE),
        0 <= r.0 <= CELLS,
        0 <= r.1 <= CELLS,
{
    let ghost b = pos@.board;
    let n: usize = area_of(pos.size);
    let mut sb: i32 = 0;
    let mut sw: i32 = 0;
    let mut i: usize = 0;
    proof {
        lemma_count_zero(held(b, BLACK));
        lemma_count_zero(held(b, WHITE));
    }
    while i < n
        invariant
            pos.wf(),
            b == pos@.board,
            n == area(pos@.size),
            n <= CELLS,
            0 <= i <= n,
            sb == count(i as int, held(b, BLACK)),
            sw == count(i as int, held(b, WHITE)),
            0 <= sb <= i,
            0 <= sw <= i,
        decreases n - i,
    {
        proof {
            lemma_count_step(i as int, held(b, BLACK));
            lemma_count_step(i as int, held(b, WHITE));
        }
        let c: u8 = pos.board[i];
        if c == BLACK {
            sb = sb + 1;
        } else if c == WHITE {
            sw = sw + 1;
        }
        i = i + 1;
    }
    (sb, sw)
}

/// The capture counters leave room for the other parts of a score.
pub open spec fn score_fits(p: Pos) -> bool {
    &&& p.captured_by_black <= i32::MAX - 2 * CELLS
    &&& p.captured_by_white <= i32::MAX - 2 * CELLS
}

/// Points of Black and of White under the given rule.
pub fn score_both(pos: &Position, rule: u8) -> (r: (i32, i32))
    requires
        pos.wf(),
        rule != RULE_CHINESE ==> score_fits(pos@),
    ensures
        (r.0 as int, r.1 as int) == scores(pos@, rule),
{
    let (tb, tw) = territory(pos);
    if rule == RULE_CHINESE {
        let (sb, sw) = count_stones(pos);
        (sb + tb, sw + tw + 7)
    } else {
        (tb + pos.captured_by_black, tw + pos.captured_by_white + 6)
    }
}

/// Points of Black with all stones taken as alive.
pub fn ugo_score_black(g: &Game) -> (r: i32)
    requires
        g.wf(),
        g@.rule != RULE_CHINESE ==> score_fits(g@.pos),
    ensures
        r == scores(g@.pos, g@.rule).0,
{
    score_both(&g.pos, g.rule).0
}

/// Points of White with all stones taken as alive, with the whole points of the
/// compensation.
pub fn ugo_score_white(g: &Game) -> (r: i32)
    requires
        g.wf(),
        g@.rule != RULE_CHINESE ==> score_fits(g@.pos),
    ensures
        r == scores(g@.pos, g@.rule).1,
{
    score_both(&g.pos, g.rule).1
}

/// No point counts twice: under Chinese rules the points of both sides are at most
/// the points of the board and the compensation.
pub proof fn law_area_score_bounded(p: Pos)
    requires
        0 < p.size <= MAX,
    ensures
        scores(p, RULE_CHINESE).0 + scores(p, RULE_CHINESE).1 <= area(p.size) + 7,
{
    let s = p.size;
    let b = p.board;
    let n = area(s);
    let f1 = held(b, BLACK);
    let f2 = held(b, WHITE);
    let f3 = owned(s, b, BLACK);
    let f4 = owned(s, b, WHITE);
    let g12 = |i: int| f1(i) || f2(i);
    let g34 = |i: int| f3(i) || f4(i);
    let g = |i: int| g12(i) || g34(i);
    lemma_area(s);
    lemma_count_disjoint(n, f1, f2, g12);
    lemma_count_disjoint(n, f3, f4, g34);
    lemma_count_disjoint(n, g12, g34, g);
    lemma_below_finite(n, g);
}

} // verus!
