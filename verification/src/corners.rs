//! What the guide for the opening points out in the corners.

use crate::board::{area, foe, group_points, idx, inb, lemma_area, pos_ok, pt, Pos, Pt, CELLS};
use crate::opening::{
    all_offers, corner_offers, corner_stones, empty_corner_offers, entered, gap, knights, laid_out,
    law_corner_view_on_board, nearest_foe, opening_guide, pincer, seen_from, stone_offers,
    stones_offers, CornerStone, Offer,
};
use vstd::prelude::*;

verus! {

broadcast use group_points;

/// The point of the board that is `a` columns and `b` rows away from a corner: 0 for the one
/// at the origin, 1 for the one at the other end of its row, 2 for the one at the other end
/// of its column, 3 for the one across.
pub open spec fn from_corner(s: int, corner: int, a: int, b: int) -> (int, int) {
    (
        if corner == 1 || corner == 3 {
            s - 1 - a
        } else {
            a
        },
        if corner == 2 || corner == 3 {
            s - 1 - b
        } else {
            b
        },
    )
}

/// Each of the four corners sees the board from its own side.
pub proof fn law_corner_views(s: int, corner: u8, a: int, b: int)
    requires
        corner <= 3,
    ensures
        seen_from(corner, a, b, s) == from_corner(s, corner as int, a, b),
{
    assert(0u8 & 1 == 0 && 0u8 & 2 == 0 && 1u8 & 1 != 0 && 1u8 & 2 == 0 && 2u8 & 1 == 0 && 2u8 & 2
        != 0 && 3u8 & 1 != 0 && 3u8 & 2 != 0) by (bit_vector);
    assert(corner == 0 || corner == 1 || corner == 2 || corner == 3);
}

/// An offer points at the empty point with index `i`: it is on the third line or higher as
/// its corner sees it, and lands there.
pub open spec fn lands(p: Pos, o: Offer, i: int) -> bool {
    let v = seen_from(o.corner, o.a, o.b, p.size);
    &&& 2 <= o.a < p.size && 2 <= o.b < p.size
    &&& v == (pt(p.size, i).0 as int, pt(p.size, i).1 as int)
    &&& p.board[i] == 0
}

proof fn lemma_entered(p: Pos, g: Seq<i32>, o: Offer, i: int)
    requires
        pos_ok(p),
        g.len() == CELLS,
        0 <= i < area(p.size),
        -1000 <= o.score <= 1000,
    ensures
        entered(p, g, o)[i] == (if lands(p, o, i) && g[i] < o.score {
            o.score
        } else {
            g[i] as int
        }),
        entered(p, g, o).len() == CELLS,
{
    let s = p.size;
    let v = seen_from(o.corner, o.a, o.b, s);
    if 2 <= o.a < s && 2 <= o.b < s {
        law_corner_view_on_board(o.corner, o.a, o.b, s);
        let q: Pt = (v.0 as i32, v.1 as i32);
        lemma_area(s);
        assert(inb(s, q));
        assert(pt(s, idx(s, q)) == q && idx(s, pt(s, i)) == i);
    }
}

/// The guide marks every empty point with the highest score that is offered for it, or 0.
pub proof fn law_guide_takes_highest_offer(p: Pos, offers: Seq<Offer>, i: int)
    requires
        pos_ok(p),
        0 <= i < p.size * p.size,
        forall|j: int| 0 <= j < offers.len() ==> 0 <= (#[trigger] offers[j]).score <= 1000,
    ensures
        laid_out(p, offers).len() == CELLS,
        laid_out(p, offers)[i] >= 0,
        forall|j: int|
            0 <= j < offers.len() && lands(p, #[trigger] offers[j], i) ==> laid_out(p, offers)[i]
                >= offers[j].score,
        laid_out(p, offers)[i] > 0 ==> exists|j: int|
            0 <= j < offers.len() && lands(p, #[trigger] offers[j], i) && laid_out(p, offers)[i]
                == offers[j].score,
    decreases offers.len(),
{
    reveal(area);
    lemma_area(p.size);
    if offers.len() > 0 {
        let front = offers.drop_last();
        let n = offers.len() - 1;
        assert(forall|j: int| 0 <= j < n ==> front[j] == offers[j]);
        law_guide_takes_highest_offer(p, front, i);
        lemma_entered(p, laid_out(p, front), offers[n], i);
        if laid_out(p, offers)[i] > 0 {
            if lands(p, offers[n], i) && laid_out(p, front)[i] < offers[n].score {
                assert(laid_out(p, offers)[i] == offers[n].score);
            } else {
                let j = choose|j: int|
                    0 <= j < front.len() && lands(p, #[trigger] front[j], i) && laid_out(
                        p,
                        front,
                    )[i] == front[j].score;
                assert(lands(p, offers[j], i));
            }
        }
    }
}

/// The stone with index `i` stands in the corner, on its first eight lines each way.
pub open spec fn in_corner(p: Pos, corner: u8, i: int) -> bool {
    let v = seen_from(corner, pt(p.size, i).0 as int, pt(p.size, i).1 as int, p.size);
    p.board[i] != 0 && v.0 < 8 && v.1 < 8
}

/// The stone with index `i` as the corner sees it.
pub open spec fn as_seen(p: Pos, corner: u8, i: int) -> CornerStone {
    let v = seen_from(corner, pt(p.size, i).0 as int, pt(p.size, i).1 as int, p.size);
    CornerStone { a: v.0 as i32, b: v.1 as i32, color: p.board[i] }
}

/// The list of a corner holds the stones in it and no others, all of them as long as there
/// are at most forty.
pub proof fn law_corner_lists_its_stones(p: Pos, corner: u8, k: nat)
    requires
        k <= p.size * p.size,
    ensures
        corner_stones(p, corner, k).len() <= 40,
        forall|j: int|
            0 <= j < corner_stones(p, corner, k).len() ==> exists|i: int|
                0 <= i < k && #[trigger] in_corner(p, corner, i) && as_seen(p, corner, i)
                    == #[trigger] corner_stones(p, corner, k)[j],
        corner_stones(p, corner, k).len() < 40 ==> forall|i: int|
            0 <= i < k && #[trigger] in_corner(p, corner, i) ==> corner_stones(
                p,
                corner,
                k,
            ).contains(as_seen(p, corner, i)),
        (forall|i: int| 0 <= i < k ==> !#[trigger] in_corner(p, corner, i)) <==> corner_stones(
            p,
            corner,
            k,
        ).len() == 0,
    decreases k,
{
    if k > 0 {
        let m = (k - 1) as nat;
        law_corner_lists_its_stones(p, corner, m);
        let u = corner_stones(p, corner, m);
        let w = corner_stones(p, corner, k);
        let t = as_seen(p, corner, k - 1);
        if in_corner(p, corner, k - 1) && u.len() < 40 {
            assert(w == u.push(t));
            assert(w[u.len() as int] == t);
        } else {
            assert(w == u);
        }
        assert(forall|j: int| 0 <= j < u.len() ==> w[j] == u[j]);
        assert forall|j: int| 0 <= j < w.len() implies exists|i: int|
            0 <= i < k && #[trigger] in_corner(p, corner, i) && as_seen(p, corner, i)
                == #[trigger] w[j] by {
            if j < u.len() {
                let i = choose|i: int|
                    0 <= i < m && #[trigger] in_corner(p, corner, i) && as_seen(p, corner, i)
                        == u[j];
                assert(in_corner(p, corner, i) && as_seen(p, corner, i) == w[j]);
            } else {
                assert(in_corner(p, corner, k - 1) && as_seen(p, corner, k - 1) == w[j]);
            }
        }
        if w.len() < 40 {
            assert forall|i: int| 0 <= i < k && #[trigger] in_corner(
                p,
                corner,
                i,
            ) implies w.contains(as_seen(p, corner, i)) by {
                if i < m {
                    assert(u.contains(as_seen(p, corner, i)));
                    let j = choose|j: int| 0 <= j < u.len() && u[j] == as_seen(p, corner, i);
                    assert(w[j] == as_seen(p, corner, i));
                }
            }
        }
        if w.len() == 0 {
            assert(u.len() == 0);
        } else if u.len() == 0 {
            assert(in_corner(p, corner, k - 1));
        } else {
            let i = choose|i: int|
                0 <= i < m && #[trigger] in_corner(p, corner, i) && as_seen(p, corner, i) == u[0];
            assert(in_corner(p, corner, i));
        }
    }
}

/// The greater of the two distances between stones, across and along.
pub open spec fn far(t: CornerStone, u: CornerStone) -> int {
    let x = if t.a < u.a {
        u.a - t.a
    } else {
        t.a - u.a
    };
    let y = if t.b < u.b {
        u.b - t.b
    } else {
        t.b - u.b
    };
    if x < y {
        y
    } else {
        x
    }
}

/// The stone at `j` is the first of the nearest stones of the other colour, at most three
/// away.
pub open spec fn rival(v: Seq<CornerStone>, t: CornerStone, j: int) -> bool {
    &&& 0 <= j < v.len()
    &&& v[j].color == foe(t.color)
    &&& far(t, v[j]) <= 3
    &&& forall|m: int|
        0 <= m < j && (#[trigger] v[m]).color == foe(t.color) ==> far(t, v[m]) > far(t, v[j])
    &&& forall|m: int|
        j <= m < v.len() && (#[trigger] v[m]).color == foe(t.color) ==> far(t, v[m]) >= far(
            t,
            v[j],
        )
}

/// No stone of the other colour is within three of it.
pub open spec fn unrivalled(v: Seq<CornerStone>, t: CornerStone) -> bool {
    forall|m: int|
        0 <= m < v.len() && (#[trigger] v[m]).color == foe(t.color) ==> far(t, v[m]) > 3
}

/// The point is a knight's move or a large one away from the stone, towards the centre.
pub open spec fn knight_out(t: CornerStone, a: int, b: int) -> bool {
    let x = a - t.a;
    let y = b - t.b;
    (x == 2 && y == 1) || (x == 1 && y == 2) || (x == 3 && y == 1) || (x == 1 && y == 3)
}

/// The two stones are a knight's move or a large one apart.
pub open spec fn knights_move(t: CornerStone, u: CornerStone) -> bool {
    let x = if t.a < u.a {
        u.a - t.a
    } else {
        t.a - u.a
    };
    let y = if t.b < u.b {
        u.b - t.b
    } else {
        t.b - u.b
    };
    (x == 2 && y == 1) || (x == 1 && y == 2) || (x == 3 && y == 1) || (x == 1 && y == 3)
}

/// What the stone at `k` of a corner makes worth playing for `me`. A stone on the third or
/// fourth line both ways that no stone of the other colour has come near: the knight's moves
/// from it, 240 each. One of its own with a rival near: those for 220 each, and, where the
/// rival is a knight's move away, the point as far beyond it, for 200.
pub open spec fn stone_suggests(
    v: Seq<CornerStone>,
    me: u8,
    k: int,
    a: int,
    b: int,
    score: int,
) -> bool {
    let t = v[k];
    &&& t.a == 2 || t.a == 3
    &&& t.b == 2 || t.b == 3
    &&& {
        ||| unrivalled(v, t) && knight_out(t, a, b) && score == 240
        ||| !unrivalled(v, t) && t.color == me && knight_out(t, a, b) && score == 220
        ||| t.color == me && score == 200 && exists|j: int| #[trigger]
            rival(v, t, j) && knights_move(t, v[j]) && a == 2 * v[j].a - t.a && b == 2 * v[j].b
                - t.b
    }
}

/// What an empty corner makes worth playing: 300 for the point on the fourth line both ways,
/// 290 for those on the third and fourth, 260 for that on the third both ways.
pub open spec fn corner_suggests(a: int, b: int, score: int) -> bool {
    ||| a == 3 && b == 3 && score == 300
    ||| a == 2 && b == 3 && score == 290
    ||| a == 3 && b == 2 && score == 290
    ||| a == 2 && b == 2 && score == 260
}

/// What is worth playing in a corner for `me`.
pub open spec fn suggested(p: Pos, me: u8, o: Offer) -> bool {
    let v = corner_stones(p, o.corner, (p.size * p.size) as nat);
    ||| v.len() == 0 && corner_suggests(o.a, o.b, o.score)
    ||| exists|k: int| 0 <= k < v.len() && #[trigger] stone_suggests(v, me, k, o.a, o.b, o.score)
}

proof fn lemma_nearest(v: Seq<CornerStone>, t: CornerStone, n: nat)
    requires
        n <= v.len(),
        forall|m: int| 0 <= m < v.len() ==> far(t, #[trigger] v[m]) < 99,
    ensures
        ({
            let near = nearest_foe(v, t, n);
            &&& near.0 == 99 ==> near.1 == -1 && forall|m: int|
                0 <= m < n ==> (#[trigger] v[m]).color != foe(t.color)
            &&& near.0 != 99 ==> {
                &&& 0 <= near.1 < n
                &&& v[near.1].color == foe(t.color)
                &&& far(t, v[near.1]) == near.0
                &&& near.0 < 99
                &&& forall|m: int|
                    0 <= m < near.1 && (#[trigger] v[m]).color == foe(t.color) ==> far(t, v[m])
                        > near.0
                &&& forall|m: int|
                    near.1 <= m < n && (#[trigger] v[m]).color == foe(t.color) ==> far(t, v[m])
                        >= near.0
            }
        }),
    decreases n,
{
    if n > 0 {
        lemma_nearest(v, t, (n - 1) as nat);
        assert(gap(v[n - 1], t) == far(t, v[n - 1]));
    }
}

proof fn lemma_stone_offers(corner: u8, v: Seq<CornerStone>, me: u8, k: int, o: Offer)
    requires
        0 <= k < v.len(),
        forall|m: int| 0 <= m < v.len() ==> 0 <= (#[trigger] v[m]).a < 8 && 0 <= v[m].b < 8,
    ensures
        stone_offers(corner, v, me, k).contains(o) <==> o.corner == corner && stone_suggests(
            v,
            me,
            k,
            o.a,
            o.b,
            o.score,
        ),
{
    let t = v[k];
    let near = nearest_foe(v, t, v.len());
    lemma_nearest(v, t, v.len());
    assert(unrivalled(v, t) <==> near.0 > 3);
    assert forall|j: int| #[trigger] rival(v, t, j) <==> near.0 <= 3 && j == near.1 by {
        if rival(v, t, j) && near.0 <= 3 {
            if j < near.1 {
                assert(far(t, v[j]) > near.0);
                assert(far(t, v[near.1]) >= far(t, v[j]));
            } else if near.1 < j {
                assert(far(t, v[near.1]) > far(t, v[j]));
            }
        }
    }
    lemma_knights(corner, t, 240, o);
    lemma_knights(corner, t, 220, o);
    if near.0 <= 3 {
        let w = knights(corner, t, 220);
        let x = pincer(corner, t, v[near.1]);
        let all = w.push(x);
        assert(all[4] == x);
        assert(all.contains(o) <==> w.contains(o) || o == x) by {
            if w.contains(o) {
                let j = choose|j: int| 0 <= j < w.len() && w[j] == o;
                assert(all[j] == o);
            }
        }
        assert(rival(v, t, near.1));
    }
}

proof fn lemma_knights(corner: u8, t: CornerStone, score: int, o: Offer)
    ensures
        knights(corner, t, score).contains(o) <==> o.corner == corner && o.score == score
            && knight_out(t, o.a, o.b),
{
    let w = knights(corner, t, score);
    assert(w[0] == (Offer { corner, a: t.a + 2, b: t.b + 1, score }));
    assert(w[1] == (Offer { corner, a: t.a + 1, b: t.b + 2, score }));
    assert(w[2] == (Offer { corner, a: t.a + 3, b: t.b + 1, score }));
    assert(w[3] == (Offer { corner, a: t.a + 1, b: t.b + 3, score }));
}

proof fn lemma_stones_offers(corner: u8, v: Seq<CornerStone>, me: u8, n: nat, o: Offer)
    requires
        n <= v.len(),
        forall|m: int| 0 <= m < v.len() ==> 0 <= (#[trigger] v[m]).a < 8 && 0 <= v[m].b < 8,
    ensures
        stones_offers(corner, v, me, n).contains(o) <==> o.corner == corner && exists|k: int|
            0 <= k < n && #[trigger] stone_suggests(v, me, k, o.a, o.b, o.score),
    decreases n,
{
    if n > 0 {
        let x = stones_offers(corner, v, me, (n - 1) as nat);
        let y = stone_offers(corner, v, me, n - 1);
        lemma_stones_offers(corner, v, me, (n - 1) as nat, o);
        lemma_stone_offers(corner, v, me, n - 1, o);
        lemma_joined(x, y, o);
        if x.contains(o) {
            let k = choose|k: int|
                0 <= k < n - 1 && #[trigger] stone_suggests(v, me, k, o.a, o.b, o.score);
            assert(stone_suggests(v, me, k, o.a, o.b, o.score));
        }
    }
}

proof fn lemma_joined(x: Seq<Offer>, y: Seq<Offer>, o: Offer)
    ensures
        (x + y).contains(o) <==> x.contains(o) || y.contains(o),
{
    let z = x + y;
    if x.contains(o) {
        let j = choose|j: int| 0 <= j < x.len() && x[j] == o;
        assert(z[j] == o);
    }
    if y.contains(o) {
        let j = choose|j: int| 0 <= j < y.len() && y[j] == o;
        assert(z[x.len() + j] == o);
    }
    if z.contains(o) {
        let j = choose|j: int| 0 <= j < z.len() && z[j] == o;
        if j < x.len() {
            assert(x[j] == o);
        } else {
            assert(y[j - x.len()] == o);
        }
    }
}

proof fn lemma_corner_offers(p: Pos, corner: u8, me: u8, o: Offer)
    requires
        pos_ok(p),
        corner <= 3,
    ensures
        corner_offers(p, corner, me).contains(o) <==> o.corner == corner && suggested(p, me, o),
{
    reveal(area);
    lemma_area(p.size);
    let n = area(p.size) as nat;
    let v = corner_stones(p, corner, n);
    law_corner_lists_its_stones(p, corner, n);
    assert forall|m: int| 0 <= m < v.len() implies 0 <= (#[trigger] v[m]).a < 8 && 0 <= v[m].b
        < 8 by {
        let i = choose|i: int|
            0 <= i < n && #[trigger] in_corner(p, corner, i) && as_seen(p, corner, i) == v[m];
        let q = pt(p.size, i);
        law_corner_view_on_board(corner, q.0 as int, q.1 as int, p.size);
    }
    lemma_stones_offers(corner, v, me, v.len(), o);
    let w = empty_corner_offers(corner);
    assert(w[0] == (Offer { corner, a: 3, b: 3, score: 300 }));
    assert(w[1] == (Offer { corner, a: 2, b: 3, score: 290 }));
    assert(w[2] == (Offer { corner, a: 3, b: 2, score: 290 }));
    assert(w[3] == (Offer { corner, a: 2, b: 2, score: 260 }));
}

proof fn lemma_all_offers(p: Pos, me: u8, n: nat, o: Offer)
    requires
        pos_ok(p),
        n <= 4,
    ensures
        all_offers(p, me, n).contains(o) <==> o.corner < n && suggested(p, me, o),
    decreases n,
{
    if n > 0 {
        lemma_all_offers(p, me, (n - 1) as nat, o);
        lemma_corner_offers(p, (n - 1) as u8, me, o);
        lemma_joined(
            all_offers(p, me, (n - 1) as nat),
            corner_offers(p, (n - 1) as u8, me),
            o,
        );
    }
}

/// The guide marks an empty point with the highest score that one of the four corners
/// suggests for it, and all other points with 0. Without weight it marks none.
pub proof fn law_guide_follows_corners(p: Pos, me: u8, factor: int, i: int)
    requires
        pos_ok(p),
        0 <= i < p.size * p.size,
    ensures
        factor <= 0 ==> opening_guide(p, me, factor)[i] == 0,
        factor > 0 ==> forall|o: Offer| #[trigger]
            suggested(p, me, o) && o.corner <= 3 && lands(p, o, i) ==> opening_guide(
                p,
                me,
                factor,
            )[i] >= o.score,
        opening_guide(p, me, factor)[i] == 0 || exists|o: Offer| #[trigger]
            suggested(p, me, o) && o.corner <= 3 && lands(p, o, i) && opening_guide(
                p,
                me,
                factor,
            )[i] == o.score,
{
    let all = all_offers(p, me, 4);
    reveal(area);
    lemma_area(p.size);
    assert forall|j: int| 0 <= j < all.len() implies 0 <= (#[trigger] all[j]).score <= 1000 by {
        lemma_all_offers(p, me, 4, all[j]);
        assert(all.contains(all[j]));
    }
    law_guide_takes_highest_offer(p, all, i);
    assert forall|o: Offer| #[trigger] suggested(p, me, o) && o.corner <= 3 && lands(
        p,
        o,
        i,
    ) implies laid_out(p, all)[i] >= o.score by {
        lemma_all_offers(p, me, 4, o);
        let j = choose|j: int| 0 <= j < all.len() && all[j] == o;
        assert(lands(p, all[j], i));
    }
    if factor > 0 && laid_out(p, all)[i] > 0 {
        let j = choose|j: int|
            0 <= j < all.len() && lands(p, #[trigger] all[j], i) && laid_out(p, all)[i]
                == all[j].score;
        assert(all.contains(all[j]));
        lemma_all_offers(p, me, 4, all[j]);
        assert(suggested(p, me, all[j]));
    }
}

} // verus!
