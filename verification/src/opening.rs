//! Shape guidance for the opening: empty corners, enclosures, approaches and pincers.

use crate::board::{
    area, area_of, foe, group_points, idx, index_of, opponent, point_of, pos_ok, pt, Pos, Position,
    CELLS, EMPTY, MAX,
};
use crate::estimate::abs;
use vstd::prelude::*;

verus! {

broadcast use group_points;

/// Number of stones that the guide looks at in one corner.
pub const CORNER_STONES: usize = 40;

/// Lines from the corner within which a stone belongs to it.
pub const CORNER_LINES: i32 = 8;

/// Distance up to which a stone counts as near.
pub const NEAR: i32 = 3;

/// A coordinate seen from the other end of a board with `s` lines.
pub open spec fn flipped(v: int, s: int) -> int {
    s - 1 - v
}

/// The point (x, y) as seen from a corner: bit 0 of `corner` stands for the right
/// side, bit 1 for the lower side.
pub open spec fn seen_from(corner: u8, x: int, y: int, s: int) -> (int, int) {
    (
        if corner & 1 != 0 {
            flipped(x, s)
        } else {
            x
        },
        if corner & 2 != 0 {
            flipped(y, s)
        } else {
            y
        },
    )
}

/// The point (x, y) in the coordinates of a corner, counted from the top left. The same
/// reflection leads back.
pub fn corner_norm(corner: u8, x: i32, y: i32, s: i32) -> (r: (i32, i32))
    requires
        corner & 1 != 0 ==> i32::MIN < s && i32::MIN <= flipped(x as int, s as int) <= i32::MAX,
        corner & 2 != 0 ==> i32::MIN < s && i32::MIN <= flipped(y as int, s as int) <= i32::MAX,
    ensures
        (r.0 as int, r.1 as int) == seen_from(corner, x as int, y as int, s as int),
{
    let nx: i32 = if corner & 1 != 0 {
        s - 1 - x
    } else {
        x
    };
    let ny: i32 = if corner & 2 != 0 {
        s - 1 - y
    } else {
        y
    };
    (nx, ny)
}

/// Looking at a point from the same corner twice gives the point itself.
pub proof fn law_corner_view_self_inverse(corner: u8, x: int, y: int, s: int)
    ensures
        ({
            let v = seen_from(corner, x, y, s);
            seen_from(corner, v.0, v.1, s) == (x, y)
        }),
{
}

/// A point of the board seen from a corner is a point of the board.
pub proof fn law_corner_view_on_board(corner: u8, x: int, y: int, s: int)
    requires
        0 <= x < s,
        0 <= y < s,
    ensures
        0 <= seen_from(corner, x, y, s).0 < s,
        0 <= seen_from(corner, x, y, s).1 < s,
{
}

/// A score offered for the point (a, b) of a corner.
pub struct Offer {
    pub corner: u8,
    pub a: int,
    pub b: int,
    pub score: int,
}

/// The guide with an offer entered: it counts on an empty point away from the first two
/// lines of its corner, unless the point has as much already.
pub open spec fn entered(p: Pos, g: Seq<i32>, o: Offer) -> Seq<i32> {
    let v = seen_from(o.corner, o.a, o.b, p.size);
    let i = idx(p.size, (v.0 as i32, v.1 as i32));
    if o.a < 2 || o.b < 2 || o.a >= p.size || o.b >= p.size {
        g
    } else if p.board[i] == EMPTY && g[i] < o.score {
        g.update(i, o.score as i32)
    } else {
        g
    }
}

/// The guide with all offers entered: the highest that counts on each point, or 0.
pub open spec fn laid_out(p: Pos, offers: Seq<Offer>) -> Seq<i32>
    decreases offers.len(),
{
    if offers.len() == 0 {
        Seq::new(CELLS as nat, |i: int| 0i32)
    } else {
        entered(p, laid_out(p, offers.drop_last()), offers.last())
    }
}

/// Enters an offer for the point (a, b) of a corner.
pub fn guide_add(pos: &Position, guide: &mut Vec<i32>, corner: u8, a: i32, b: i32, score: i32)
    requires
        pos.wf(),
        old(guide)@.len() == CELLS,
    ensures
        final(guide)@ == entered(
            pos@,
            old(guide)@,
            (Offer { corner, a: a as int, b: b as int, score: score as int }),
        ),
        final(guide)@.len() == CELLS,
{
    let s: i32 = pos.size as i32;
    if a < 2 || b < 2 || a >= s || b >= s {
        return;
    }
    let (x, y) = corner_norm(corner, a, b, s);
    let i: usize = index_of(pos.size, x, y);
    if pos.board[i] == EMPTY && guide[i] < score {
        guide.set(i, score);
    }
}

/// A stone in the coordinates of a corner.
#[derive(Clone, Copy)]
pub struct CornerStone {
    pub a: i32,
    pub b: i32,
    pub color: u8,
}

/// The stones of a corner among the first `k` points, at most forty.
pub open spec fn corner_stones(p: Pos, corner: u8, k: nat) -> Seq<CornerStone>
    decreases k,
{
    if k == 0 {
        seq![]
    } else {
        let prev = corner_stones(p, corner, (k - 1) as nat);
        let q = pt(p.size, k - 1);
        let v = seen_from(corner, q.0 as int, q.1 as int, p.size);
        if p.board[k - 1] != EMPTY && v.0 < CORNER_LINES && v.1 < CORNER_LINES && prev.len()
            < CORNER_STONES {
            prev.push(CornerStone { a: v.0 as i32, b: v.1 as i32, color: p.board[k - 1] })
        } else {
            prev
        }
    }
}

pub open spec fn max(a: int, b: int) -> int {
    if a >= b {
        a
    } else {
        b
    }
}

/// Number of king's steps from one stone to another.
pub open spec fn gap(t: CornerStone, u: CornerStone) -> int {
    max(abs(t.a - u.a), abs(t.b - u.b))
}

/// Distance and index of the first stone among the first `n` that is nearest to `t` and
/// of the other colour; (99, -1) if there is none.
pub open spec fn nearest_foe(v: Seq<CornerStone>, t: CornerStone, n: nat) -> (int, int)
    decreases n,
{
    if n == 0 {
        (99, -1)
    } else {
        let prev = nearest_foe(v, t, (n - 1) as nat);
        if v[n - 1].color == foe(t.color) && gap(v[n - 1], t) < prev.0 {
            (gap(v[n - 1], t), n - 1)
        } else {
            prev
        }
    }
}

/// The stone holds a corner: it stands on the third or fourth line both ways.
pub open spec fn holds_corner(t: CornerStone) -> bool {
    (t.a == 2 || t.a == 3) && (t.b == 2 || t.b == 3)
}

/// Offers for the small and the large knight's moves outward from `t`.
pub open spec fn knights(corner: u8, t: CornerStone, score: int) -> Seq<Offer> {
    seq![
        Offer { corner, a: t.a + 2, b: t.b + 1, score },
        Offer { corner, a: t.a + 1, b: t.b + 2, score },
        Offer { corner, a: t.a + 3, b: t.b + 1, score },
        Offer { corner, a: t.a + 1, b: t.b + 3, score },
    ]
}

/// The stone `u` stands a small or a large knight's move from `t`.
pub open spec fn knight_apart(t: CornerStone, u: CornerStone) -> bool {
    let da = abs(u.a - t.a);
    let db = abs(u.b - t.b);
    (da == 2 && db == 1) || (da == 1 && db == 2) || (da == 3 && db == 1) || (da == 1 && db == 3)
}

/// Offer for the pincer of `u` from beyond, as seen from `t`.
pub open spec fn pincer(corner: u8, t: CornerStone, u: CornerStone) -> Offer {
    Offer { corner, a: t.a + 2 * (u.a - t.a), b: t.b + 2 * (u.b - t.b), score: 200 }
}

/// Offers around the stone with index `k` of a corner, for the side `me`. A stone of
/// its own that holds the corner is enclosed, or, when approached, answered on the
/// other side and with a pincer. One of the other side is approached unless it has been.
pub open spec fn stone_offers(corner: u8, v: Seq<CornerStone>, me: u8, k: int) -> Seq<Offer> {
    let t = v[k];
    let near = nearest_foe(v, t, v.len());
    if !holds_corner(t) {
        seq![]
    } else if near.0 > NEAR {
        knights(corner, t, 240)
    } else if t.color != me {
        seq![]
    } else if near.1 >= 0 && knight_apart(t, v[near.1]) {
        knights(corner, t, 220).push(pincer(corner, t, v[near.1]))
    } else {
        knights(corner, t, 220)
    }
}

/// Offers around the first `n` stones of a corner.
pub open spec fn stones_offers(corner: u8, v: Seq<CornerStone>, me: u8, n: nat) -> Seq<Offer>
    decreases n,
{
    if n == 0 {
        seq![]
    } else {
        stones_offers(corner, v, me, (n - 1) as nat) + stone_offers(corner, v, me, n - 1)
    }
}

/// Offers in an empty corner: the points 4-4, 3-4, 4-3 and 3-3.
pub open spec fn empty_corner_offers(corner: u8) -> Seq<Offer> {
    seq![
        Offer { corner, a: 3, b: 3, score: 300 },
        Offer { corner, a: 2, b: 3, score: 290 },
        Offer { corner, a: 3, b: 2, score: 290 },
        Offer { corner, a: 2, b: 2, score: 260 },
    ]
}

/// Offers in a corner.
pub open spec fn corner_offers(p: Pos, corner: u8, me: u8) -> Seq<Offer> {
    let v = corner_stones(p, corner, area(p.size) as nat);
    if v.len() == 0 {
        empty_corner_offers(corner)
    } else {
        stones_offers(corner, v, me, v.len())
    }
}

/// Offers in the first `n` corners.
pub open spec fn all_offers(p: Pos, me: u8, n: nat) -> Seq<Offer>
    decreases n,
{
    if n == 0 {
        seq![]
    } else {
        all_offers(p, me, (n - 1) as nat) + corner_offers(p, (n - 1) as u8, me)
    }
}

/// The guide for the side `me`: a score for each point, nothing if `factor` is not
/// positive.
pub open spec fn opening_guide(p: Pos, me: u8, factor: int) -> Seq<i32> {
    if factor <= 0 {
        laid_out(p, seq![])
    } else {
        laid_out(p, all_offers(p, me, 4))
    }
}

proof fn lemma_laid_push(p: Pos, offers: Seq<Offer>, o: Offer)
    ensures
        laid_out(p, offers.push(o)) == entered(p, laid_out(p, offers), o),
{
    assert(offers.push(o).drop_last() =~= offers);
}

/// No offer is above 300.
pub open spec fn modest(offers: Seq<Offer>) -> bool {
    forall|i: int| 0 <= i < offers.len() ==> 0 <= (#[trigger] offers[i]).score <= 300
}

proof fn lemma_laid_bounded(p: Pos, offers: Seq<Offer>)
    requires
        pos_ok(p),
        modest(offers),
    ensures
        laid_out(p, offers).len() == CELLS,
        forall|i: int| 0 <= i < CELLS ==> 0 <= #[trigger] laid_out(p, offers)[i] <= 300,
        forall|i: int|
            0 <= i < CELLS && p.board[i] != EMPTY ==> #[trigger] laid_out(p, offers)[i] == 0,
    decreases offers.len(),
{
    if offers.len() > 0 {
        lemma_laid_bounded(p, offers.drop_last());
    }
}

proof fn lemma_stones_modest(corner: u8, v: Seq<CornerStone>, me: u8, n: nat)
    ensures
        modest(stones_offers(corner, v, me, n)),
    decreases n,
{
    if n > 0 {
        lemma_stones_modest(corner, v, me, (n - 1) as nat);
    }
}

proof fn lemma_all_modest(p: Pos, me: u8, n: nat)
    ensures
        modest(all_offers(p, me, n)),
    decreases n,
{
    if n > 0 {
        lemma_all_modest(p, me, (n - 1) as nat);
        let corner = (n - 1) as u8;
        let v = corner_stones(p, corner, area(p.size) as nat);
        lemma_stones_modest(corner, v, me, v.len());
    }
}

/// The guide gives scores from 0 to 300, and nothing to a point that holds a stone.
pub proof fn law_guide_bounded(p: Pos, me: u8, factor: int, i: int)
    requires
        pos_ok(p),
        0 <= i < CELLS,
    ensures
        opening_guide(p, me, factor).len() == CELLS,
        0 <= opening_guide(p, me, factor)[i] <= 300,
        p.board[i] != EMPTY ==> opening_guide(p, me, factor)[i] == 0,
{
    lemma_all_modest(p, me, 4);
    lemma_laid_bounded(p, all_offers(p, me, 4));
}

/// Coordinates of a corner stay small.
spec fn stones_ok(v: Seq<CornerStone>) -> bool {
    &&& v.len() <= CORNER_STONES
    &&& forall|k: int|
        0 <= k < v.len() ==> 0 <= (#[trigger] v[k]).a < CORNER_LINES && 0 <= v[k].b < CORNER_LINES
}

/// Collects the stones of a corner.
fn collect_corner(pos: &Position, corner: u8) -> (v: Vec<CornerStone>)
    requires
        pos.wf(),
    ensures
        v@ == corner_stones(pos@, corner, area(pos@.size) as nat),
        stones_ok(v@),
{
    let n: usize = area_of(pos.size);
    let s: i32 = pos.size as i32;
    let mut v: Vec<CornerStone> = Vec::new();
    let mut i: usize = 0;
    while i < n
        invariant
            pos.wf(),
            s == pos@.size,
            n == area(pos@.size),
            n <= CELLS,
            0 <= i <= n,
            v@ == corner_stones(pos@, corner, i as nat),
            stones_ok(v@),
        decreases n - i,
    {
        let (x, y) = point_of(pos.size, i);
        let color: u8 = pos.board[i];
        let (a, b) = corner_norm(corner, x, y, s);
        if color != EMPTY && a < CORNER_LINES && b < CORNER_LINES && v.len() < CORNER_STONES {
            v.push(CornerStone { a, b, color });
        }
        i = i + 1;
    }
    v
}

/// Absolute difference of two small coordinates.
fn distance(a: i32, b: i32) -> (r: i32)
    requires
        0 <= a < CORNER_LINES,
        0 <= b < CORNER_LINES,
    ensures
        r == abs(a - b),
{
    if a < b {
        b - a
    } else {
        a - b
    }
}

/// Distance and index of the nearest stone of the other colour.
fn find_nearest_foe(v: &Vec<CornerStone>, k: usize) -> (r: (i32, i32))
    requires
        stones_ok(v@),
        k < v@.len(),
    ensures
        (r.0 as int, r.1 as int) == nearest_foe(v@, v@[k as int], v@.len()),
        r.1 < v@.len(),
{
    let t: CornerStone = v[k];
    let other: u8 = opponent(t.color);
    let mut dist: i32 = 99;
    let mut at: i32 = -1;
    let mut j: usize = 0;
    while j < v.len()
        invariant
            stones_ok(v@),
            k < v@.len(),
            t == v@[k as int],
            other == foe(t.color),
            0 <= j <= v@.len(),
            at < j,
            (dist as int, at as int) == nearest_foe(v@, t, j as nat),
        decreases v@.len() - j,
    {
        let u: CornerStone = v[j];
        if u.color == other {
            let da: i32 = distance(u.a, t.a);
            let db: i32 = distance(u.b, t.b);
            let d: i32 = if da >= db {
                da
            } else {
                db
            };
            if d < dist {
                dist = d;
                at = j as i32;
            }
        }
        j = j + 1;
    }
    (dist, at)
}

/// Enters the knight's moves outward from a stone.
fn add_knights(
    pos: &Position,
    guide: &mut Vec<i32>,
    corner: u8,
    t: CornerStone,
    score: i32,
    Ghost(offers): Ghost<Seq<Offer>>,
)
    requires
        pos.wf(),
        0 <= t.a < CORNER_LINES,
        0 <= t.b < CORNER_LINES,
        old(guide)@.len() == CELLS,
        old(guide)@ == laid_out(pos@, offers),
    ensures
        final(guide)@.len() == CELLS,
        final(guide)@ == laid_out(pos@, offers + knights(corner, t, score as int)),
{
    let ghost k = knights(corner, t, score as int);
    let ghost o1 = offers.push(k[0]);
    let ghost o2 = o1.push(k[1]);
    let ghost o3 = o2.push(k[2]);
    proof {
        lemma_laid_push(pos@, offers, k[0]);
        lemma_laid_push(pos@, o1, k[1]);
        lemma_laid_push(pos@, o2, k[2]);
        lemma_laid_push(pos@, o3, k[3]);
        assert(o3.push(k[3]) =~= offers + k);
    }
    guide_add(pos, guide, corner, t.a + 2, t.b + 1, score);
    guide_add(pos, guide, corner, t.a + 1, t.b + 2, score);
    guide_add(pos, guide, corner, t.a + 3, t.b + 1, score);
    guide_add(pos, guide, corner, t.a + 1, t.b + 3, score);
}

/// Enters the offers around the stone with index `k` of a corner.
fn add_stone(
    pos: &Position,
    guide: &mut Vec<i32>,
    corner: u8,
    v: &Vec<CornerStone>,
    me: u8,
    k: usize,
    Ghost(offers): Ghost<Seq<Offer>>,
)
    requires
        pos.wf(),
        stones_ok(v@),
        k < v@.len(),
        old(guide)@.len() == CELLS,
        old(guide)@ == laid_out(pos@, offers),
    ensures
        final(guide)@.len() == CELLS,
        final(guide)@ == laid_out(pos@, offers + stone_offers(corner, v@, me, k as int)),
{
    let t: CornerStone = v[k];
    if !((t.a == 2 || t.a == 3) && (t.b == 2 || t.b == 3)) {
        return;
    }
    let (dist, j) = find_nearest_foe(v, k);
    if dist > NEAR {
        add_knights(pos, guide, corner, t, 240, Ghost(offers));
        return;
    }
    if t.color != me {
        return;
    }
    add_knights(pos, guide, corner, t, 220, Ghost(offers));
    if j >= 0 {
        let u: CornerStone = v[j as usize];
        let da: i32 = distance(u.a, t.a);
        let db: i32 = distance(u.b, t.b);
        if (da == 2 && db == 1) || (da == 1 && db == 2) || (da == 3 && db == 1) || (da == 1 && db
            == 3) {
            let ghost o = offers + knights(corner, t, 220);
            proof {
                lemma_laid_push(pos@, o, pincer(corner, t, u));
                assert(o.push(pincer(corner, t, u)) =~= offers + knights(corner, t, 220).push(
                    pincer(corner, t, u),
                ));
            }
            guide_add(pos, guide, corner, t.a + 2 * (u.a - t.a), t.b + 2 * (u.b - t.b), 200);
        }
    }
}

/// Enters the offers of a corner.
fn add_corner(
    pos: &Position,
    guide: &mut Vec<i32>,
    corner: u8,
    me: u8,
    Ghost(offers): Ghost<Seq<Offer>>,
)
    requires
        pos.wf(),
        old(guide)@.len() == CELLS,
        old(guide)@ == laid_out(pos@, offers),
    ensures
        final(guide)@.len() == CELLS,
        final(guide)@ == laid_out(pos@, offers + corner_offers(pos@, corner, me)),
{
    let v: Vec<CornerStone> = collect_corner(pos, corner);
    if v.len() == 0 {
        let ghost e = empty_corner_offers(corner);
        let ghost o1 = offers.push(e[0]);
        let ghost o2 = o1.push(e[1]);
        let ghost o3 = o2.push(e[2]);
        proof {
            lemma_laid_push(pos@, offers, e[0]);
            lemma_laid_push(pos@, o1, e[1]);
            lemma_laid_push(pos@, o2, e[2]);
            lemma_laid_push(pos@, o3, e[3]);
            assert(o3.push(e[3]) =~= offers + e);
        }
        guide_add(pos, guide, corner, 3, 3, 300);
        guide_add(pos, guide, corner, 2, 3, 290);
        guide_add(pos, guide, corner, 3, 2, 290);
        guide_add(pos, guide, corner, 2, 2, 260);
        return;
    }
    let mut k: usize = 0;
    while k < v.len()
        invariant
            pos.wf(),
            stones_ok(v@),
            0 <= k <= v@.len(),
            guide@.len() == CELLS,
            guide@ == laid_out(pos@, offers + stones_offers(corner, v@, me, k as nat)),
        decreases v@.len() - k,
    {
        let ghost o = offers + stones_offers(corner, v@, me, k as nat);
        proof {
            assert(o + stone_offers(corner, v@, me, k as int) =~= offers + stones_offers(
                corner,
                v@,
                me,
                (k + 1) as nat,
            ));
        }
        add_stone(pos, guide, corner, &v, me, k, Ghost(o));
        k = k + 1;
    }
}

/// Shape guidance for the opening: a score for each point that makes a textbook shape
/// for the side `me`, worked out corner by corner.
pub fn compute_opening_guide(pos: &Position, me: u8, factor: i32) -> (guide: Vec<i32>)
    requires
        pos.wf(),
    ensures
        guide@ == opening_guide(pos@, me, factor as int),
        guide@.len() == CELLS,
        forall|i: int| 0 <= i < CELLS ==> 0 <= #[trigger] guide@[i] <= 300,
{
    let mut guide: Vec<i32> = vec![0i32; CELLS];
    proof {
        assert forall|i: int| 0 <= i < CELLS implies 0 <= #[trigger] opening_guide(
            pos@,
            me,
            factor as int,
        )[i] <= 300 by {
            law_guide_bounded(pos@, me, factor as int, i);
        }
    }
    if factor <= 0 {
        return guide;
    }
    let mut c: u8 = 0;
    while c < 4
        invariant
            pos.wf(),
            0 <= c <= 4,
            guide@.len() == CELLS,
            guide@ == laid_out(pos@, all_offers(pos@, me, c as nat)),
        decreases 4 - c,
    {
        let ghost o = all_offers(pos@, me, c as nat);
        add_corner(pos, &mut guide, c, me, Ghost(o));
        c = c + 1;
    }
    guide
}

} // verus!
