//! From influence to territory: eroding weak claims, classifying every point, and
//! estimating the points of each side.

use crate::board::{
    area, area_of, cell, group_points, idx, in_board, inb, index_of, nb, neighbour, point_of,
    pos_ok, pt, Pos, Position, Pt, BLACK, CELLS, EMPTY, MAX, RULE_CHINESE, WHITE,
};
use crate::census::{scan_groups, survey, survey_ok, Census, Survey};
use crate::count::{below, count, lemma_count_step, lemma_count_zero};
use crate::game::{state_ok, study_ok, Analysis, Game, State, Study};
use crate::influence::{influence_map, radiation};
use crate::reading::room;
use crate::score::score_fits;
use vstd::prelude::*;

verus! {

broadcast use group_points;

/// Full strength of a claim.
pub const CAP_PLATEAU: i32 = 16;

/// Net influence from which a claim starts at full strength.
pub const T_PLATEAU: i32 = 12;

/// Number of rounds in which weak claims are eroded.
pub const EROSION_ROUNDS: usize = 8;

/// Strength of an eroded claim that makes a point territory.
pub const T_TERR: i32 = 10;

/// Net influence that makes a point a sphere of influence.
pub const T_INFL: i32 = 5;

pub open spec fn abs(v: int) -> int {
    if v < 0 {
        -v
    } else {
        v
    }
}

pub open spec fn sign(v: int) -> int {
    if v < 0 {
        -1
    } else if v > 0 {
        1
    } else {
        0
    }
}

/// Claim on a point before erosion: stones claim their point at full strength for the
/// side for which they radiate, strong influence counts as full strength.
pub open spec fn claim(stone: u8, strength: int, influence: int) -> int {
    if stone != EMPTY {
        if strength > 0 {
            CAP_PLATEAU as int
        } else if strength < 0 {
            -CAP_PLATEAU
        } else {
            0
        }
    } else if influence >= T_PLATEAU {
        CAP_PLATEAU as int
    } else if influence <= -T_PLATEAU {
        -CAP_PLATEAU
    } else {
        influence
    }
}

pub open spec fn claims(p: Pos, strength: Seq<i32>, influence: Seq<i32>) -> Seq<int> {
    Seq::new(
        area(p.size) as nat,
        |i: int| claim(p.board[i], strength[i] as int, influence[i] as int),
    )
}

/// The neighbour `r` gives a claim of value `v` no support: it is on the board, and its
/// own claim is weaker or not for the same side.
pub open spec fn unsupportive(s: int, e: Seq<int>, v: int, r: Pt) -> bool {
    inb(s, r) && (sign(e[idx(s, r)]) != sign(v) || abs(e[idx(s, r)]) < abs(v))
}

/// Number of the first `d` neighbours of `q` that give a claim of value `v` no support.
pub open spec fn gaps(s: int, e: Seq<int>, v: int, q: Pt, d: nat) -> int
    decreases d,
{
    if d == 0 {
        0
    } else {
        gaps(s, e, v, q, (d - 1) as nat) + if unsupportive(s, e, v, nb(q, d - 1)) {
            1int
        } else {
            0
        }
    }
}

/// The claim on the point with index `i` after one round: an empty point loses one for
/// each neighbour without support.
pub open spec fn eroded_at(p: Pos, e: Seq<int>, i: int) -> int {
    let v = e[i];
    let left = abs(v) - gaps(p.size, e, v, pt(p.size, i), 4);
    if p.board[i] != EMPTY || v == 0 {
        v
    } else if left <= 0 {
        0
    } else if v < 0 {
        -left
    } else {
        left
    }
}

/// The claims after `n` rounds of erosion.
pub open spec fn eroded(p: Pos, e: Seq<int>, n: nat) -> Seq<int>
    decreases n,
{
    if n == 0 {
        e
    } else {
        let prev = eroded(p, e, (n - 1) as nat);
        Seq::new(prev.len(), |i: int| eroded_at(p, prev, i))
    }
}

/// Confirmed claims: those left of the initial claims after erosion.
pub open spec fn confirmed(p: Pos, strength: Seq<i32>, influence: Seq<i32>) -> Seq<int> {
    eroded(p, claims(p, strength, influence), EROSION_ROUNDS as nat)
}

/// Erosion never strengthens a claim and never changes its side.
pub proof fn law_erosion_weakens(p: Pos, e: Seq<int>, i: int)
    requires
        0 <= i < e.len(),
    ensures
        abs(eroded_at(p, e, i)) <= abs(e[i]),
        eroded_at(p, e, i) != 0 ==> sign(eroded_at(p, e, i)) == sign(e[i]),
{
    reveal_with_fuel(gaps, 5);
}

/// The point with index `i` belongs to a pocket in which every claim is `full`: its
/// neighbours on the board belong to the pocket too, unless it holds a stone.
pub open spec fn in_pocket(p: Pos, e: Seq<int>, inside: Set<int>, full: int, i: int) -> bool {
    &&& 0 <= i < e.len()
    &&& e[i] == full
    &&& p.board[i] == EMPTY ==> forall|d: int|
        0 <= d < 4 && inb(p.size, #[trigger] nb(pt(p.size, i), d)) ==> inside.contains(
            idx(p.size, nb(pt(p.size, i), d)),
        )
}

/// Erosion leaves an enclosed pocket as it is, however many rounds there are: the edge
/// and the stones around it support its claims.
pub proof fn law_pocket_is_kept(p: Pos, e: Seq<int>, inside: Set<int>, full: int, n: nat, i: int)
    requires
        forall|j: int| #[trigger] inside.contains(j) ==> in_pocket(p, e, inside, full, j),
        inside.contains(i),
    ensures
        eroded(p, e, n)[i] == e[i],
        eroded(p, e, n).len() == e.len(),
    decreases n,
{
    if n > 0 {
        let prev = eroded(p, e, (n - 1) as nat);
        law_pocket_is_kept(p, e, inside, full, (n - 1) as nat, i);
        assert forall|d: int| 0 <= d < 4 && p.board[i] == EMPTY implies !unsupportive(
            p.size,
            prev,
            full,
            #[trigger] nb(pt(p.size, i), d),
        ) by {
            let r = nb(pt(p.size, i), d);
            if inb(p.size, r) {
                law_pocket_is_kept(p, e, inside, full, (n - 1) as nat, idx(p.size, r));
            }
        }
        reveal_with_fuel(gaps, 5);
    }
}

/// The first `n` entries of a buffer of claims.
pub open spec fn ints(v: Seq<i32>, n: int) -> Seq<int> {
    Seq::new(n as nat, |i: int| v[i] as int)
}

/// The buffer `v` holds the claims `e`.
spec fn holds(v: Seq<i32>, e: Seq<int>) -> bool {
    &&& v.len() == CELLS
    &&& e.len() <= CELLS
    &&& forall|i: int| 0 <= i < e.len() ==> #[trigger] v[i] == e[i]
}

/// No claim is beyond full strength.
spec fn moderate(e: Seq<int>) -> bool {
    forall|i: int| 0 <= i < e.len() ==> -CAP_PLATEAU <= #[trigger] e[i] <= CAP_PLATEAU
}

proof fn lemma_eroded_moderate(p: Pos, e: Seq<int>, n: nat)
    requires
        moderate(e),
    ensures
        moderate(eroded(p, e, n)),
        eroded(p, e, n).len() == e.len(),
    decreases n,
{
    if n > 0 {
        lemma_eroded_moderate(p, e, (n - 1) as nat);
        let prev = eroded(p, e, (n - 1) as nat);
        assert forall|i: int| 0 <= i < e.len() implies -CAP_PLATEAU <= #[trigger] eroded(p, e, n)[i]
            <= CAP_PLATEAU by {
            law_erosion_weakens(p, prev, i);
        }
    }
}

/// Counts the neighbours of (x, y) that give a claim of value `v` no support.
fn count_gaps(
    pos: &Position,
    e: &Vec<i32>,
    v: i32,
    x: i32,
    y: i32,
    Ghost(m): Ghost<Seq<int>>,
) -> (r: i32)
    requires
        pos.wf(),
        inb(pos@.size, (x, y)),
        holds(e@, m),
        m.len() == area(pos@.size),
        moderate(m),
        -CAP_PLATEAU <= v <= CAP_PLATEAU,
        v != 0,
    ensures
        r == gaps(pos@.size, m, v as int, (x, y), 4),
        0 <= r <= 4,
{
    let mag: i32 = if v < 0 {
        -v
    } else {
        v
    };
    let mut gap: i32 = 0;
    let mut d: usize = 0;
    while d < 4
        invariant
            pos.wf(),
            inb(pos@.size, (x, y)),
            holds(e@, m),
            m.len() == area(pos@.size),
            moderate(m),
            -CAP_PLATEAU <= v <= CAP_PLATEAU,
            v != 0,
            mag == abs(v as int),
            0 <= d <= 4,
            0 <= gap <= d,
            gap == gaps(pos@.size, m, v as int, (x, y), d as nat),
        decreases 4 - d,
    {
        let (nx, ny) = neighbour(x, y, d);
        if in_board(pos, nx, ny) {
            let at: usize = index_of(pos.size, nx, ny);
            let w: i32 = e[at];
            let weak: bool = if v > 0 {
                w <= 0 || w < mag
            } else {
                w >= 0 || -w < mag
            };
            if weak {
                gap = gap + 1;
            }
        }
        d = d + 1;
    }
    gap
}

/// One round of erosion.
fn erode(pos: &Position, e: &Vec<i32>, Ghost(m): Ghost<Seq<int>>) -> (r: Vec<i32>)
    requires
        pos.wf(),
        holds(e@, m),
        m.len() == area(pos@.size),
        moderate(m),
    ensures
        holds(r@, eroded(pos@, m, 1)),
{
    let n: usize = area_of(pos.size);
    let mut r: Vec<i32> = vec![0i32; CELLS];
    let mut i: usize = 0;
    proof {
        reveal_with_fuel(eroded, 2);
    }
    while i < n
        invariant
            pos.wf(),
            holds(e@, m),
            m.len() == area(pos@.size),
            moderate(m),
            n == area(pos@.size),
            n <= CELLS,
            0 <= i <= n,
            r@.len() == CELLS,
            forall|j: int| 0 <= j < i ==> #[trigger] r@[j] == eroded_at(pos@, m, j),
        decreases n - i,
    {
        let v: i32 = e[i];
        if pos.board[i] != EMPTY || v == 0 {
            r.set(i, v);
        } else {
            let (x, y) = point_of(pos.size, i);
            let gap: i32 = count_gaps(pos, e, v, x, y, Ghost(m));
            let out: i32 = if v > 0 {
                if v - gap <= 0 {
                    0
                } else {
                    v - gap
                }
            } else {
                if -v - gap <= 0 {
                    0
                } else {
                    v + gap
                }
            };
            r.set(i, out);
        }
        i = i + 1;
    }
    r
}

proof fn lemma_eroded_step(p: Pos, e: Seq<int>, n: nat)
    ensures
        eroded(p, eroded(p, e, n), 1) == eroded(p, e, n + 1),
{
    reveal_with_fuel(eroded, 2);
}

/// Confirms claims: strong influence becomes a claim, and claims without enough
/// support around them are eroded.
pub fn morphology(pos: &Position, strength: &Vec<i32>, influence: &Vec<i32>) -> (r: Vec<i32>)
    requires
        pos.wf(),
        strength@.len() == CELLS,
        influence@.len() == CELLS,
    ensures
        r@.len() == CELLS,
        ints(r@, area(pos@.size)) == confirmed(pos@, strength@, influence@),
{
    let ghost p = pos@;
    let ghost m = claims(p, strength@, influence@);
    let n: usize = area_of(pos.size);
    let mut e: Vec<i32> = vec![0i32; CELLS];
    let mut i: usize = 0;
    while i < n
        invariant
            pos.wf(),
            p == pos@,
            m == claims(p, strength@, influence@),
            strength@.len() == CELLS,
            influence@.len() == CELLS,
            n == area(p.size),
            n <= CELLS,
            0 <= i <= n,
            e@.len() == CELLS,
            forall|j: int| 0 <= j < i ==> #[trigger] e@[j] == m[j],
        decreases n - i,
    {
        let v: i32 = influence[i];
        let w: i32 = strength[i];
        let c: i32 = if pos.board[i] != EMPTY {
            if w > 0 {
                CAP_PLATEAU
            } else if w < 0 {
                -CAP_PLATEAU
            } else {
                0
            }
        } else if v >= T_PLATEAU {
            CAP_PLATEAU
        } else if v <= -T_PLATEAU {
            -CAP_PLATEAU
        } else {
            v
        };
        e.set(i, c);
        i = i + 1;
    }
    let mut k: usize = 0;
    while k < EROSION_ROUNDS
        invariant
            pos.wf(),
            p == pos@,
            moderate(m),
            m.len() == area(p.size),
            0 <= k <= EROSION_ROUNDS,
            holds(e@, eroded(p, m, k as nat)),
        decreases EROSION_ROUNDS - k,
    {
        proof {
            lemma_eroded_moderate(p, m, k as nat);
            lemma_eroded_step(p, m, k as nat);
        }
        e = erode(pos, &e, Ghost(eroded(p, m, k as nat)));
        k = k + 1;
    }
    proof {
        lemma_eroded_moderate(p, m, EROSION_ROUNDS as nat);
    }
    e
}

/// Class of an empty point by its confirmed claim and its influence: plus or minus 2
/// for territory, 1 for a sphere of influence, 0 for neutral; positive for Black.
pub open spec fn raw_class(claim: int, influence: int) -> int {
    if claim >= T_TERR {
        2
    } else if claim <= -T_TERR {
        -2
    } else if influence >= T_INFL {
        1
    } else if influence <= -T_INFL {
        -1
    } else {
        0
    }
}

/// A live stone of colour `c` stands on one of the first `d` neighbours of `q`.
pub open spec fn live_beside(p: Pos, dead: Seq<bool>, q: Pt, c: u8, d: int) -> bool {
    exists|k: int|
        0 <= k < d && inb(p.size, #[trigger] nb(q, k)) && cell(p.size, p.board, nb(q, k)) == c
            && !dead[idx(p.size, nb(q, k))]
}

/// Class of the point with index `i`. A dead stone is the other side's territory, a
/// live one is neutral. An empty point beside a live stone of the other side is at most
/// a sphere of influence.
pub open spec fn class_of(
    p: Pos,
    dead: Seq<bool>,
    e: Seq<int>,
    influence: Seq<i32>,
    i: int,
) -> int {
    if p.board[i] != EMPTY {
        if !dead[i] {
            0
        } else if p.board[i] == BLACK {
            -2
        } else {
            2
        }
    } else {
        let t = raw_class(e[i], influence[i] as int);
        if t == 2 && live_beside(p, dead, pt(p.size, i), WHITE, 4) {
            1
        } else if t == -2 && live_beside(p, dead, pt(p.size, i), BLACK, 4) {
            -1
        } else {
            t
        }
    }
}

/// Points of class `t`.
pub open spec fn in_class(
    p: Pos,
    dead: Seq<bool>,
    e: Seq<int>,
    influence: Seq<i32>,
    t: int,
) -> spec_fn(int) -> bool {
    |i: int| class_of(p, dead, e, influence, i) == t
}

/// Points with a stone of colour `c` that is dead or not, as `gone` says.
pub open spec fn stone_fate(p: Pos, dead: Seq<bool>, c: u8, gone: bool) -> spec_fn(int) -> bool {
    |i: int| p.board[i] == c && dead[i] == gone
}

/// Estimated points of Black and White without compensation, and their spheres of
/// influence.
#[verifier::ext_equal]
pub struct Estimate {
    pub black: int,
    pub white: int,
    pub sphere_black: int,
    pub sphere_white: int,
}

/// The estimate. Under Chinese rules territory and live stones count, under the others
/// territory, captured stones and the dead stones of the other side.
pub open spec fn estimate(
    p: Pos,
    rule: u8,
    dead: Seq<bool>,
    e: Seq<int>,
    influence: Seq<i32>,
) -> Estimate {
    let n = area(p.size);
    let terr_b = count(n, in_class(p, dead, e, influence, 2));
    let terr_w = count(n, in_class(p, dead, e, influence, -2));
    Estimate {
        black: terr_b + if rule == RULE_CHINESE {
            count(n, stone_fate(p, dead, BLACK, false))
        } else {
            p.captured_by_black + count(n, stone_fate(p, dead, WHITE, true))
        },
        white: terr_w + if rule == RULE_CHINESE {
            count(n, stone_fate(p, dead, WHITE, false))
        } else {
            p.captured_by_white + count(n, stone_fate(p, dead, BLACK, true))
        },
        sphere_black: count(n, in_class(p, dead, e, influence, 1)),
        sphere_white: count(n, in_class(p, dead, e, influence, -1)),
    }
}

/// The classes of all points; the rest of the buffer `a` is kept.
pub open spec fn class_map(
    p: Pos,
    dead: Seq<bool>,
    e: Seq<int>,
    influence: Seq<i32>,
    a: Seq<i8>,
) -> Seq<i8> {
    Seq::new(
        a.len(),
        |i: int|
            if 0 <= i < area(p.size) {
                class_of(p, dead, e, influence, i) as i8
            } else {
                a[i]
            },
    )
}

/// Whether a live stone of colour `c` stands beside (x, y).
fn has_live_beside(pos: &Position, dead: &Vec<bool>, x: i32, y: i32, c: u8) -> (r: bool)
    requires
        pos.wf(),
        dead@.len() == CELLS,
        inb(pos@.size, (x, y)),
    ensures
        r == live_beside(pos@, dead@, (x, y), c, 4),
{
    let mut d: usize = 0;
    while d < 4
        invariant
            pos.wf(),
            dead@.len() == CELLS,
            inb(pos@.size, (x, y)),
            0 <= d <= 4,
            !live_beside(pos@, dead@, (x, y), c, d as int),
        decreases 4 - d,
    {
        let (nx, ny) = neighbour(x, y, d);
        if in_board(pos, nx, ny) {
            let at: usize = index_of(pos.size, nx, ny);
            if pos.at(nx, ny) == c && !dead[at] {
                return true;
            }
        }
        d = d + 1;
    }
    false
}

/// Class of the point with index `i`.
fn classify_point(
    pos: &Position,
    dead: &Vec<bool>,
    e: &Vec<i32>,
    influence: &Vec<i32>,
    i: usize,
) -> (t: i8)
    requires
        pos.wf(),
        dead@.len() == CELLS,
        influence@.len() == CELLS,
        e@.len() == CELLS,
        i < area(pos@.size),
    ensures
        t == class_of(pos@, dead@, ints(e@, area(pos@.size)), influence@, i as int),
        -2 <= t <= 2,
{
    let stone: u8 = pos.board[i];
    if stone != EMPTY {
        if !dead[i] {
            0
        } else if stone == BLACK {
            -2
        } else {
            2
        }
    } else {
        let c: i32 = e[i];
        let r: i32 = influence[i];
        let (x, y) = point_of(pos.size, i);
        if c >= T_TERR {
            if has_live_beside(pos, dead, x, y, WHITE) {
                1
            } else {
                2
            }
        } else if c <= -T_TERR {
            if has_live_beside(pos, dead, x, y, BLACK) {
                -1
            } else {
                -2
            }
        } else if r >= T_INFL {
            1
        } else if r <= -T_INFL {
            -1
        } else {
            0
        }
    }
}

/// Captured stones that count for Black and for White under the given rule.
pub open spec fn prisoners(p: Pos, rule: u8) -> (int, int) {
    if rule == RULE_CHINESE {
        (0, 0)
    } else {
        (p.captured_by_black, p.captured_by_white)
    }
}

/// Classifies every point and estimates the points of each side. Returns the points of
/// Black and White without compensation, and their spheres of influence.
#[verifier::rlimit(60)]
pub fn classify_and_est(
    pos: &Position,
    rule: u8,
    dead: &Vec<bool>,
    e: &Vec<i32>,
    a: &mut Analysis,
) -> (r: (i32, i32, i32, i32))
    requires
        pos.wf(),
        dead@.len() == CELLS,
        e@.len() == CELLS,
        study_ok(old(a)@),
        rule != RULE_CHINESE ==> score_fits(pos@),
    ensures
        ({
            let m = ints(e@, area(pos@.size));
            let est = estimate(pos@, rule, dead@, m, old(a)@.influence);
            &&& final(a)@ == (Study {
                influence: old(a)@.influence,
                territory: class_map(pos@, dead@, m, old(a)@.influence, old(a)@.territory),
                est_black: est.black,
                est_white: est.white,
            })
            &&& r.0 == est.black
            &&& r.1 == est.white
            &&& r.2 == est.sphere_black
            &&& r.3 == est.sphere_white
            &&& prisoners(pos@, rule).0 <= est.black <= prisoners(pos@, rule).0 + 2 * CELLS
            &&& prisoners(pos@, rule).1 <= est.white <= prisoners(pos@, rule).1 + 2 * CELLS
            &&& 0 <= est.sphere_black <= CELLS
            &&& 0 <= est.sphere_white <= CELLS
        }),
{
    let ghost p = pos@;
    let ghost w = a@.influence;
    let ghost m = ints(e@, area(p.size));
    let ghost t0 = a@.territory;
    let n: usize = area_of(pos.size);
    let mut terr_b: i32 = 0;
    let mut terr_w: i32 = 0;
    let mut infl_b: i32 = 0;
    let mut infl_w: i32 = 0;
    let mut dead_b: i32 = 0;
    let mut dead_w: i32 = 0;
    let mut stone_b: i32 = 0;
    let mut stone_w: i32 = 0;
    let ghost f2 = in_class(p, dead@, m, w, 2);
    let ghost g2 = in_class(p, dead@, m, w, -2);
    let ghost f1 = in_class(p, dead@, m, w, 1);
    let ghost g1 = in_class(p, dead@, m, w, -1);
    let ghost db = stone_fate(p, dead@, BLACK, true);
    let ghost dw = stone_fate(p, dead@, WHITE, true);
    let ghost lb = stone_fate(p, dead@, BLACK, false);
    let ghost lw = stone_fate(p, dead@, WHITE, false);
    proof {
        lemma_count_zero(f2);
        lemma_count_zero(g2);
        lemma_count_zero(f1);
        lemma_count_zero(g1);
        lemma_count_zero(db);
        lemma_count_zero(dw);
        lemma_count_zero(lb);
        lemma_count_zero(lw);
    }
    let mut i: usize = 0;
    while i < n
        invariant
            pos.wf(),
            p == pos@,
            dead@.len() == CELLS,
            e@.len() == CELLS,
            m == ints(e@, area(p.size)),
            n == area(p.size),
            n <= CELLS,
            0 <= i <= n,
            a@.influence == w,
            w.len() == CELLS,
            t0.len() == CELLS,
            a@.territory.len() == CELLS,
            a@.est_black == old(a)@.est_black,
            a@.est_white == old(a)@.est_white,
            forall|j: int|
                0 <= j < i ==> #[trigger] a@.territory[j] == class_of(p, dead@, m, w, j) as i8,
            forall|j: int| i <= j < CELLS ==> #[trigger] a@.territory[j] == t0[j],
            f2 == in_class(p, dead@, m, w, 2),
            g2 == in_class(p, dead@, m, w, -2),
            f1 == in_class(p, dead@, m, w, 1),
            g1 == in_class(p, dead@, m, w, -1),
            db == stone_fate(p, dead@, BLACK, true),
            dw == stone_fate(p, dead@, WHITE, true),
            lb == stone_fate(p, dead@, BLACK, false),
            lw == stone_fate(p, dead@, WHITE, false),
            terr_b == count(i as int, f2),
            terr_w == count(i as int, g2),
            infl_b == count(i as int, f1),
            infl_w == count(i as int, g1),
            dead_b == count(i as int, db),
            dead_w == count(i as int, dw),
            stone_b == count(i as int, lb),
            stone_w == count(i as int, lw),
            0 <= terr_b <= i,
            0 <= terr_w <= i,
            0 <= infl_b <= i,
            0 <= infl_w <= i,
            0 <= dead_b <= i,
            0 <= dead_w <= i,
            0 <= stone_b <= i,
            0 <= stone_w <= i,
        decreases n - i,
    {
        proof {
            lemma_count_step(i as int, f2);
            lemma_count_step(i as int, g2);
            lemma_count_step(i as int, f1);
            lemma_count_step(i as int, g1);
            lemma_count_step(i as int, db);
            lemma_count_step(i as int, dw);
            lemma_count_step(i as int, lb);
            lemma_count_step(i as int, lw);
        }
        let t: i8 = classify_point(pos, dead, e, &a.influence, i);
        a.territory.set(i, t);
        if t == 2 {
            terr_b = terr_b + 1;
        } else if t == -2 {
            terr_w = terr_w + 1;
        } else if t == 1 {
            infl_b = infl_b + 1;
        } else if t == -1 {
            infl_w = infl_w + 1;
        }
        let stone: u8 = pos.board[i];
        if stone == BLACK {
            if dead[i] {
                dead_b = dead_b + 1;
            } else {
                stone_b = stone_b + 1;
            }
        } else if stone == WHITE {
            if dead[i] {
                dead_w = dead_w + 1;
            } else {
                stone_w = stone_w + 1;
            }
        }
        i = i + 1;
    }
    let est_b: i32 = if rule == RULE_CHINESE {
        terr_b + stone_b
    } else {
        terr_b + pos.captured_by_black + dead_w
    };
    let est_w: i32 = if rule == RULE_CHINESE {
        terr_w + stone_w
    } else {
        terr_w + pos.captured_by_white + dead_b
    };
    a.est_black = est_b;
    a.est_white = est_w;
    (est_b, est_w, infl_b, infl_w)
}

/// The analysis of a position whose census is `v`, and its estimate.
pub open spec fn assessed(p: Pos, rule: u8, v: Survey, a: Study) -> (Study, Estimate) {
    let influence = influence_map(p, v.strength, a.influence);
    let e = confirmed(p, v.strength, influence);
    let est = estimate(p, rule, v.dead, e, influence);
    (
        Study {
            influence,
            territory: class_map(p, v.dead, e, influence, a.territory),
            est_black: est.black,
            est_white: est.white,
        },
        est,
    )
}

/// Analyses a position from its census: influence, confirmed claims, classes and
/// estimate.
pub fn assess(pos: &Position, rule: u8, c: &Census, a: &mut Analysis) -> (r: (i32, i32, i32, i32))
    requires
        pos.wf(),
        survey_ok(c@),
        study_ok(old(a)@),
        rule != RULE_CHINESE ==> score_fits(pos@),
    ensures
        study_ok(final(a)@),
        final(a)@ == assessed(pos@, rule, c@, old(a)@).0,
        forall|i: int|
            0 <= i < area(pos@.size) ==> -14 * CELLS <= #[trigger] final(a)@.influence[i] <= 14
                * CELLS,
        ({
            let est = assessed(pos@, rule, c@, old(a)@).1;
            &&& r.0 == est.black
            &&& r.1 == est.white
            &&& r.2 == est.sphere_black
            &&& r.3 == est.sphere_white
            &&& prisoners(pos@, rule).0 <= est.black <= prisoners(pos@, rule).0 + 2 * CELLS
            &&& prisoners(pos@, rule).1 <= est.white <= prisoners(pos@, rule).1 + 2 * CELLS
            &&& 0 <= est.sphere_black <= CELLS
            &&& 0 <= est.sphere_white <= CELLS
        }),
{
    radiation(pos, &c.strength, &mut a.influence);
    let e: Vec<i32> = morphology(pos, &c.strength, &a.influence);
    classify_and_est(pos, rule, &c.dead, &e, a)
}

/// The state after an analysis of the position.
pub open spec fn analysed(g: State) -> State {
    State {
        analysis: assessed(g.pos, g.rule, survey(g.pos, 8, 600), g.analysis).0,
        ..g
    }
}

/// Analyses the position: influence, territory and estimate, with the fate of chains
/// read out. The two arguments are not used.
pub fn ugo_analyze(g: &mut Game, _d: i32, _e: i32)
    requires
        old(g).wf(),
        room(old(g)@.pos, 8),
        old(g)@.rule != RULE_CHINESE ==> score_fits(old(g)@.pos),
    ensures
        final(g).wf(),
        final(g)@ == analysed(old(g)@),
{
    let c: Census = scan_groups(&mut g.pos, 8, 600);
    assess(&g.pos, g.rule, &c, &mut g.analysis);
}

/// The two buffers agree on the points of a board with `s` lines.
pub open spec fn agree(s: int, a: Seq<i32>, b: Seq<i32>) -> bool {
    &&& a.len() == CELLS
    &&& b.len() == CELLS
    &&& forall|i: int| 0 <= i < area(s) ==> #[trigger] a[i] == b[i]
}

/// The influence on the board does not rest on what the buffer held before.
pub proof fn lemma_influence_agrees(p: Pos, strength: Seq<i32>, a: Seq<i32>, b: Seq<i32>)
    requires
        5 <= p.size <= MAX,
        a.len() == CELLS,
        b.len() == CELLS,
    ensures
        agree(p.size, influence_map(p, strength, a), influence_map(p, strength, b)),
{
}

/// The estimate rests on the influence on the board alone.
pub proof fn lemma_estimate_agrees(
    p: Pos,
    rule: u8,
    dead: Seq<bool>,
    strength: Seq<i32>,
    a: Seq<i32>,
    b: Seq<i32>,
)
    requires
        5 <= p.size <= MAX,
        agree(p.size, a, b),
    ensures
        confirmed(p, strength, a) == confirmed(p, strength, b),
        forall|i: int|
            0 <= i < area(p.size) ==> #[trigger] class_of(
                p,
                dead,
                confirmed(p, strength, a),
                a,
                i,
            ) == class_of(p, dead, confirmed(p, strength, b), b, i),
        estimate(p, rule, dead, confirmed(p, strength, a), a) == estimate(
            p,
            rule,
            dead,
            confirmed(p, strength, b),
            b,
        ),
{
    let n = area(p.size);
    assert(claims(p, strength, a) =~= claims(p, strength, b));
    let e = confirmed(p, strength, a);
    assert(forall|i: int|
        0 <= i < n ==> #[trigger] class_of(p, dead, e, a, i) == class_of(p, dead, e, b, i));
    assert forall|t: int| #[trigger]
        count(n, in_class(p, dead, e, a, t)) == count(n, in_class(p, dead, e, b, t)) by {
        assert(below(n, in_class(p, dead, e, a, t)) =~= below(n, in_class(p, dead, e, b, t)));
    }
}

/// Analysing the same position again changes nothing.
pub proof fn law_analysis_repeatable(g: State)
    requires
        state_ok(g),
    ensures
        analysed(analysed(g)) == analysed(g),
{
    let p = g.pos;
    let v = survey(p, 8, 600);
    let a = analysed(g).analysis;
    let e = confirmed(p, v.strength, a.influence);
    assert(class_map(p, v.dead, e, a.influence, a.territory) =~= a.territory);
}

/// Classes run from -2 to 2. A dead stone is the other side's territory, a live one is
/// neutral, and no territory borders on a live stone of the other side.
pub proof fn law_classes(p: Pos, dead: Seq<bool>, e: Seq<int>, influence: Seq<i32>, i: int)
    requires
        pos_ok(p),
        0 <= i < area(p.size),
    ensures
        -2 <= class_of(p, dead, e, influence, i) <= 2,
        p.board[i] == BLACK && dead[i] ==> class_of(p, dead, e, influence, i) == -2,
        p.board[i] == WHITE && dead[i] ==> class_of(p, dead, e, influence, i) == 2,
        p.board[i] != EMPTY && !dead[i] ==> class_of(p, dead, e, influence, i) == 0,
        p.board[i] == EMPTY && class_of(p, dead, e, influence, i) == 2 ==> !live_beside(
            p,
            dead,
            pt(p.size, i),
            WHITE,
            4,
        ),
        p.board[i] == EMPTY && class_of(p, dead, e, influence, i) == -2 ==> !live_beside(
            p,
            dead,
            pt(p.size, i),
            BLACK,
            4,
        ),
{
}

/// The buffer of classes: plus or minus 2 for territory, 1 for a sphere of influence,
/// 0 for neutral; positive for Black.
pub fn ugo_terr_ptr(g: &Game) -> (r: &[i8])
    ensures
        r@ == g@.analysis.territory,
{
    g.analysis.territory.as_slice()
}

/// The buffer of net influence, positive for Black.
pub fn ugo_influence_ptr(g: &Game) -> (r: &[i32])
    ensures
        r@ == g@.analysis.influence,
{
    g.analysis.influence.as_slice()
}

/// Estimated points of Black from the last analysis, without compensation.
pub fn ugo_est_black(g: &Game) -> (r: i32)
    ensures
        r == g@.analysis.est_black,
{
    g.analysis.est_black
}

/// Estimated points of White from the last analysis, without compensation.
pub fn ugo_est_white(g: &Game) -> (r: i32)
    ensures
        r == g@.analysis.est_white,
{
    g.analysis.est_white
}

} // verus!
