//! Candidate moves: where to look, and in what order.

use crate::board::{
    area, area_of, cell, foe, group_points, idx, in_board, inb, index_of, lemma_nb, nb, neighbour,
    opponent, point_of, pos_ok, pt, Pos, Position, Pt, BLACK, CELLS, EMPTY, MAX, OK,
};
use crate::census::{survey_ok, Census, Survey};
use crate::chain::{
    block, group_info, is_eye, is_eye_for, is_liberty, lemma_connected_refl, liberties, Group,
};
use crate::estimate::{abs, T_TERR};
use crate::game::{style_ok, Style};
use crate::influence::tdiv;
use crate::liveness::lemma_after_cells;
use crate::opening::{compute_opening_guide, law_guide_bounded, max, opening_guide};
use crate::random::{draw, rng_below, xorshift};
use crate::rules::{
    board_after, captures, counters_fit, law_untry_undoes_try, lemma_stone_stays, play_code,
    play_result, try_play, untry_play,
};
use vstd::prelude::*;

verus! {

broadcast use group_points;

/// How a search is carried out.
#[derive(Clone, Copy)]
pub struct Plan {
    pub rule: u8,
    pub style: Style,
    /// Depth of the search from the root.
    pub depth: i32,
    /// Number of moves tried at the root and at the next three levels.
    pub w0: usize,
    pub w1: usize,
    pub w2: usize,
    pub w3: usize,
    /// Number of positions after which the search only evaluates.
    pub budget: i32,
    /// Number of moves that count as the opening.
    pub opening: i32,
}

/// Most moves that are tried in one position.
pub const MAX_WIDTH: usize = 22;

pub open spec fn plan_ok(k: Plan) -> bool {
    &&& style_ok(k.style)
    &&& 0 <= k.depth <= 5
    &&& k.w0 <= MAX_WIDTH
    &&& k.w1 <= MAX_WIDTH
    &&& k.w2 <= MAX_WIDTH
    &&& k.w3 <= MAX_WIDTH
    &&& 0 <= k.budget <= 1000000
    &&& 1 <= k.opening <= CELLS
}

pub open spec fn min(a: int, b: int) -> int {
    if a <= b {
        a
    } else {
        b
    }
}

/// What the influence `v` at distance `d` lacks to be sure territory, weighted by
/// nearness.
pub open spec fn shortfall(v: int, d: int) -> int {
    if abs(v) >= T_TERR + 2 {
        0
    } else {
        (T_TERR + 2 - abs(v)) * (4 - d)
    }
}

/// Room for expansion around `q`, over the first `n` points of the 7 by 7 square centred
/// on it: the shortfall of influence on the points at most three steps away.
pub open spec fn expansion(s: int, influence: Seq<i32>, q: Pt, n: nat) -> int
    decreases n,
{
    if n == 0 {
        0
    } else {
        let dx = (n - 1) % 7 - 3;
        let dy = (n - 1) / 7 - 3;
        let d = abs(dx) + abs(dy);
        let r: Pt = ((q.0 + dx) as i32, (q.1 + dy) as i32);
        expansion(s, influence, q, (n - 1) as nat) + if d == 0 || d > 3 || !inb(s, r) {
            0
        } else {
            shortfall(influence[idx(s, r)] as int, d)
        }
    }
}

/// Room for expansion around (x, y).
fn expansion_at(pos: &Position, influence: &Vec<i32>, x: i32, y: i32) -> (r: i32)
    requires
        pos.wf(),
        inb(pos@.size, (x, y)),
        influence@.len() == CELLS,
        forall|i: int|
            0 <= i < area(pos@.size) ==> -14 * CELLS <= #[trigger] influence@[i] <= 14 * CELLS,
    ensures
        r == expansion(pos@.size, influence@, (x, y), 49),
        0 <= r <= 1764,
{
    let mut acc: i32 = 0;
    let mut t: i32 = 0;
    while t < 49
        invariant
            pos.wf(),
            inb(pos@.size, (x, y)),
            influence@.len() == CELLS,
            forall|i: int|
                0 <= i < area(pos@.size) ==> -14 * CELLS <= #[trigger] influence@[i] <= 14 * CELLS,
            0 <= t <= 49,
            0 <= acc <= 36 * t,
            acc == expansion(pos@.size, influence@, (x, y), t as nat),
        decreases 49 - t,
    {
        let dx: i32 = t % 7 - 3;
        let dy: i32 = t / 7 - 3;
        let ax: i32 = if dx < 0 {
            -dx
        } else {
            dx
        };
        let ay: i32 = if dy < 0 {
            -dy
        } else {
            dy
        };
        let d: i32 = ax + ay;
        if d != 0 && d <= 3 && in_board(pos, x + dx, y + dy) {
            let at: usize = index_of(pos.size, x + dx, y + dy);
            let v: i32 = influence[at];
            let a: i32 = if v < 0 {
                -v
            } else {
                v
            };
            let gain: i32 = T_TERR + 2 - a;
            if gain > 0 {
                proof {
                    assert(0 <= gain * (4 - d) <= 36) by (nonlinear_arith)
                        requires
                            0 < gain <= 12,
                            1 <= d <= 3,
                    ;
                }
                acc = acc + gain * (4 - d);
            }
        }
        t = t + 1;
    }
    acc
}

/// Room for expansion around every point of the board.
pub open spec fn expansion_map(p: Pos, influence: Seq<i32>) -> Seq<int> {
    Seq::new(
        area(p.size) as nat,
        |i: int| expansion(p.size, influence, pt(p.size, i), 49),
    )
}

/// Computes the room for expansion around every point of the board.
pub fn build_exp(pos: &Position, influence: &Vec<i32>) -> (r: Vec<i32>)
    requires
        pos.wf(),
        influence@.len() == CELLS,
        forall|i: int|
            0 <= i < area(pos@.size) ==> -14 * CELLS <= #[trigger] influence@[i] <= 14 * CELLS,
    ensures
        r@.len() == area(pos@.size),
        forall|i: int|
            0 <= i < r@.len() ==> #[trigger] r@[i] == expansion_map(pos@, influence@)[i] && 0
                <= r@[i] <= 1764,
{
    let n: usize = area_of(pos.size);
    let mut r: Vec<i32> = Vec::new();
    let mut i: usize = 0;
    while i < n
        invariant
            pos.wf(),
            influence@.len() == CELLS,
            forall|j: int|
                0 <= j < area(pos@.size) ==> -14 * CELLS <= #[trigger] influence@[j] <= 14 * CELLS,
            n == area(pos@.size),
            0 <= i <= n,
            r@.len() == i,
            forall|j: int|
                0 <= j < i ==> #[trigger] r@[j] == expansion_map(pos@, influence@)[j] && 0 <= r@[j]
                    <= 1764,
        decreases n - i,
    {
        let (x, y) = point_of(pos.size, i);
        let e: i32 = expansion_at(pos, influence, x, y);
        r.push(e);
        i = i + 1;
    }
    r
}

/// A candidate move with the score that orders it and its value in the search.
#[derive(Clone, Copy)]
pub struct Candidate {
    pub x: i32,
    pub y: i32,
    pub score: i32,
    pub value: i32,
}

/// What stands around a point, as one side sees it.
#[verifier::ext_equal]
pub struct Around {
    /// Stones of the other side's neighbouring chains in atari.
    pub catch: int,
    /// Stones of the other side's neighbouring chains with two liberties.
    pub chase: int,
    /// A neighbouring chain of its own is in atari.
    pub atari: bool,
    /// Stones of its own neighbouring chains with two liberties.
    pub low: int,
    /// Empty neighbours.
    pub empties: int,
    /// There is a neighbouring stone of the other side.
    pub touch: bool,
}

/// What stands on the first `d` neighbours of `q`, as the side `me` sees it. A chain
/// counts once for each neighbour that belongs to it.
pub open spec fn around(p: Pos, v: Survey, me: u8, q: Pt, d: nat) -> Around
    decreases d,
{
    if d == 0 {
        Around { catch: 0, chase: 0, atari: false, low: 0, empties: 0, touch: false }
    } else {
        let a = around(p, v, me, q, (d - 1) as nat);
        let r = nb(q, d - 1);
        let i = idx(p.size, r);
        if !inb(p.size, r) {
            a
        } else if p.board[i] == EMPTY {
            Around { empties: a.empties + 1, ..a }
        } else if p.board[i] == foe(me) {
            if v.libs[i] == 1 {
                Around { catch: a.catch + v.size[i], touch: true, ..a }
            } else if v.libs[i] == 2 {
                Around { chase: a.chase + v.size[i], touch: true, ..a }
            } else {
                Around { touch: true, ..a }
            }
        } else {
            if v.libs[i] == 1 {
                Around { atari: true, ..a }
            } else if v.libs[i] == 2 {
                Around { low: a.low + v.size[i], ..a }
            } else {
                a
            }
        }
    }
}

/// Score for capturing and for chasing.
pub open spec fn fight_score(w: Style, a: Around) -> int {
    (if a.catch > 0 {
        (400 + 60 * min(a.catch, 12)) * (50 + w.attack) / 50
    } else {
        0
    }) + (if a.chase > 0 {
        (40 + 10 * min(a.chase, 12)) * (30 + w.attack) / 80
    } else {
        0
    })
}

/// Number of moves left of the opening.
pub open spec fn opening_left(k: Plan, p: Pos) -> int {
    if k.opening > p.move_count {
        k.opening - p.move_count
    } else {
        0
    }
}

/// Weight of the shape guidance in percent: full in the first half of the opening, then
/// fading.
pub open spec fn guide_factor(k: Plan, p: Pos) -> int {
    min(200 * opening_left(k, p) / k.opening as int, 100)
}

/// Number of lines between a point and the nearest edge.
pub open spec fn line_of(s: int, q: Pt) -> int {
    min(min(q.0 as int, q.1 as int), min(s - 1 - q.0, s - 1 - q.1))
}

/// Liking for the lines of the board in the opening.
pub open spec fn line_bonus(l: int) -> int {
    if l == 1 {
        -12
    } else if l == 2 || l == 3 {
        26
    } else if l == 4 {
        10
    } else {
        0
    }
}

/// Score for expansion, for reducing the influence of the other side, and for the shape
/// and line in the opening.
pub open spec fn area_score(k: Plan, p: Pos, influence: Seq<i32>, me: u8, i: int) -> int {
    let q = pt(p.size, i);
    let own = if me == BLACK {
        influence[i] as int
    } else {
        -influence[i]
    };
    let left = opening_left(k, p);
    let factor = guide_factor(k, p);
    expansion_map(p, influence)[i] * (k.style.territory + k.style.moyo) / 3800 + (if own < 0 {
        min(-own, 60) * (30 + k.style.attack) / 60
    } else {
        0
    }) + (if left > 0 {
        opening_guide(p, me, factor)[i] * factor / 100 + tdiv(
            line_bonus(line_of(p.size, q)) * 8 * left,
            k.opening as int,
        )
    } else {
        0
    })
}

/// The point deserves trying out: it may capture, rescue, or fill a liberty of its own.
pub open spec fn delicate(a: Around) -> bool {
    a.catch > 0 || a.atari || a.low > 0 || (a.touch && a.empties < 2) || a.empties == 0
}

/// Sum over the first `n` listed points of the size of the chain that stood there with
/// `libs` liberties.
pub open spec fn rescued(s: int, v: Survey, pts: Seq<Pt>, libs: int, n: nat) -> int
    decreases n,
{
    if n == 0 {
        0
    } else {
        let i = idx(s, pts[n - 1]);
        rescued(s, v, pts, libs, (n - 1) as nat) + if v.libs[i] == libs {
            v.size[i] as int
        } else {
            0
        }
    }
}

/// Score for what the move on `q` does to liberties: a penalty for putting its own
/// chain in atari, a reward for rescuing.
pub open spec fn trial_score(w: Style, p: Pos, v: Survey, q: Pt, a: Around) -> int {
    let r = play_result(p, q);
    let caps = captures(p.size, p.board, q, p.turn).len();
    let pts = block(r.size, r.board, q);
    let libs = liberties(r.size, r.board, q).len();
    let saved1 = rescued(p.size, v, pts, 1, pts.len());
    let saved2 = rescued(p.size, v, pts, 2, pts.len());
    (if libs == 1 && caps == 0 {
        -(200 + 30 * pts.len())
    } else if libs == 1 {
        -60int
    } else {
        0
    }) + (if (a.atari || a.low > 0) && libs >= 2 {
        if saved1 > 0 {
            (300 + 50 * min(saved1, 12)) * (50 + w.defence) / 50 - if libs == 2 {
                16int
            } else {
                0
            }
        } else if saved2 > 0 && libs >= 3 {
            (120 + 30 * min(saved2, 12)) * (50 + w.defence) / 50
        } else {
            0
        }
    } else {
        0
    })
}

/// What a search for candidates looks at: the plan, the position, its census and
/// influence, the size of the random disturbance, and whether only fighting moves count.
pub struct Outlook {
    pub plan: Plan,
    pub pos: Pos,
    pub survey: Survey,
    pub influence: Seq<i32>,
    pub noise: int,
    pub tactical: bool,
}

/// The point with index `i` is considered: it is empty, no eye of the side to move, and a
/// move there is legal.
pub open spec fn considered(o: Outlook, i: int) -> bool {
    let p = o.pos;
    let q = pt(p.size, i);
    &&& p.board[i] == EMPTY
    &&& !is_eye(p.size, p.board, q, p.turn)
    &&& play_code(p, q) == OK
}

/// A point with an empty neighbour is legal unless a ko bars it.
proof fn lemma_open_point(p: Pos, v: Survey, q: Pt, d: nat)
    requires
        pos_ok(p),
        inb(p.size, q),
        cell(p.size, p.board, q) == EMPTY,
        d <= 4,
        around(p, v, p.turn, q, d).empties != 0,
    ensures
        play_code(p, q) == OK <==> !(p.ko_active && q == p.ko),
    decreases d,
{
    let s = p.size;
    let r = nb(q, d - 1);
    if inb(s, r) && cell(s, p.board, r) == EMPTY {
        let b = board_after(s, p.board, q, p.turn);
        lemma_nb(s, q, r);
        lemma_after_cells(s, p.board, q, p.turn);
        lemma_stone_stays(s, p.board, q, p.turn);
        lemma_connected_refl(s, b, q);
        assert(cell(s, b, r) == EMPTY);
        assert(is_liberty(s, b, q, r));
    } else {
        lemma_open_point(p, v, q, (d - 1) as nat);
    }
}

/// Score of the point with index `i` before the random disturbance.
pub open spec fn merit(o: Outlook, i: int) -> int {
    let p = o.pos;
    let q = pt(p.size, i);
    let a = around(p, o.survey, p.turn, q, 4);
    fight_score(o.plan.style, a) + (if o.tactical {
        0
    } else {
        area_score(o.plan, p, o.influence, p.turn, i)
    }) + (if delicate(a) {
        trial_score(o.plan.style, p, o.survey, q, a)
    } else {
        0
    })
}

/// The candidates among the first `n` points and the random state after them, from the
/// state `seed`.
pub open spec fn gathered(o: Outlook, seed: u32, n: nat) -> (Seq<Candidate>, u32)
    decreases n,
{
    if n == 0 {
        (seq![], seed)
    } else {
        let prev = gathered(o, seed, (n - 1) as nat);
        let i = n - 1;
        let next = xorshift(prev.1);
        let q = pt(o.pos.size, i);
        let score = merit(o, i) + if o.noise > 0 {
            draw(next, o.noise * 2 + 1) - o.noise
        } else {
            0
        };
        let found = if o.tactical && score <= 0 {
            prev.0
        } else {
            prev.0.push(Candidate { x: q.0, y: q.1, score: score as i32, value: 0 })
        };
        if !considered(o, i) {
            prev
        } else if o.noise > 0 {
            (found, next)
        } else {
            (found, prev.1)
        }
    }
}

/// What stands around a point; see [`Around`].
struct Surroundings {
    catch: i32,
    chase: i32,
    atari: bool,
    low: i32,
    empties: i32,
    touch: bool,
}

impl View for Surroundings {
    type V = Around;

    closed spec fn view(&self) -> Around {
        Around {
            catch: self.catch as int,
            chase: self.chase as int,
            atari: self.atari,
            low: self.low as int,
            empties: self.empties as int,
            touch: self.touch,
        }
    }
}

/// Looks at the neighbours of (x, y) with the eyes of the side to move.
fn look_around(pos: &Position, c: &Census, x: i32, y: i32) -> (a: Surroundings)
    requires
        pos.wf(),
        survey_ok(c@),
        inb(pos@.size, (x, y)),
    ensures
        a@ == around(pos@, c@, pos@.turn, (x, y), 4),
        0 <= a@.catch <= 4 * CELLS,
        0 <= a@.chase <= 4 * CELLS,
        0 <= a@.low <= 4 * CELLS,
{
    let ghost p = pos@;
    let me: u8 = pos.turn;
    let opp: u8 = opponent(me);
    let mut a = Surroundings {
        catch: 0,
        chase: 0,
        atari: false,
        low: 0,
        empties: 0,
        touch: false,
    };
    let mut d: usize = 0;
    while d < 4
        invariant
            pos.wf(),
            p == pos@,
            survey_ok(c@),
            inb(p.size, (x, y)),
            me == p.turn,
            opp == foe(me),
            0 <= d <= 4,
            a@ == around(p, c@, me, (x, y), d as nat),
            0 <= a.catch <= d * CELLS,
            0 <= a.chase <= d * CELLS,
            0 <= a.low <= d * CELLS,
            0 <= a.empties <= d,
        decreases 4 - d,
    {
        let (nx, ny) = neighbour(x, y, d);
        if in_board(pos, nx, ny) {
            let at: usize = index_of(pos.size, nx, ny);
            let stone: u8 = pos.at(nx, ny);
            let libs: i32 = c.libs[at];
            let size: i32 = c.size[at];
            if stone == EMPTY {
                a.empties = a.empties + 1;
            } else if stone == opp {
                a.touch = true;
                if libs == 1 {
                    a.catch = a.catch + size;
                } else if libs == 2 {
                    a.chase = a.chase + size;
                }
            } else {
                if libs == 1 {
                    a.atari = true;
                } else if libs == 2 {
                    a.low = a.low + size;
                }
            }
        }
        d = d + 1;
    }
    a
}

/// Score for capturing and for chasing.
fn fight_points(w: &Style, a: &Surroundings) -> (r: i32)
    requires
        style_ok(*w),
        0 <= a@.catch <= 4 * CELLS,
        0 <= a@.chase <= 4 * CELLS,
    ensures
        r == fight_score(*w, a@),
        0 <= r <= 4000,
{
    let mut sc: i32 = 0;
    if a.catch > 0 {
        let m: i32 = if a.catch <= 12 {
            a.catch
        } else {
            12
        };
        proof {
            assert(0 <= (400 + 60 * m) * (50 + w.attack) <= 168000) by (nonlinear_arith)
                requires
                    0 <= m <= 12,
                    0 <= w.attack <= 100,
            ;
        }
        sc = sc + (400 + 60 * m) * (50 + w.attack) / 50;
    }
    if a.chase > 0 {
        let m: i32 = if a.chase <= 12 {
            a.chase
        } else {
            12
        };
        proof {
            assert(0 <= (40 + 10 * m) * (30 + w.attack) <= 20800) by (nonlinear_arith)
                requires
                    0 <= m <= 12,
                    0 <= w.attack <= 100,
            ;
        }
        sc = sc + (40 + 10 * m) * (30 + w.attack) / 80;
    }
    sc
}

/// Moves left of the opening, and the weight of the shape guidance.
fn opening_stage(k: &Plan, move_count: i32, Ghost(p): Ghost<Pos>) -> (r: (i32, i32))
    requires
        plan_ok(*k),
        0 <= move_count,
        p.move_count == move_count,
    ensures
        r.0 == opening_left(*k, p),
        r.1 == guide_factor(*k, p),
        0 <= r.0 <= k.opening,
        0 <= r.1 <= 100,
{
    let left: i32 = if k.opening > move_count {
        k.opening - move_count
    } else {
        0
    };
    let raw: i32 = 200 * left / k.opening;
    let factor: i32 = if raw <= 100 {
        raw
    } else {
        100
    };
    proof {
        assert(0 <= 200 * left / k.opening as int) by (nonlinear_arith)
            requires
                0 <= left,
                1 <= k.opening,
        ;
    }
    (left, factor)
}

/// Score for the line of a point in the opening.
fn line_points(k: &Plan, pos: &Position, x: i32, y: i32, left: i32) -> (r: i32)
    requires
        pos.wf(),
        plan_ok(*k),
        inb(pos@.size, (x, y)),
        0 < left <= k.opening,
    ensures
        r == tdiv(line_bonus(line_of(pos@.size, (x, y))) * 8 * left, k.opening as int),
        -96 <= r <= 208,
{
    let s: i32 = pos.size as i32;
    let a: i32 = if x <= y {
        x
    } else {
        y
    };
    let b: i32 = if s - 1 - x <= s - 1 - y {
        s - 1 - x
    } else {
        s - 1 - y
    };
    let l: i32 = if a <= b {
        a
    } else {
        b
    };
    let bonus: i32 = if l == 1 {
        -12
    } else if l == 2 || l == 3 {
        26
    } else if l == 4 {
        10
    } else {
        0
    };
    proof {
        let t = bonus * 8 * left;
        let n = k.opening as int;
        assert(-96 * n <= t <= 208 * n && (bonus >= 0 ==> t >= 0) && (bonus < 0 ==> t < 0))
            by (nonlinear_arith)
            requires
                t == bonus * 8 * left,
                -12 <= bonus <= 26,
                0 < left <= n,
        ;
        assert(t >= 0 ==> 0 <= t / n <= 208) by (nonlinear_arith)
            requires
                t <= 208 * n,
                n >= 1,
        ;
        assert(t < 0 ==> 0 <= (-t) / n <= 96) by (nonlinear_arith)
            requires
                -t <= 96 * n,
                n >= 1,
        ;
    }
    bonus * 8 * left / k.opening
}

/// Score for expansion, reduction, shape and line of the point with index `i`.
fn area_points(
    k: &Plan,
    pos: &Position,
    influence: &Vec<i32>,
    exp: &Vec<i32>,
    guide: &Vec<i32>,
    left: i32,
    factor: i32,
    i: usize,
) -> (r: i32)
    requires
        pos.wf(),
        plan_ok(*k),
        i < area(pos@.size),
        influence@.len() == CELLS,
        forall|j: int|
            0 <= j < area(pos@.size) ==> -14 * CELLS <= #[trigger] influence@[j] <= 14 * CELLS,
        exp@.len() == area(pos@.size),
        forall|j: int|
            0 <= j < exp@.len() ==> #[trigger] exp@[j] == expansion_map(pos@, influence@)[j] && 0
                <= exp@[j] <= 1764,
        left == opening_left(*k, pos@),
        factor == guide_factor(*k, pos@),
        0 <= left <= k.opening,
        0 <= factor <= 100,
        left > 0 ==> guide@ == opening_guide(pos@, pos@.turn, factor as int),
    ensures
        r == area_score(*k, pos@, influence@, pos@.turn, i as int),
        -1000 <= r <= 1000,
{
    let w: Style = k.style;
    let e: i32 = exp[i];
    proof {
        assert(0 <= e * (w.territory + w.moyo) <= 352800) by (nonlinear_arith)
            requires
                0 <= e <= 1764,
                0 <= w.territory <= 100,
                0 <= w.moyo <= 100,
        ;
    }
    let mut sc: i32 = e * (w.territory + w.moyo) / 3800;
    let raw: i32 = influence[i];
    let own: i32 = if pos.turn == BLACK {
        raw
    } else {
        -raw
    };
    if own < 0 {
        let m: i32 = if -own <= 60 {
            -own
        } else {
            60
        };
        proof {
            assert(0 <= m * (30 + w.attack) <= 7800) by (nonlinear_arith)
                requires
                    0 <= m <= 60,
                    0 <= w.attack <= 100,
            ;
        }
        sc = sc + m * (30 + w.attack) / 60;
    }
    if left > 0 {
        proof {
            law_guide_bounded(pos@, pos@.turn, factor as int, i as int);
        }
        let g: i32 = guide[i];
        proof {
            assert(0 <= g * factor <= 30000) by (nonlinear_arith)
                requires
                    0 <= g <= 300,
                    0 <= factor <= 100,
            ;
        }
        let (x, y) = point_of(pos.size, i);
        sc = sc + g * factor / 100;
        let l: i32 = line_points(k, pos, x, y, left);
        sc = sc + l;
    }
    sc
}

/// Sums of the sizes of the chains that stood on the listed points with one and with
/// two liberties.
fn sum_rescued(s: usize, c: &Census, pts: &Vec<(i32, i32)>) -> (r: (i32, i32))
    requires
        0 < s <= MAX,
        survey_ok(c@),
        pts@.len() <= CELLS,
        forall|j: int| 0 <= j < pts@.len() ==> inb(s as int, #[trigger] pts@[j]),
    ensures
        r.0 == rescued(s as int, c@, pts@, 1, pts@.len()),
        r.1 == rescued(s as int, c@, pts@, 2, pts@.len()),
        0 <= r.0,
        0 <= r.1,
{
    let mut one: i32 = 0;
    let mut two: i32 = 0;
    let mut k: usize = 0;
    while k < pts.len()
        invariant
            0 < s <= MAX,
            survey_ok(c@),
            pts@.len() <= CELLS,
            forall|j: int| 0 <= j < pts@.len() ==> inb(s as int, #[trigger] pts@[j]),
            0 <= k <= pts@.len(),
            one == rescued(s as int, c@, pts@, 1, k as nat),
            two == rescued(s as int, c@, pts@, 2, k as nat),
            0 <= one <= k * CELLS,
            0 <= two <= k * CELLS,
        decreases pts@.len() - k,
    {
        let (x, y) = pts[k];
        let at: usize = index_of(s, x, y);
        let libs: i32 = c.libs[at];
        let size: i32 = c.size[at];
        if libs == 1 {
            one = one + size;
        } else if libs == 2 {
            two = two + size;
        }
        k = k + 1;
    }
    (one, two)
}

/// Tries the move on (x, y) out: whether it is legal, and the score for what it does to
/// liberties. The position is left as it was.
fn try_out(pos: &mut Position, c: &Census, w: &Style, x: i32, y: i32, a: &Surroundings) -> (r: (
    bool,
    i32,
))
    requires
        old(pos).wf(),
        counters_fit(old(pos)@),
        survey_ok(c@),
        style_ok(*w),
        inb(old(pos)@.size, (x, y)),
    ensures
        final(pos).wf(),
        final(pos)@ == old(pos)@,
        r.0 <==> play_code(old(pos)@, (x, y)) == OK,
        r.0 ==> r.1 == trial_score(*w, old(pos)@, c@, (x, y), a@),
        -20000 <= r.1 <= 10000,
{
    let ghost p = pos@;
    let ghost q: Pt = (x, y);
    let (code, u) = try_play(pos, x, y);
    if code != OK {
        return (false, 0);
    }
    let ghost after = pos@;
    let caps: usize = u.captured.len();
    let g: Group = group_info(pos, x, y);
    proof {
        assert forall|j: int| 0 <= j < g.members@.len() implies inb(
            after.size,
            #[trigger] g.members@[j],
        ) by {
            assert(g.members@.contains(g.members@[j]));
        }
    }
    let libs: usize = g.libs.len();
    let mut sc: i32 = 0;
    if libs == 1 && caps == 0 {
        sc = sc - (200 + 30 * g.members.len() as i32);
    } else if libs == 1 {
        sc = sc - 60;
    }
    if (a.atari || a.low > 0) && libs >= 2 {
        let (one, two) = sum_rescued(pos.size, c, &g.members);
        if one > 0 {
            let m: i32 = if one <= 12 {
                one
            } else {
                12
            };
            proof {
                assert(0 <= (300 + 50 * m) * (50 + w.defence) <= 135000) by (nonlinear_arith)
                    requires
                        0 <= m <= 12,
                        0 <= w.defence <= 100,
                ;
            }
            sc = sc + (300 + 50 * m) * (50 + w.defence) / 50;
            if libs == 2 {
                sc = sc - 16;
            }
        } else if two > 0 && libs >= 3 {
            let m: i32 = if two <= 12 {
                two
            } else {
                12
            };
            proof {
                assert(0 <= (120 + 30 * m) * (50 + w.defence) <= 72000) by (nonlinear_arith)
                    requires
                        0 <= m <= 12,
                        0 <= w.defence <= 100,
                ;
            }
            sc = sc + (120 + 30 * m) * (50 + w.defence) / 50;
        }
    }
    proof {
        law_untry_undoes_try(p, q, u);
    }
    untry_play(pos, x, y, u);
    (true, sc)
}

/// Bound on the score of a candidate without disturbance.
pub const MERIT_LIMIT: i32 = 40000;

/// The candidate is a legal move on a point that is no eye of the side to move, and its
/// score is bounded.
pub open spec fn candidate_ok(p: Pos, c: Candidate, noise: int) -> bool {
    &&& play_code(p, (c.x, c.y)) == OK
    &&& !is_eye(p.size, p.board, (c.x, c.y), p.turn)
    &&& -MERIT_LIMIT - max(noise, 0) <= c.score <= MERIT_LIMIT + max(noise, 0)
}

pub open spec fn candidates_ok(p: Pos, v: Seq<Candidate>, noise: int) -> bool {
    forall|j: int| 0 <= j < v.len() ==> candidate_ok(p, #[trigger] v[j], noise)
}

/// Collects the candidates in the order of the points.
#[verifier::rlimit(40)]
fn gather(
    pos: &mut Position,
    c: &Census,
    influence: &Vec<i32>,
    k: &Plan,
    noise: i32,
    tactical_only: bool,
    seed: &mut u32,
) -> (r: Vec<Candidate>)
    requires
        old(pos).wf(),
        counters_fit(old(pos)@),
        survey_ok(c@),
        plan_ok(*k),
        noise <= 1000000000,
        influence@.len() == CELLS,
        forall|j: int|
            0 <= j < area(old(pos)@.size) ==> -14 * CELLS <= #[trigger] influence@[j] <= 14
                * CELLS,
    ensures
        final(pos).wf(),
        final(pos)@ == old(pos)@,
        ({
            let o = Outlook {
                plan: *k,
                pos: old(pos)@,
                survey: c@,
                influence: influence@,
                noise: noise as int,
                tactical: tactical_only,
            };
            (r@, *final(seed)) == gathered(o, *old(seed), area(old(pos)@.size) as nat)
        }),
        candidates_ok(old(pos)@, r@, noise as int),
        r@.len() <= area(old(pos)@.size),
{
    let ghost p = pos@;
    let ghost o = Outlook {
        plan: *k,
        pos: p,
        survey: c@,
        influence: influence@,
        noise: noise as int,
        tactical: tactical_only,
    };
    let n: usize = area_of(pos.size);
    let me: u8 = pos.turn;
    let mut exp: Vec<i32> = Vec::new();
    let mut guide: Vec<i32> = Vec::new();
    let (left, factor) = opening_stage(k, pos.move_count, Ghost(p));
    if !tactical_only {
        exp = build_exp(pos, influence);
        if left > 0 {
            guide = compute_opening_guide(pos, me, factor);
        }
    }
    let mut r: Vec<Candidate> = Vec::new();
    let mut i: usize = 0;
    while i < n
        invariant
            pos.wf(),
            pos@ == p,
            counters_fit(p),
            survey_ok(c@),
            plan_ok(*k),
            noise <= 1000000000,
            influence@.len() == CELLS,
            forall|j: int|
                0 <= j < area(p.size) ==> -14 * CELLS <= #[trigger] influence@[j] <= 14 * CELLS,
            o == (Outlook {
                plan: *k,
                pos: p,
                survey: c@,
                influence: influence@,
                noise: noise as int,
                tactical: tactical_only,
            }),
            me == p.turn,
            !tactical_only ==> exp@.len() == area(p.size) && forall|j: int|
                0 <= j < exp@.len() ==> #[trigger] exp@[j] == expansion_map(p, influence@)[j] && 0
                    <= exp@[j] <= 1764,
            left == opening_left(*k, p),
            factor == guide_factor(*k, p),
            0 <= left <= k.opening,
            0 <= factor <= 100,
            !tactical_only && left > 0 ==> guide@ == opening_guide(p, me, factor as int),
            n == area(p.size),
            n <= CELLS,
            0 <= i <= n,
            r@.len() <= i,
            (r@, *seed) == gathered(o, *old(seed), i as nat),
            candidates_ok(p, r@, noise as int),
        decreases n - i,
    {
        let (x, y) = point_of(pos.size, i);
        i = i + 1;
        if pos.board[i - 1] != EMPTY {
            continue;
        }
        if is_eye_for(pos, x, y, me) {
            continue;
        }
        let a: Surroundings = look_around(pos, c, x, y);
        let mut sc: i32 = fight_points(&k.style, &a);
        if !tactical_only {
            let e: i32 = area_points(k, pos, influence, &exp, &guide, left, factor, i - 1);
            sc = sc + e;
        }
        if a.catch > 0 || a.atari || a.low > 0 || (a.touch && a.empties < 2) || a.empties == 0 {
            let (legal, t) = try_out(pos, c, &k.style, x, y, &a);
            if !legal {
                continue;
            }
            sc = sc + t;
        } else {
            proof {
                lemma_open_point(p, c@, (x, y), 4);
            }
            if pos.ko_active && x == pos.ko_x && y == pos.ko_y {
                continue;
            }
        }
        if noise > 0 {
            let d: i32 = rng_below(seed, noise * 2 + 1);
            sc = sc + (d - noise);
        }
        if tactical_only && sc <= 0 {
            continue;
        }
        let found = Candidate { x, y, score: sc, value: 0 };
        r.push(found);
    }
    r
}

/// What a candidate is ranked by: its value in the search, or its score.
pub open spec fn key(c: Candidate, by_value: bool) -> int {
    if by_value {
        c.value as int
    } else {
        c.score as int
    }
}

/// Index of the first of the highest candidates from `i` up to but without `j`.
pub open spec fn top(v: Seq<Candidate>, by_value: bool, i: int, j: int) -> int
    decreases j - i,
{
    if j <= i + 1 {
        i
    } else {
        let b = top(v, by_value, i, j - 1);
        if key(v[j - 1], by_value) > key(v[b], by_value) {
            j - 1
        } else {
            b
        }
    }
}

pub open spec fn swapped(v: Seq<Candidate>, i: int, j: int) -> Seq<Candidate> {
    v.update(i, v[j]).update(j, v[i])
}

/// The list with its `k` highest candidates brought to the front, each swapped with the
/// one in its place.
pub open spec fn ranked(v: Seq<Candidate>, by_value: bool, k: nat) -> Seq<Candidate>
    decreases k,
{
    if k == 0 {
        v
    } else {
        let u = ranked(v, by_value, (k - 1) as nat);
        swapped(u, k - 1, top(u, by_value, k - 1, u.len() as int))
    }
}

proof fn lemma_top(v: Seq<Candidate>, by_value: bool, i: int, j: int)
    requires
        0 <= i < j <= v.len(),
    ensures
        i <= top(v, by_value, i, j) < j,
        forall|m: int|
            i <= m < j ==> key(#[trigger] v[m], by_value) <= key(
                v[top(v, by_value, i, j)],
                by_value,
            ),
    decreases j - i,
{
    if j > i + 1 {
        lemma_top(v, by_value, i, j - 1);
    }
}

/// Ranking keeps the candidates: none is lost, and none is added.
pub proof fn law_ranking_permutes(v: Seq<Candidate>, by_value: bool, k: nat)
    requires
        k <= v.len(),
    ensures
        ranked(v, by_value, k).len() == v.len(),
        ranked(v, by_value, k).to_multiset() == v.to_multiset(),
    decreases k,
{
    if k > 0 {
        law_ranking_permutes(v, by_value, (k - 1) as nat);
        let u = ranked(v, by_value, (k - 1) as nat);
        let j = top(u, by_value, k - 1, u.len() as int);
        lemma_top(u, by_value, k - 1, u.len() as int);
        lemma_swap_permutes(u, k - 1, j);
    }
}

proof fn lemma_swap_permutes(v: Seq<Candidate>, i: int, j: int)
    requires
        0 <= i < v.len(),
        0 <= j < v.len(),
    ensures
        swapped(v, i, j).to_multiset() == v.to_multiset(),
{
    broadcast use vstd::seq_lib::group_to_multiset_ensures;
    broadcast use vstd::multiset::group_multiset_axioms;

    if i != j {
        assert(v.to_multiset().contains(v[i]));
    }
}

/// The front of a ranked list falls, and nothing behind it is higher.
pub proof fn law_ranking_sorts(v: Seq<Candidate>, by_value: bool, k: nat, i: int, j: int)
    requires
        k <= v.len(),
        0 <= i < k,
        i < j < v.len(),
    ensures
        key(ranked(v, by_value, k)[i], by_value) >= key(ranked(v, by_value, k)[j], by_value),
{
    lemma_front(v, by_value, k);
}

proof fn lemma_front(v: Seq<Candidate>, by_value: bool, k: nat)
    requires
        k <= v.len(),
    ensures
        ranked(v, by_value, k).len() == v.len(),
        forall|i: int, j: int|
            0 <= i < k && i < j < v.len() ==> key(
                #[trigger] ranked(v, by_value, k)[i],
                by_value,
            ) >= key(#[trigger] ranked(v, by_value, k)[j], by_value),
    decreases k,
{
    if k > 0 {
        lemma_front(v, by_value, (k - 1) as nat);
        let u = ranked(v, by_value, (k - 1) as nat);
        lemma_top(u, by_value, k - 1, u.len() as int);
    }
}

/// Every candidate of a ranked list was in the list.
pub proof fn lemma_ranked_from(v: Seq<Candidate>, by_value: bool, k: nat, i: int)
    requires
        k <= v.len(),
        0 <= i < v.len(),
    ensures
        ranked(v, by_value, k).len() == v.len(),
        v.contains(ranked(v, by_value, k)[i]),
    decreases k,
{
    if k > 0 {
        let u = ranked(v, by_value, (k - 1) as nat);
        lemma_ranked_from(v, by_value, (k - 1) as nat, i);
        lemma_top(u, by_value, k - 1, u.len() as int);
        let b = top(u, by_value, k - 1, u.len() as int);
        lemma_ranked_from(v, by_value, (k - 1) as nat, b);
        lemma_ranked_from(v, by_value, (k - 1) as nat, k - 1);
    }
}

/// Ranking keeps the properties of candidates.
pub proof fn lemma_ranked_ok(p: Pos, v: Seq<Candidate>, noise: int, by_value: bool, k: nat)
    requires
        k <= v.len(),
        candidates_ok(p, v, noise),
    ensures
        candidates_ok(p, ranked(v, by_value, k), noise),
        ranked(v, by_value, k).len() == v.len(),
{
    law_ranking_permutes(v, by_value, k);
    assert forall|i: int| 0 <= i < v.len() implies candidate_ok(
        p,
        #[trigger] ranked(v, by_value, k)[i],
        noise,
    ) by {
        lemma_ranked_from(v, by_value, k, i);
    }
}

/// Brings the `k` highest candidates to the front.
pub fn rank(v: &mut Vec<Candidate>, k: usize, by_value: bool)
    requires
        k <= old(v)@.len(),
    ensures
        final(v)@ == ranked(old(v)@, by_value, k as nat),
        final(v)@.len() == old(v)@.len(),
{
    let ghost v0 = v@;
    let n: usize = v.len();
    let mut i: usize = 0;
    while i < k
        invariant
            k <= n,
            n == v@.len(),
            n == v0.len(),
            0 <= i <= k,
            v@ == ranked(v0, by_value, i as nat),
        decreases k - i,
    {
        let mut best: usize = i;
        let mut j: usize = i + 1;
        while j < n
            invariant
                n == v@.len(),
                i < n,
                i < j <= n,
                i <= best < j,
                best == top(v@, by_value, i as int, j as int),
            decreases n - j,
        {
            let higher: bool = if by_value {
                v[j].value > v[best].value
            } else {
                v[j].score > v[best].score
            };
            if higher {
                best = j;
            }
            j = j + 1;
        }
        let a: Candidate = v[i];
        let b: Candidate = v[best];
        v.set(i, b);
        v.set(best, a);
        i = i + 1;
    }
}

/// The candidates with the best `w` in front, and the random state after them.
pub open spec fn candidates(o: Outlook, w: int, seed: u32) -> (Seq<Candidate>, u32) {
    let r = gathered(o, seed, area(o.pos.size) as nat);
    (ranked(r.0, false, min(w, r.0.len() as int) as nat), r.1)
}

/// Finds and scores the candidates of the side to move, the best `w` in front in
/// falling order. With `noise` above 0 each score is disturbed at random by up to
/// `noise`; with `tactical_only` only moves with something to fight for are kept.
pub fn gen_candidates(
    pos: &mut Position,
    c: &Census,
    influence: &Vec<i32>,
    k: &Plan,
    w: usize,
    noise: i32,
    tactical_only: bool,
    seed: &mut u32,
) -> (r: Vec<Candidate>)
    requires
        old(pos).wf(),
        counters_fit(old(pos)@),
        survey_ok(c@),
        plan_ok(*k),
        noise <= 1000000000,
        influence@.len() == CELLS,
        forall|j: int|
            0 <= j < area(old(pos)@.size) ==> -14 * CELLS <= #[trigger] influence@[j] <= 14
                * CELLS,
    ensures
        final(pos).wf(),
        final(pos)@ == old(pos)@,
        ({
            let o = Outlook {
                plan: *k,
                pos: old(pos)@,
                survey: c@,
                influence: influence@,
                noise: noise as int,
                tactical: tactical_only,
            };
            (r@, *final(seed)) == candidates(o, w as int, *old(seed))
        }),
        candidates_ok(old(pos)@, r@, noise as int),
        r@.len() <= CELLS,
{
    let mut r: Vec<Candidate> = gather(pos, c, influence, k, noise, tactical_only, seed);
    let m: usize = if w <= r.len() {
        w
    } else {
        r.len()
    };
    proof {
        lemma_ranked_ok(pos@, r@, noise as int, false, m as nat);
    }
    rank(&mut r, m, false);
    r
}

} // verus!
