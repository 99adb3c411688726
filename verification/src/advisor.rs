//! The searching opponent: its settings, and the choice of a move.

use crate::board::{
    area, area_of, cell, group_points, inb, point_of, pos_ok, pt, Pos, Position, Pt, BLACK, CELLS,
    EMPTY, MAX, OK, WHITE,
};
use crate::candidates::{
    candidates, candidates_ok, gen_candidates, lemma_ranked_from, min, plan_ok, rank, ranked,
    Candidate, Outlook, Plan, MAX_WIDTH,
};
use crate::census::{scan_groups, survey, survey_ok, Census, Survey};
use crate::chain::{group_info, is_eye, is_eye_for, liberties, Group};
use crate::estimate::{assess, assessed, Estimate};
use crate::game::{
    advisor_ok, snap_ok, state_ok, study_ok, Advisor, Ai, Analysis, Game, State, Study, Style,
    SCORE_LIMIT,
};
use crate::history::hist_ok;
use crate::opening::max;
use crate::reading::{has_point, lemma_read_ops, read, read_cap, room};
use crate::record::{traced, NOWHERE};
use crate::rules::{
    captures, counters_fit, law_untry_undoes_try, play_code, play_result, try_play, untry_play,
};
use crate::search::{
    calm, eval_leaf, lead, lead_of, leaf_value, lemma_calm, lemma_tree_size, search, sought, Trace,
    VALUE_LIMIT, WORST,
};
use vstd::prelude::*;

verus! {

broadcast use group_points;

/// Advice to pass.
pub const ACTION_PASS: i32 = 0;

/// Advice to play.
pub const ACTION_PLAY: i32 = 1;

/// Advice to resign.
pub const ACTION_RESIGN: i32 = 2;

/// The random state that takes the place of 0.
pub const DEFAULT_SEED: u32 = 0x9E37_79B9;

/// Number of positions that reading at the root examines.
pub const ROOT_BUDGET: i32 = 600;

/// Most urgent points that are collected.
pub const URGENT_POINTS: usize = 8;

/// Ordering score of an urgent point.
pub const URGENT_SCORE: i32 = 10000;

/// `v` held to the range from `lo` to `hi`.
pub open spec fn held_to(v: int, lo: int, hi: int) -> int {
    if v < lo {
        lo
    } else if v > hi {
        hi
    } else {
        v
    }
}

/// `v` held to the range from `lo` to `hi`.
fn clamp(v: i32, lo: i32, hi: i32) -> (r: i32)
    requires
        lo <= hi,
    ensures
        r == held_to(v as int, lo as int, hi as int),
{
    if v < lo {
        lo
    } else if v > hi {
        hi
    } else {
        v
    }
}

/// Sets the strength, 0 for off and 1 to 10, and the style weights, 0 to 100. Values
/// beyond the ranges are held to them.
pub fn ugo_ai_config(g: &mut Game, level: i32, atk: i32, def: i32, ter: i32, moyo: i32)
    requires
        old(g).wf(),
    ensures
        final(g).wf(),
        final(g)@ == (State {
            ai: Advisor {
                level: held_to(level as int, 0, 10),
                style: Style {
                    attack: held_to(atk as int, 0, 100) as i32,
                    defence: held_to(def as int, 0, 100) as i32,
                    territory: held_to(ter as int, 0, 100) as i32,
                    moyo: held_to(moyo as int, 0, 100) as i32,
                },
                ..old(g)@.ai
            },
            ..old(g)@
        }),
{
    g.ai.level = clamp(level, 0, 10);
    g.ai.style = Style {
        attack: clamp(atk, 0, 100),
        defence: clamp(def, 0, 100),
        territory: clamp(ter, 0, 100),
        moyo: clamp(moyo, 0, 100),
    };
}

/// Sets the random state; 0 is replaced by a fixed state.
pub fn ugo_ai_set_seed(g: &mut Game, seed: u32)
    requires
        old(g).wf(),
    ensures
        final(g).wf(),
        final(g)@ == (State {
            ai: Advisor {
                seed: if seed == 0 {
                    DEFAULT_SEED
                } else {
                    seed
                },
                ..old(g)@.ai
            },
            ..old(g)@
        }),
{
    g.ai.seed = if seed == 0 {
        DEFAULT_SEED
    } else {
        seed
    };
}

/// The last advice: 0 for a pass, 1 for a move, 2 for a resignation.
pub fn ugo_ai_action(g: &Game) -> (r: i32)
    ensures
        r == g@.ai.action,
{
    g.ai.action
}

/// Column of the advised move, or -1.
pub fn ugo_ai_x(g: &Game) -> (r: i32)
    ensures
        r == g@.ai.x,
{
    g.ai.x
}

/// Row of the advised move, or -1.
pub fn ugo_ai_y(g: &Game) -> (r: i32)
    ensures
        r == g@.ai.y,
{
    g.ai.y
}

/// Number of candidates that the last search weighed.
pub fn ugo_dbg_n(g: &Game) -> (r: i32)
    requires
        g.wf(),
    ensures
        r == g@.ai.rc_n,
{
    g.ai.rc_n as i32
}

/// The candidate with index `i` as `(x * 100 + y) * 100000` plus its ordering score, or
/// -1 if there is none.
pub fn ugo_dbg_xy(g: &Game, i: i32) -> (r: i32)
    requires
        g.wf(),
    ensures
        r == if 0 <= i < g@.ai.rc_n {
            (g@.ai.rc_x[i as int] * 100 + g@.ai.rc_y[i as int]) * 100000 + g@.ai.rc_sc[i as int]
        } else {
            -1
        },
{
    if i >= 0 && (i as usize) < g.ai.rc_n {
        let k: usize = i as usize;
        (g.ai.rc_x[k] * 100 + g.ai.rc_y[k]) * 100000 + g.ai.rc_sc[k]
    } else {
        -1
    }
}

/// Value that the search found for the candidate with index `i`, or -1 if there is none.
pub fn ugo_dbg_v(g: &Game, i: i32) -> (r: i32)
    requires
        g.wf(),
    ensures
        r == if 0 <= i < g@.ai.rc_n {
            g@.ai.rc_vb[i as int] as int
        } else {
            -1
        },
{
    if i >= 0 && (i as usize) < g.ai.rc_n {
        g.ai.rc_vb[i as usize]
    } else {
        -1
    }
}

/// Index of the first candidate on (x, y) from `i` on, or the number of candidates.
pub open spec fn first_on(a: Advisor, x: i32, y: i32, i: int) -> int
    decreases a.rc_n - i,
{
    if i >= a.rc_n || (a.rc_x[i] == x && a.rc_y[i] == y) {
        i
    } else {
        first_on(a, x, y, i + 1)
    }
}

/// Value of the first candidate on (x, y) times 100000 plus its ordering score, modulo
/// 32 bits, or -1 if there is none.
pub fn ugo_dbg_probe(g: &Game, x: i32, y: i32) -> (r: i32)
    requires
        g.wf(),
    ensures
        ({
            let i = first_on(g@.ai, x, y, 0);
            r == if i < g@.ai.rc_n {
                g@.ai.rc_vb[i].wrapping_mul(100000).wrapping_add(g@.ai.rc_sc[i])
            } else {
                NOWHERE
            }
        }),
{
    let mut i: usize = 0;
    while i < g.ai.rc_n
        invariant
            g.wf(),
            0 <= i <= g@.ai.rc_n,
            first_on(g@.ai, x, y, i as int) == first_on(g@.ai, x, y, 0),
        decreases g@.ai.rc_n - i,
    {
        if g.ai.rc_x[i] == x && g.ai.rc_y[i] == y {
            return g.ai.rc_vb[i].wrapping_mul(100000).wrapping_add(g.ai.rc_sc[i]);
        }
        i = i + 1;
    }
    -1
}

/// Number of positions that the last search visited.
pub fn ugo_dbg_nodes(g: &Game) -> (r: i32)
    ensures
        r == g@.ai.nodes,
{
    g.ai.nodes
}

/// Value of the position for the side to move in eighths of a point.
pub fn ugo_dbg_eval(g: &mut Game) -> (r: i32)
    requires
        old(g).wf(),
        calm(old(g)@.rule, old(g)@.pos, 4),
    ensures
        final(g).wf(),
        ({
            let v = leaf_value(
                old(g)@.rule,
                old(g)@.ai.style.moyo as int,
                old(g)@.pos,
                old(g)@.analysis,
            );
            r == v.0 && final(g)@ == (State { analysis: v.1, ..old(g)@ })
        }),
{
    eval_leaf(&mut g.pos, g.rule, g.ai.style.moyo, &mut g.analysis)
}

/// What a strength stands for.
#[derive(Clone, Copy)]
pub struct Setting {
    pub depth: i32,
    pub w0: usize,
    pub w1: usize,
    pub w2: usize,
    pub w3: usize,
    /// Random disturbance of the scores at the root.
    pub noise: i32,
    /// Depth to which chains are read at the root.
    pub read_depth: i32,
    pub budget: i32,
}

/// What the strength `level` stands for.
pub open spec fn setting_of(level: int) -> Setting {
    if level == 1 {
        Setting { depth: 1, w0: 10, w1: 0, w2: 0, w3: 0, noise: 160, read_depth: 0, budget: 300 }
    } else if level == 2 {
        Setting { depth: 1, w0: 14, w1: 0, w2: 0, w3: 0, noise: 96, read_depth: 2, budget: 400 }
    } else if level == 3 {
        Setting { depth: 2, w0: 12, w1: 8, w2: 0, w3: 0, noise: 64, read_depth: 4, budget: 700 }
    } else if level == 4 {
        Setting { depth: 2, w0: 14, w1: 9, w2: 0, w3: 0, noise: 40, read_depth: 5, budget: 900 }
    } else if level == 5 {
        Setting { depth: 3, w0: 14, w1: 10, w2: 8, w3: 0, noise: 24, read_depth: 6, budget: 1600 }
    } else if level == 6 {
        Setting { depth: 3, w0: 18, w1: 12, w2: 9, w3: 0, noise: 12, read_depth: 7, budget: 2400 }
    } else if level == 7 {
        Setting { depth: 4, w0: 14, w1: 11, w2: 8, w3: 0, noise: 0, read_depth: 8, budget: 3600 }
    } else if level == 8 {
        Setting { depth: 4, w0: 18, w1: 13, w2: 9, w3: 0, noise: 4, read_depth: 9, budget: 5500 }
    } else if level == 9 {
        Setting { depth: 5, w0: 16, w1: 12, w2: 9, w3: 6, noise: 3, read_depth: 10, budget: 8000 }
    } else {
        Setting {
            depth: 5,
            w0: 22,
            w1: 16,
            w2: 12,
            w3: 9,
            noise: 2,
            read_depth: 12,
            budget: 12000,
        }
    }
}

/// What the strength `level` stands for.
fn setting(level: i32) -> (r: Setting)
    ensures
        r == setting_of(level as int),
{
    if level == 1 {
        Setting { depth: 1, w0: 10, w1: 0, w2: 0, w3: 0, noise: 160, read_depth: 0, budget: 300 }
    } else if level == 2 {
        Setting { depth: 1, w0: 14, w1: 0, w2: 0, w3: 0, noise: 96, read_depth: 2, budget: 400 }
    } else if level == 3 {
        Setting { depth: 2, w0: 12, w1: 8, w2: 0, w3: 0, noise: 64, read_depth: 4, budget: 700 }
    } else if level == 4 {
        Setting { depth: 2, w0: 14, w1: 9, w2: 0, w3: 0, noise: 40, read_depth: 5, budget: 900 }
    } else if level == 5 {
        Setting { depth: 3, w0: 14, w1: 10, w2: 8, w3: 0, noise: 24, read_depth: 6, budget: 1600 }
    } else if level == 6 {
        Setting { depth: 3, w0: 18, w1: 12, w2: 9, w3: 0, noise: 12, read_depth: 7, budget: 2400 }
    } else if level == 7 {
        Setting { depth: 4, w0: 14, w1: 11, w2: 8, w3: 0, noise: 0, read_depth: 8, budget: 3600 }
    } else if level == 8 {
        Setting { depth: 4, w0: 18, w1: 13, w2: 9, w3: 0, noise: 4, read_depth: 9, budget: 5500 }
    } else if level == 9 {
        Setting { depth: 5, w0: 16, w1: 12, w2: 9, w3: 6, noise: 3, read_depth: 10, budget: 8000 }
    } else {
        Setting {
            depth: 5,
            w0: 22,
            w1: 16,
            w2: 12,
            w3: 9,
            noise: 2,
            read_depth: 12,
            budget: 12000,
        }
    }
}

/// The plan of a search under the given setting.
pub open spec fn plan_of(t: Setting, rule: u8, style: Style, s: int) -> Plan {
    Plan {
        rule,
        style,
        depth: t.depth,
        w0: t.w0,
        w1: t.w1,
        w2: t.w2,
        w3: t.w3,
        budget: t.budget,
        opening: max(area(s) / 5, 1) as i32,
    }
}

/// Where the chain on `q` gets out of atari: its last liberty, if playing there is legal
/// and gives two liberties or captures.
pub open spec fn way_out(p: Pos, q: Pt) -> Option<Pt> {
    let libs = liberties(p.size, p.board, q);
    let e = libs[0];
    let r = play_result(p, e);
    if libs.len() >= 1 && play_code(p, e) == OK && (liberties(r.size, r.board, e).len() >= 2
        || captures(p.size, p.board, e, p.turn).len() > 0) {
        Some(e)
    } else {
        None
    }
}

pub open spec fn with_point(v: Seq<Pt>, e: Pt) -> Seq<Pt> {
    if v.contains(e) {
        v
    } else {
        v.push(e)
    }
}

/// Urgent points by the chains in atari on the first `n` points, at most eight, and the
/// number of positions read: where a chain of the side to move that can be saved gets
/// out, and where one of the other side can legally be captured.
pub open spec fn urgent(p: Pos, v: Survey, depth: nat, n: nat) -> (Seq<Pt>, int)
    decreases n,
{
    if n == 0 {
        (seq![], 0)
    } else {
        let prev = urgent(p, v, depth, (n - 1) as nat);
        let i = n - 1;
        let q = pt(p.size, i);
        if prev.0.len() >= URGENT_POINTS || p.board[i] == EMPTY || v.libs[i] != 1 {
            prev
        } else if p.board[i] == p.turn {
            let lost = read(p, q, depth, false, prev.1, ROOT_BUDGET as int);
            match way_out(p, q) {
                Some(e) if !lost.0 => (with_point(prev.0, e), lost.1),
                _ => (prev.0, lost.1),
            }
        } else {
            let libs = liberties(p.size, p.board, q);
            if libs.len() >= 1 && play_code(p, libs[0]) == OK {
                (with_point(prev.0, libs[0]), prev.1)
            } else {
                prev
            }
        }
    }
}

/// Points on which the side to move may play.
pub open spec fn legal_points(p: Pos, v: Seq<Pt>) -> bool {
    forall|j: int| 0 <= j < v.len() ==> play_code(p, #[trigger] v[j]) == OK
}

/// Whether the side to move may play on (x, y). The position is left as it was.
fn may_play(pos: &mut Position, x: i32, y: i32) -> (r: bool)
    requires
        old(pos).wf(),
        counters_fit(old(pos)@),
    ensures
        final(pos).wf(),
        final(pos)@ == old(pos)@,
        r <==> play_code(old(pos)@, (x, y)) == OK,
{
    let ghost p = pos@;
    let (code, u) = try_play(pos, x, y);
    if code != OK {
        return false;
    }
    proof {
        law_untry_undoes_try(p, (x, y), u);
    }
    untry_play(pos, x, y, u);
    true
}

/// Where the chain on (x, y) gets out of atari.
fn find_way_out(pos: &mut Position, x: i32, y: i32) -> (r: Option<(i32, i32)>)
    requires
        old(pos).wf(),
        inb(old(pos)@.size, (x, y)),
        cell(old(pos)@.size, old(pos)@.board, (x, y)) != EMPTY,
        counters_fit(old(pos)@),
    ensures
        final(pos).wf(),
        final(pos)@ == old(pos)@,
        r == way_out(old(pos)@, (x, y)),
{
    let ghost p = pos@;
    let g: Group = group_info(pos, x, y);
    if g.libs.len() < 1 {
        return None;
    }
    let (ex, ey) = g.libs[0];
    let ghost e: Pt = (ex, ey);
    proof {
        assert(g.libs@.contains(e));
    }
    let (code, u) = try_play(pos, ex, ey);
    if code != OK {
        return None;
    }
    let after: Group = group_info(pos, ex, ey);
    let caps: usize = u.captured.len();
    proof {
        law_untry_undoes_try(p, e, u);
    }
    untry_play(pos, ex, ey, u);
    if after.libs.len() >= 2 || caps > 0 {
        Some((ex, ey))
    } else {
        None
    }
}

/// Collects the urgent points from the census of the position.
#[verifier::rlimit(40)]
fn find_urgent(pos: &mut Position, c: &Census, depth: i32) -> (r: Vec<(i32, i32)>)
    requires
        old(pos).wf(),
        survey_ok(c@),
        1 <= depth <= 12,
        room(old(pos)@, depth as int),
    ensures
        final(pos).wf(),
        final(pos)@ == old(pos)@,
        r@ == urgent(old(pos)@, c@, depth as nat, area(old(pos)@.size) as nat).0,
        legal_points(old(pos)@, r@),
        r@.len() <= URGENT_POINTS,
{
    let ghost p = pos@;
    let n: usize = area_of(pos.size);
    let me: u8 = pos.turn;
    let mut r: Vec<(i32, i32)> = Vec::new();
    let mut ops: i32 = 0;
    let mut i: usize = 0;
    while i < n
        invariant
            pos.wf(),
            pos@ == p,
            survey_ok(c@),
            1 <= depth <= 12,
            room(p, depth as int),
            me == p.turn,
            n == area(p.size),
            n <= CELLS,
            0 <= i <= n,
            0 <= ops <= ROOT_BUDGET + 8 * depth + i,
            (r@, ops as int) == urgent(p, c@, depth as nat, i as nat),
            legal_points(p, r@),
            r@.len() <= URGENT_POINTS,
        decreases n - i,
    {
        let (x, y) = point_of(pos.size, i);
        let ghost q: Pt = (x, y);
        let stone: u8 = pos.board[i];
        proof {
            assert(((i + 1) as nat - 1) as nat == i as nat);
            assert(p.board[i as int] <= WHITE);
        }
        if r.len() < URGENT_POINTS && stone != EMPTY && c.libs[i] == 1 {
            if stone == me {
                proof {
                    lemma_read_ops(p, q, depth as nat, false, ops as int, ROOT_BUDGET as int);
                }
                let lost: bool = read_cap(pos, x, y, depth, false, &mut ops, ROOT_BUDGET);
                if !lost {
                    if let Some((ex, ey)) = find_way_out(pos, x, y) {
                        if !has_point(&r, ex, ey) {
                            r.push((ex, ey));
                        }
                    }
                }
            } else {
                let g: Group = group_info(pos, x, y);
                if g.libs.len() >= 1 {
                    let (ex, ey) = g.libs[0];
                    if may_play(pos, ex, ey) && !has_point(&r, ex, ey) {
                        r.push((ex, ey));
                    }
                }
            }
        }
        i = i + 1;
    }
    r
}

/// The candidate at the root is a legal move, and its score is bounded.
pub open spec fn root_ok(p: Pos, c: Candidate) -> bool {
    &&& play_code(p, (c.x, c.y)) == OK
    &&& -SCORE_LIMIT <= c.score <= SCORE_LIMIT
}

/// Candidates at the root.
pub open spec fn roots_ok(p: Pos, v: Seq<Candidate>) -> bool {
    &&& 1 <= v.len() <= MAX_WIDTH
    &&& forall|j: int| 0 <= j < v.len() ==> root_ok(p, #[trigger] v[j])
}

/// Searches the candidates from `i` on, all of them legal: their values are entered, and
/// the best value and the index that has it first are kept.
pub open spec fn layer(
    k: Plan,
    p: Pos,
    v: Seq<Candidate>,
    i: int,
    best_v: int,
    best_i: int,
    t: Trace,
) -> (Seq<Candidate>, int, int, Trace)
    decreases v.len() - i,
{
    if i < 0 || i >= v.len() {
        (v, best_v, best_i, t)
    } else {
        let q: Pt = (v[i].x, v[i].y);
        let r = sought(k, play_result(p, q), k.depth - 1, WORST as int, -best_v, 0, t);
        let value = -r.0;
        let w = v.update(i, Candidate { value: value as i32, ..v[i] });
        if value > best_v {
            layer(k, p, w, i + 1, value, i, r.1)
        } else {
            layer(k, p, w, i + 1, best_v, best_i, r.1)
        }
    }
}

/// Searches every candidate to the depth of the plan and enters its value. Returns the
/// best value and the index that has it first.
#[verifier::rlimit(40)]
fn search_layer(
    pos: &mut Position,
    k: &Plan,
    v: &mut Vec<Candidate>,
    nodes: &mut i32,
    a: &mut Analysis,
) -> (r: (i32, usize))
    requires
        old(pos).wf(),
        plan_ok(*k),
        1 <= k.depth <= 5,
        roots_ok(old(pos)@, old(v)@),
        0 <= *old(nodes) <= 1000000000,
        study_ok(old(a)@),
        calm(k.rule, old(pos)@, 9),
    ensures
        final(pos).wf(),
        final(pos)@ == old(pos)@,
        roots_ok(old(pos)@, final(v)@),
        final(v)@.len() == old(v)@.len(),
        study_ok(final(a)@),
        (
            final(v)@,
            r.0 as int,
            r.1 as int,
            Trace { nodes: *final(nodes) as int, study: final(a)@ },
        ) == layer(
            *k,
            old(pos)@,
            old(v)@,
            0,
            WORST as int,
            0,
            Trace { nodes: *old(nodes) as int, study: old(a)@ },
        ),
        -VALUE_LIMIT <= r.0 <= VALUE_LIMIT,
        r.1 < final(v)@.len(),
        *old(nodes) <= *final(nodes) <= *old(nodes) + 6000000,
{
    let ghost p = pos@;
    let ghost result = layer(
        *k,
        p,
        v@,
        0,
        WORST as int,
        0,
        Trace { nodes: *nodes as int, study: a@ },
    );
    let ghost nodes0 = *nodes as int;
    let n: usize = v.len();
    let mut best_v: i32 = WORST;
    let mut best_i: usize = 0;
    let mut i: usize = 0;
    while i < n
        invariant
            pos.wf(),
            pos@ == p,
            pos_ok(p),
            plan_ok(*k),
            1 <= k.depth <= 5,
            roots_ok(p, v@),
            n == v@.len(),
            n == old(v)@.len(),
            0 <= i <= n,
            best_i < n,
            -VALUE_LIMIT <= best_v <= VALUE_LIMIT,
            0 <= nodes0 <= 1000000000,
            nodes0 <= *nodes <= nodes0 + 245411 * i,
            study_ok(a@),
            calm(k.rule, p, 9),
            layer(
                *k,
                p,
                v@,
                i as int,
                best_v as int,
                best_i as int,
                Trace { nodes: *nodes as int, study: a@ },
            ) == result,
        decreases n - i,
    {
        let mut m: Candidate = v[i];
        proof {
            lemma_calm(k.rule, p, (m.x, m.y), 9);
            lemma_tree_size();
        }
        let (_code, u) = try_play(pos, m.x, m.y);
        proof {
            law_untry_undoes_try(p, (m.x, m.y), u);
        }
        let value: i32 = -search(pos, k, k.depth - 1, WORST, -best_v, 0, nodes, a);
        untry_play(pos, m.x, m.y, u);
        m.value = value;
        if value > best_v {
            best_v = value;
            best_i = i;
        }
        v.set(i, m);
        proof {
            assert(forall|j: int| 0 <= j < v@.len() ==> root_ok(p, #[trigger] v@[j]));
        }
        i = i + 1;
    }
    (best_v, best_i)
}

/// The state of a search that goes deeper layer by layer: the candidates in the order and
/// with the values of the last complete layer, the index and value of its best, and the
/// trace.
#[verifier::ext_equal]
pub struct Deepening {
    pub moves: Seq<Candidate>,
    pub best_i: int,
    pub best_v: int,
    pub trace: Trace,
}

/// The candidates in the order in which the layer of depth `d` searches them: from the
/// second layer on by the values of the layer before.
pub open spec fn layer_order(start: int, d: int, moves: Seq<Candidate>) -> Seq<Candidate> {
    if d > start {
        ranked(moves, true, moves.len())
    } else {
        moves
    }
}

/// Goes on from depth `d` to the depth of the plan. A layer short of the last that exceeds
/// the budget ends the search, and what the layers before it found is kept.
pub open spec fn deepened(k: Plan, p: Pos, start: int, d: int, s: Deepening) -> Deepening
    decreases k.depth - d + 1,
{
    if d > k.depth {
        s
    } else {
        let r = layer(
            Plan { depth: d as i32, ..k },
            p,
            layer_order(start, d, s.moves),
            0,
            WORST as int,
            0,
            s.trace,
        );
        if r.3.nodes > k.budget && d < k.depth {
            Deepening { trace: r.3, ..s }
        } else {
            deepened(
                k,
                p,
                start,
                d + 1,
                Deepening { moves: r.0, best_i: r.2, best_v: r.1, trace: r.3 },
            )
        }
    }
}

/// Depth of the first layer.
pub open spec fn first_layer(depth: int) -> int {
    if depth >= 3 {
        2
    } else {
        depth
    }
}

/// Searches the candidates layer by layer. Returns the index and the value of the best of
/// the last complete layer, and leaves the candidates as that layer left them.
#[verifier::rlimit(40)]
fn deepen(
    pos: &mut Position,
    k: &Plan,
    v: &mut Vec<Candidate>,
    nodes: &mut i32,
    a: &mut Analysis,
) -> (r: (usize, i32))
    requires
        old(pos).wf(),
        plan_ok(*k),
        1 <= k.depth,
        roots_ok(old(pos)@, old(v)@),
        *old(nodes) == 0,
        study_ok(old(a)@),
        calm(k.rule, old(pos)@, 9),
    ensures
        final(pos).wf(),
        final(pos)@ == old(pos)@,
        roots_ok(old(pos)@, final(v)@),
        final(v)@.len() == old(v)@.len(),
        study_ok(final(a)@),
        (Deepening {
            moves: final(v)@,
            best_i: r.0 as int,
            best_v: r.1 as int,
            trace: Trace { nodes: *final(nodes) as int, study: final(a)@ },
        }) == deepened(
            *k,
            old(pos)@,
            first_layer(k.depth as int),
            first_layer(k.depth as int),
            (Deepening {
                moves: old(v)@,
                best_i: 0,
                best_v: WORST as int,
                trace: Trace { nodes: 0, study: old(a)@ },
            }),
        ),
        r.0 < final(v)@.len(),
        -VALUE_LIMIT <= r.1 <= VALUE_LIMIT,
{
    let ghost p = pos@;
    let start: i32 = if k.depth >= 3 {
        2
    } else {
        k.depth
    };
    let ghost result = deepened(
        *k,
        p,
        start as int,
        start as int,
        Deepening {
            moves: v@,
            best_i: 0,
            best_v: WORST as int,
            trace: Trace { nodes: 0, study: a@ },
        },
    );
    let n: usize = v.len();
    let mut best_i: usize = 0;
    let mut best_v: i32 = WORST;
    let mut d: i32 = start;
    while d <= k.depth
        invariant
            pos.wf(),
            pos@ == p,
            plan_ok(*k),
            1 <= k.depth,
            start == first_layer(k.depth as int),
            1 <= start <= d <= k.depth + 1,
            roots_ok(p, v@),
            n == v@.len(),
            n == old(v)@.len(),
            0 <= *nodes <= 6000000 * (d - start),
            study_ok(a@),
            calm(k.rule, p, 9),
            best_i < n,
            -VALUE_LIMIT <= best_v <= VALUE_LIMIT,
            p == old(pos)@,
            result == deepened(
                *k,
                p,
                start as int,
                start as int,
                (Deepening {
                    moves: old(v)@,
                    best_i: 0,
                    best_v: WORST as int,
                    trace: Trace { nodes: 0, study: old(a)@ },
                }),
            ),
            deepened(
                *k,
                p,
                start as int,
                d as int,
                (Deepening {
                    moves: v@,
                    best_i: best_i as int,
                    best_v: best_v as int,
                    trace: Trace { nodes: *nodes as int, study: a@ },
                }),
            ) == result,
        decreases k.depth + 1 - d,
    {
        let mut next: Vec<Candidate> = v.clone();
        proof {
            assert(next@ =~= v@);
        }
        if d > start {
            proof {
                lemma_ranked_roots(p, v@);
            }
            rank(&mut next, n, true);
        }
        let mut here: Plan = *k;
        here.depth = d;
        let (bv, bi) = search_layer(pos, &here, &mut next, nodes, a);
        if *nodes > k.budget && d < k.depth {
            return (best_i, best_v);
        }
        best_v = bv;
        best_i = bi;
        *v = next;
        d = d + 1;
    }
    (best_i, best_v)
}

proof fn lemma_ranked_roots(p: Pos, v: Seq<Candidate>)
    requires
        roots_ok(p, v),
    ensures
        roots_ok(p, ranked(v, true, v.len())),
{
    assert forall|j: int| 0 <= j < v.len() implies root_ok(
        p,
        #[trigger] ranked(v, true, v.len())[j],
    ) by {
        lemma_ranked_from(v, true, v.len(), j);
    }
    lemma_ranked_from(v, true, v.len(), 0);
}

/// The choice among the first `n` candidates that are nearly best: the one with the
/// highest ordering score, starting from the best. Fighting moves may be two points
/// worse, others half a point.
pub open spec fn chosen(v: Seq<Candidate>, best_i: int, best_v: int, n: nat) -> int
    decreases n,
{
    if n == 0 {
        best_i
    } else {
        let prev = chosen(v, best_i, best_v, (n - 1) as nat);
        let slack = if v[n - 1].score >= 300 {
            16int
        } else {
            4
        };
        if v[n - 1].value >= best_v - slack && v[n - 1].score > v[prev].score {
            n - 1
        } else {
            prev
        }
    }
}

/// Chooses among the candidates that are nearly best.
fn pick(v: &Vec<Candidate>, best_i: usize, best_v: i32) -> (r: usize)
    requires
        best_i < v@.len(),
        -VALUE_LIMIT <= best_v,
    ensures
        r == chosen(v@, best_i as int, best_v as int, v@.len()),
        r < v@.len(),
{
    let mut at: usize = best_i;
    let mut i: usize = 0;
    while i < v.len()
        invariant
            best_i < v@.len(),
            -VALUE_LIMIT <= best_v,
            at < v@.len(),
            0 <= i <= v@.len(),
            at == chosen(v@, best_i as int, best_v as int, i as nat),
        decreases v@.len() - i,
    {
        let slack: i32 = if v[i].score >= 300 {
            16
        } else {
            4
        };
        if v[i].value >= best_v - slack && v[i].score > v[at].score {
            at = i;
        }
        i = i + 1;
    }
    at
}

/// Estimated points of the side `me`.
pub open spec fn points_of(e: Estimate, me: u8) -> int {
    if me == BLACK {
        e.black
    } else {
        e.white
    }
}

/// How many points over `base` the side to move has after playing on `q`, and the
/// analysis made for it.
pub open spec fn profit(rule: u8, p: Pos, q: Pt, base: int, a: Study) -> (int, Study) {
    let r = play_result(p, q);
    let e = assessed(r, rule, survey(r, 0, 0), a);
    (points_of(e.1, p.turn) - base, e.0)
}

/// The point with index `i` is empty, no eye of the side to move, and legal.
pub open spec fn playable(p: Pos, i: int) -> bool {
    let q = pt(p.size, i);
    p.board[i] == EMPTY && !is_eye(p.size, p.board, q, p.turn) && play_code(p, q) == OK
}

/// The highest profit above 0 on the first `n` points with the first point that brings it,
/// and the last analysis made. Where none brings a profit, the profit is 0.
pub open spec fn best_profit(rule: u8, p: Pos, base: int, a: Study, n: nat) -> (int, Pt, Study)
    decreases n,
{
    if n == 0 {
        (0, (NOWHERE, NOWHERE), a)
    } else {
        let prev = best_profit(rule, p, base, a, (n - 1) as nat);
        if !playable(p, n - 1) {
            prev
        } else {
            let q = pt(p.size, n - 1);
            let g = profit(rule, p, q, base, prev.2);
            if g.0 > prev.0 {
                (g.0, q, g.1)
            } else {
                (prev.0, prev.1, g.1)
            }
        }
    }
}

/// Where the side to move had better play in place of `q`, and the last analysis made. Once
/// a third of the points have been played a move must bring a profit: where `q` brings
/// none, the point that brings the most takes its place, and where there is none, it is
/// better to pass.
pub open spec fn worthwhile(rule: u8, p: Pos, q: Pt, base: int, a: Study) -> (Option<Pt>, Study) {
    if p.move_count <= area(p.size) / 3 {
        (Some(q), a)
    } else {
        let first = profit(rule, p, q, base, a);
        if first.0 > 0 {
            (Some(q), first.1)
        } else {
            let rest = best_profit(rule, p, base, first.1, area(p.size) as nat);
            (
                if rest.0 > 0 {
                    Some(rest.1)
                } else {
                    None
                },
                rest.2,
            )
        }
    }
}

/// Profit of a legal move on (x, y). The position is left as it was.
fn try_profit(
    pos: &mut Position,
    rule: u8,
    x: i32,
    y: i32,
    base: i32,
    a: &mut Analysis,
) -> (r: Option<i32>)
    requires
        old(pos).wf(),
        calm(rule, old(pos)@, 1),
        study_ok(old(a)@),
        0 <= base,
    ensures
        final(pos).wf(),
        final(pos)@ == old(pos)@,
        study_ok(final(a)@),
        r is Some <==> play_code(old(pos)@, (x, y)) == OK,
        r is None ==> final(a)@ == old(a)@,
        r matches Some(g) ==> (g as int, final(a)@) == profit(
            rule,
            old(pos)@,
            (x, y),
            base as int,
            old(a)@,
        ),
{
    let ghost p = pos@;
    let me: u8 = pos.turn;
    proof {
        lemma_calm(rule, p, (x, y), 1);
    }
    let (code, u) = try_play(pos, x, y);
    if code != OK {
        return None;
    }
    proof {
        law_untry_undoes_try(p, (x, y), u);
    }
    let c: Census = scan_groups(pos, 0, 0);
    let est: (i32, i32, i32, i32) = assess(pos, rule, &c, a);
    untry_play(pos, x, y, u);
    let mine: i32 = if me == BLACK {
        est.0
    } else {
        est.1
    };
    Some(mine - base)
}

/// Where the side to move had better play in place of the legal point (x, y), or none to
/// pass.
#[verifier::rlimit(40)]
fn find_worthwhile(
    pos: &mut Position,
    rule: u8,
    x: i32,
    y: i32,
    base: i32,
    a: &mut Analysis,
) -> (r: Option<(i32, i32)>)
    requires
        old(pos).wf(),
        play_code(old(pos)@, (x, y)) == OK,
        calm(rule, old(pos)@, 1),
        study_ok(old(a)@),
        0 <= base,
    ensures
        final(pos).wf(),
        final(pos)@ == old(pos)@,
        study_ok(final(a)@),
        (r, final(a)@) == worthwhile(rule, old(pos)@, (x, y), base as int, old(a)@),
{
    let ghost p = pos@;
    let n: usize = area_of(pos.size);
    let me: u8 = pos.turn;
    if pos.move_count <= (n / 3) as i32 {
        return Some((x, y));
    }
    if let Some(g) = try_profit(pos, rule, x, y, base, a) {
        if g > 0 {
            return Some((x, y));
        }
    }
    let ghost a1 = a@;
    let mut best: i32 = 0;
    let mut at: (i32, i32) = (NOWHERE, NOWHERE);
    let mut i: usize = 0;
    while i < n
        invariant
            pos.wf(),
            pos@ == p,
            calm(rule, p, 1),
            study_ok(a@),
            0 <= base,
            n == area(p.size),
            n <= CELLS,
            me == p.turn,
            0 <= i <= n,
            0 <= best,
            (best as int, at, a@) == best_profit(rule, p, base as int, a1, i as nat),
        decreases n - i,
    {
        let (px, py) = point_of(pos.size, i);
        if pos.board[i] == EMPTY && !is_eye_for(pos, px, py, me) {
            if let Some(g) = try_profit(pos, rule, px, py, base, a) {
                if g > best {
                    best = g;
                    at = (px, py);
                }
            }
        }
        i = i + 1;
    }
    if best > 0 {
        Some(at)
    } else {
        None
    }
}

/// The urgent points as candidates.
pub open spec fn urgent_candidates(v: Seq<Pt>) -> Seq<Candidate> {
    v.map_values(|e: Pt| Candidate { x: e.0, y: e.1, score: URGENT_SCORE, value: 0 })
}

/// Candidates at the root and the random state after them: the urgent points, or otherwise
/// the best moves of the position.
pub open spec fn roots(
    t: Setting,
    k: Plan,
    p: Pos,
    v: Survey,
    influence: Seq<i32>,
    seed: u32,
) -> (Seq<Candidate>, u32) {
    let forced = urgent(p, v, max(t.read_depth as int, 4) as nat, area(p.size) as nat).0;
    if forced.len() > 0 {
        (urgent_candidates(forced), seed)
    } else {
        let o = Outlook {
            plan: k,
            pos: p,
            survey: v,
            influence,
            noise: t.noise as int,
            tactical: false,
        };
        let r = candidates(o, k.w0 as int, seed);
        (r.0.take(min(k.w0 as int, r.0.len() as int)), r.1)
    }
}

/// The columns, rows, scores or values of the candidates written over the start of a buffer.
pub open spec fn fields_over(
    a: Seq<i32>,
    v: Seq<Candidate>,
    f: spec_fn(Candidate) -> i32,
) -> Seq<i32> {
    Seq::new(
        a.len(),
        |i: int|
            if i < v.len() {
                f(v[i])
            } else {
                a[i]
            },
    )
}

/// The opponent with the candidates of a search entered.
pub open spec fn recorded(a: Advisor, d: Deepening, seed: u32) -> Advisor {
    Advisor {
        seed,
        rc_n: d.moves.len() as int,
        rc_x: fields_over(a.rc_x, d.moves, |c: Candidate| c.x),
        rc_y: fields_over(a.rc_y, d.moves, |c: Candidate| c.y),
        rc_sc: fields_over(a.rc_sc, d.moves, |c: Candidate| c.score),
        rc_vb: fields_over(a.rc_vb, d.moves, |c: Candidate| c.value),
        nodes: d.trace.nodes,
        ..a
    }
}

/// The last move was a pass.
pub open spec fn just_passed(p: Pos) -> bool {
    p.move_count > 0 && p.last.0 == NOWHERE
}

/// The state after advice has been asked for.
pub open spec fn advised(g: State) -> State {
    let blank = Advisor { action: ACTION_PASS as int, x: -1, y: -1, ..g.ai };
    if g.ai.level < 1 {
        State { ai: blank, ..g }
    } else {
        let p = g.pos;
        let n = area(p.size);
        let t = setting_of(g.ai.level);
        let k = plan_of(t, g.rule, g.ai.style, p.size);
        let v = survey(p, t.read_depth as nat, ROOT_BUDGET as int);
        let first = assessed(p, g.rule, v, g.analysis);
        let black = lead(g.rule, g.ai.style.moyo as int, first.1);
        let mine = if p.turn == BLACK {
            black
        } else {
            -black
        };
        let ai = Advisor { nodes: 0, ..blank };
        if p.move_count > n * 3 / 5 && mine < -200 {
            State { analysis: first.0, ai: Advisor { action: ACTION_RESIGN as int, ..ai }, ..g }
        } else if just_passed(p) && p.move_count > n / 2 && mine > 0 {
            State { analysis: first.0, ai, ..g }
        } else {
            searched(g, t, k, v, first, ai)
        }
    }
}

/// The state after advice by a search.
pub open spec fn searched(
    g: State,
    t: Setting,
    k: Plan,
    v: Survey,
    first: (Study, Estimate),
    ai: Advisor,
) -> State {
    let p = g.pos;
    let r = roots(t, k, p, v, first.0.influence, ai.seed);
    if r.0.len() == 0 {
        State { analysis: first.0, ai: Advisor { seed: r.1, ..ai }, ..g }
    } else {
        let d = deepened_from(k, p, r.0, first.0);
        let m = d.moves[chosen(d.moves, d.best_i, d.best_v, d.moves.len())];
        let end = worthwhile(g.rule, p, (m.x, m.y), points_of(first.1, p.turn), d.trace.study);
        let told = recorded(ai, d, r.1);
        State {
            analysis: end.1,
            ai: match end.0 {
                Some(q) => Advisor {
                    action: ACTION_PLAY as int,
                    x: q.0 as int,
                    y: q.1 as int,
                    ..told
                },
                None => told,
            },
            ..g
        }
    }
}

/// The search of the given candidates from its first layer on.
pub open spec fn deepened_from(k: Plan, p: Pos, moves: Seq<Candidate>, a: Study) -> Deepening {
    let start = first_layer(k.depth as int);
    deepened(
        k,
        p,
        start,
        start,
        Deepening {
            moves,
            best_i: 0,
            best_v: WORST as int,
            trace: Trace { nodes: 0, study: a },
        },
    )
}

/// Candidates at the root.
fn find_roots(
    pos: &mut Position,
    t: &Setting,
    k: &Plan,
    c: &Census,
    influence: &Vec<i32>,
    seed: &mut u32,
) -> (r: Vec<Candidate>)
    requires
        old(pos).wf(),
        plan_ok(*k),
        survey_ok(c@),
        0 <= t.read_depth <= 12,
        0 <= t.noise <= 1000,
        room(old(pos)@, 12),
        influence@.len() == CELLS,
        forall|j: int|
            0 <= j < area(old(pos)@.size) ==> -14 * CELLS <= #[trigger] influence@[j] <= 14
                * CELLS,
    ensures
        final(pos).wf(),
        final(pos)@ == old(pos)@,
        (r@, *final(seed)) == roots(*t, *k, old(pos)@, c@, influence@, *old(seed)),
        r@.len() > 0 ==> roots_ok(old(pos)@, r@),
{
    let ghost p = pos@;
    let depth: i32 = if t.read_depth >= 4 {
        t.read_depth
    } else {
        4
    };
    let forced: Vec<(i32, i32)> = find_urgent(pos, c, depth);
    let mut r: Vec<Candidate> = Vec::new();
    if forced.len() > 0 {
        let mut i: usize = 0;
        while i < forced.len()
            invariant
                legal_points(p, forced@),
                0 <= i <= forced@.len(),
                r@.len() == i,
                forall|j: int|
                    0 <= j < i ==> #[trigger] r@[j] == urgent_candidates(forced@)[j] && root_ok(
                        p,
                        r@[j],
                    ),
            decreases forced@.len() - i,
        {
            let (x, y) = forced[i];
            r.push(Candidate { x, y, score: URGENT_SCORE, value: 0 });
            i = i + 1;
        }
        proof {
            assert(r@ =~= urgent_candidates(forced@));
        }
        return r;
    }
    let cands: Vec<Candidate> = gen_candidates(
        pos,
        c,
        influence,
        k,
        k.w0,
        t.noise,
        false,
        seed,
    );
    let n: usize = if k.w0 <= cands.len() {
        k.w0
    } else {
        cands.len()
    };
    let mut i: usize = 0;
    while i < n
        invariant
            candidates_ok(p, cands@, t.noise as int),
            0 <= t.noise <= 1000,
            n <= cands@.len(),
            0 <= i <= n,
            r@ == cands@.take(i as int),
            forall|j: int| 0 <= j < r@.len() ==> root_ok(p, #[trigger] r@[j]),
        decreases n - i,
    {
        let m: Candidate = cands[i];
        r.push(m);
        i = i + 1;
    }
    r
}

/// Enters the candidates of a search.
fn record(ai: &mut Ai, v: &Vec<Candidate>, Ghost(p): Ghost<Pos>)
    requires
        advisor_ok(old(ai)@),
        p.size <= MAX,
        roots_ok(p, v@),
    ensures
        advisor_ok(final(ai)@),
        final(ai)@ == (Advisor {
            rc_n: v@.len() as int,
            rc_x: fields_over(old(ai)@.rc_x, v@, |c: Candidate| c.x),
            rc_y: fields_over(old(ai)@.rc_y, v@, |c: Candidate| c.y),
            rc_sc: fields_over(old(ai)@.rc_sc, v@, |c: Candidate| c.score),
            rc_vb: fields_over(old(ai)@.rc_vb, v@, |c: Candidate| c.value),
            ..old(ai)@
        }),
{
    let ghost a0 = ai@;
    let n: usize = v.len();
    let mut i: usize = 0;
    while i < n
        invariant
            n == v@.len(),
            n <= CELLS,
            0 <= i <= n,
            a0.rc_x.len() == CELLS,
            a0.rc_y.len() == CELLS,
            a0.rc_sc.len() == CELLS,
            a0.rc_vb.len() == CELLS,
            ai@ == (Advisor {
                rc_x: ai@.rc_x,
                rc_y: ai@.rc_y,
                rc_sc: ai@.rc_sc,
                rc_vb: ai@.rc_vb,
                ..a0
            }),
            ai@.rc_x.len() == CELLS,
            ai@.rc_y.len() == CELLS,
            ai@.rc_sc.len() == CELLS,
            ai@.rc_vb.len() == CELLS,
            forall|j: int| 0 <= j < i ==> #[trigger] ai@.rc_x[j] == v@[j].x,
            forall|j: int| 0 <= j < i ==> #[trigger] ai@.rc_y[j] == v@[j].y,
            forall|j: int| 0 <= j < i ==> #[trigger] ai@.rc_sc[j] == v@[j].score,
            forall|j: int| 0 <= j < i ==> #[trigger] ai@.rc_vb[j] == v@[j].value,
            forall|j: int| i <= j < CELLS ==> #[trigger] ai@.rc_x[j] == a0.rc_x[j],
            forall|j: int| i <= j < CELLS ==> #[trigger] ai@.rc_y[j] == a0.rc_y[j],
            forall|j: int| i <= j < CELLS ==> #[trigger] ai@.rc_sc[j] == a0.rc_sc[j],
            forall|j: int| i <= j < CELLS ==> #[trigger] ai@.rc_vb[j] == a0.rc_vb[j],
        decreases n - i,
    {
        ai.rc_x.set(i, v[i].x);
        ai.rc_y.set(i, v[i].y);
        ai.rc_sc.set(i, v[i].score);
        ai.rc_vb.set(i, v[i].value);
        i = i + 1;
    }
    ai.rc_n = n;
    proof {
        assert forall|j: int| 0 <= j < n implies inb(
            MAX as int,
            (#[trigger] ai@.rc_x[j], ai@.rc_y[j]),
        ) && -SCORE_LIMIT <= ai@.rc_sc[j] <= SCORE_LIMIT by {
            assert(root_ok(p, v@[j]));
        }
    }
}

/// Asks for advice by a search. Returns the advice.
#[verifier::rlimit(60)]
fn advise_by_search(
    g: &mut Game,
    t: &Setting,
    k: &Plan,
    c: &Census,
    est: (i32, i32, i32, i32),
    Ghost(e): Ghost<Estimate>,
) -> (r: i32)
    requires
        old(g).wf(),
        old(g)@.ai.action == ACTION_PASS,
        old(g)@.ai.x == -1,
        old(g)@.ai.y == -1,
        old(g)@.ai.nodes == 0,
        plan_ok(*k),
        1 <= k.depth,
        k.rule == old(g)@.rule,
        survey_ok(c@),
        0 <= t.read_depth <= 12,
        0 <= t.noise <= 1000,
        calm(k.rule, old(g)@.pos, 12),
        forall|j: int|
            0 <= j < area(old(g)@.pos.size) ==> -14 * CELLS
                <= #[trigger] old(g)@.analysis.influence[j] <= 14 * CELLS,
        est.0 == e.black,
        est.1 == e.white,
        0 <= e.black,
        0 <= e.white,
    ensures
        final(g).wf(),
        final(g)@ == searched(
            old(g)@,
            *t,
            *k,
            c@,
            (old(g)@.analysis, e),
            old(g)@.ai,
        ),
        r == final(g)@.ai.action,
{
    let ghost p = g@.pos;
    let mut v: Vec<Candidate> = find_roots(
        &mut g.pos,
        t,
        k,
        c,
        &g.analysis.influence,
        &mut g.ai.seed,
    );
    if v.len() == 0 {
        return g.ai.action;
    }
    let (best_i, best_v) = deepen(&mut g.pos, k, &mut v, &mut g.ai.nodes, &mut g.analysis);
    let at: usize = pick(&v, best_i, best_v);
    let m: Candidate = v[at];
    let base: i32 = if g.pos.turn == BLACK {
        est.0
    } else {
        est.1
    };
    record(&mut g.ai, &v, Ghost(p));
    proof {
        assert(root_ok(p, m));
    }
    if let Some((x, y)) = find_worthwhile(&mut g.pos, g.rule, m.x, m.y, base, &mut g.analysis) {
        g.ai.action = ACTION_PLAY;
        g.ai.x = x;
        g.ai.y = y;
    }
    g.ai.action
}

/// Asks for advice on the next move, without playing it. Returns 0 for a pass, 1 for a
/// move, whose point can be asked for, or 2 for a resignation. The position and its
/// history are left as they were.
#[verifier::rlimit(60)]
pub fn ugo_ai_genmove(g: &mut Game) -> (r: i32)
    requires
        old(g).wf(),
        old(g)@.ai.level >= 1 ==> calm(old(g)@.rule, old(g)@.pos, 12),
    ensures
        final(g).wf(),
        final(g)@ == advised(old(g)@),
        r == final(g)@.ai.action,
{
    g.ai.action = ACTION_PASS;
    g.ai.x = -1;
    g.ai.y = -1;
    if g.ai.level < 1 {
        return g.ai.action;
    }
    let n: usize = area_of(g.pos.size);
    let t: Setting = setting(g.ai.level);
    let fifth: i32 = (n / 5) as i32;
    let k = Plan {
        rule: g.rule,
        style: g.ai.style,
        depth: t.depth,
        w0: t.w0,
        w1: t.w1,
        w2: t.w2,
        w3: t.w3,
        budget: t.budget,
        opening: if fifth >= 1 {
            fifth
        } else {
            1
        },
    };
    g.ai.nodes = 0;
    let c: Census = scan_groups(&mut g.pos, t.read_depth, ROOT_BUDGET);
    let ghost e = assessed(g@.pos, g.rule, c@, g@.analysis).1;
    let est: (i32, i32, i32, i32) = assess(&g.pos, g.rule, &c, &mut g.analysis);
    let black: i32 = lead_of(g.rule, g.ai.style.moyo, est);
    let mine: i32 = if g.pos.turn == BLACK {
        black
    } else {
        -black
    };
    let played: i32 = g.pos.move_count;
    if played > (n * 3 / 5) as i32 && mine < -200 {
        g.ai.action = ACTION_RESIGN;
        return g.ai.action;
    }
    if played > 0 && g.pos.last_x == -1 && played > (n / 2) as i32 && mine > 0 {
        return g.ai.action;
    }
    proof {
        assert(g@.pos == old(g)@.pos && g@.hist == old(g)@.hist && g@.snap == old(g)@.snap);
        assert(pos_ok(g@.pos));
        assert(hist_ok(g@.hist, g@.pos.size));
        assert(traced(g@.pos, g@.hist));
        assert(snap_ok(g@.snap, g@.pos.size));
        assert(study_ok(g@.analysis));
        assert(advisor_ok(g@.ai));
        assert(state_ok(g@));
    }
    advise_by_search(g, &t, &k, &c, est, Ghost(e))
}

/// Asking for advice leaves the position, the rule, the history, the snapshot and the
/// settings as they were.
pub proof fn law_advice_keeps_game(g: State)
    ensures
        advised(g).pos == g.pos,
        advised(g).rule == g.rule,
        advised(g).hist == g.hist,
        advised(g).snap == g.snap,
        advised(g).ai.level == g.ai.level,
        advised(g).ai.style == g.ai.style,
{
}

} // verus!
