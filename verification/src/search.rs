//! Evaluation of a position and the search for its value.

use crate::board::{
    area, area_of, group_points, pos_ok, Pos, Position, Pt, BLACK, CELLS, EMPTY, OK, RULE_CHINESE,
};
use crate::candidates::{
    candidates, gen_candidates, min, plan_ok, Candidate, Outlook, Plan, MAX_WIDTH,
};
use crate::census::{scan_groups, survey, survey_ok, Census, Survey};
use crate::estimate::{assess, assessed, Estimate};
use crate::game::{study_ok, Analysis, Study};
use crate::influence::{influence_map, radiation, tdiv};
use crate::reading::{lemma_captures_bounded, plies, room};
use crate::rules::{
    counters_fit, law_untry_undoes_try, play_code, play_result, try_play, untry_play,
};
use vstd::prelude::*;

verus! {

broadcast use group_points;

/// Most stones that one side may have captured more than the other for a value to fit in
/// 32 bits.
pub const CAPTURE_LEAD: i32 = 268000000;

/// Bound on the value of a position.
pub const VALUE_LIMIT: i32 = 2145000000;

/// Value below that of every position that is reached in play.
pub const WORST: i32 = -1000000;

/// Number of times that a search is extended at its end by fighting moves.
pub const MAX_EXT: i32 = 0;

/// The counters have room for `n` more moves, with estimates and values that fit in 32
/// bits. Under Chinese rules captured stones do not enter these.
pub open spec fn calm(rule: u8, p: Pos, n: int) -> bool {
    &&& room(p, n)
    &&& rule != RULE_CHINESE ==> {
        &&& p.captured_by_black + CELLS * n <= i32::MAX - 2 * CELLS
        &&& p.captured_by_white + CELLS * n <= i32::MAX - 2 * CELLS
        &&& p.captured_by_black - p.captured_by_white + CELLS * n <= CAPTURE_LEAD
        &&& p.captured_by_white - p.captured_by_black + CELLS * n <= CAPTURE_LEAD
    }
}

/// A move uses up room for one.
pub proof fn lemma_calm(rule: u8, p: Pos, q: Pt, n: int)
    requires
        pos_ok(p),
        calm(rule, p, n),
        n >= 1,
    ensures
        calm(rule, play_result(p, q), n - 1),
        counters_fit(p),
{
    lemma_captures_bounded(p.size, p.board, q, p.turn);
}

/// What the stone with index `i` adds to the chances of the side to move: its own chains
/// in atari or pressed down to two liberties are in danger, those of the other side in
/// atari can be captured, and its own dead chains in atari may yet get away.
pub open spec fn tempo_at(p: Pos, v: Survey, i: int) -> int {
    let size = min(v.size[i] as int, 12);
    let own = p.board[i] == p.turn;
    if p.board[i] == EMPTY {
        0
    } else if v.libs[i] == 1 {
        if v.dead[i] {
            if own {
                16 * size
            } else {
                0
            }
        } else if own {
            -24 * size
        } else {
            16 * size
        }
    } else if v.libs[i] == 2 && v.contact[i] && !v.dead[i] && own {
        -6 * size
    } else {
        0
    }
}

/// What the stones on the first `n` points add to the chances of the side to move.
pub open spec fn tempo(p: Pos, v: Survey, n: nat) -> int
    decreases n,
{
    if n == 0 {
        0
    } else {
        tempo(p, v, (n - 1) as nat) + tempo_at(p, v, n - 1)
    }
}

/// Compensation of White in eighths of a point.
pub open spec fn komi(rule: u8) -> int {
    if rule == RULE_CHINESE {
        60
    } else {
        52
    }
}

/// Lead of Black in eighths of a point: points and, by the weight `moyo`, spheres of
/// influence, less the compensation of White.
pub open spec fn lead(rule: u8, moyo: int, e: Estimate) -> int {
    (e.black - e.white) * 8 + tdiv((e.sphere_black - e.sphere_white) * 8 * moyo, 600) - komi(rule)
}

/// Value of a position for the side to move, from its census, in eighths of a point; and
/// the analysis made for it.
pub open spec fn evaluated(rule: u8, moyo: int, p: Pos, v: Survey, a: Study) -> (int, Study) {
    let r = assessed(p, rule, v, a);
    let l = lead(rule, moyo, r.1);
    let t = tempo(p, v, area(p.size) as nat);
    (
        if p.turn == BLACK {
            l + t
        } else {
            t - l
        },
        r.0,
    )
}

/// Value of a position at the end of a search, with its chains read out a little.
pub open spec fn leaf_value(rule: u8, moyo: int, p: Pos, a: Study) -> (int, Study) {
    evaluated(rule, moyo, p, survey(p, 4, 150), a)
}

/// Lead of Black in eighths of a point.
pub fn lead_of(rule: u8, moyo: i32, est: (i32, i32, i32, i32)) -> (r: i32)
    requires
        0 <= moyo <= 100,
        0 <= est.0,
        0 <= est.1,
        -2 * CELLS - CAPTURE_LEAD <= est.0 - est.1 <= 2 * CELLS + CAPTURE_LEAD,
        0 <= est.2 <= CELLS,
        0 <= est.3 <= CELLS,
    ensures
        r == lead(
            rule,
            moyo as int,
            (Estimate {
                black: est.0 as int,
                white: est.1 as int,
                sphere_black: est.2 as int,
                sphere_white: est.3 as int,
            }),
        ),
        -2144006400 <= r <= 2144006400,
{
    let diff: i32 = est.2 - est.3;
    proof {
        assert(-288800 <= diff * 8 * moyo <= 288800) by (nonlinear_arith)
            requires
                -361 <= diff <= 361,
                0 <= moyo <= 100,
        ;
    }
    let sphere: i32 = diff * 8 * moyo / 600;
    let komi8: i32 = if rule == RULE_CHINESE {
        60
    } else {
        52
    };
    (est.0 - est.1) * 8 + sphere - komi8
}

/// What the stones add to the chances of the side to move.
fn sum_tempo(pos: &Position, c: &Census) -> (r: i32)
    requires
        pos.wf(),
        survey_ok(c@),
    ensures
        r == tempo(pos@, c@, area(pos@.size) as nat),
        -288 * CELLS <= r <= 288 * CELLS,
{
    let n: usize = area_of(pos.size);
    let mover: u8 = pos.turn;
    let mut t: i32 = 0;
    let mut i: usize = 0;
    while i < n
        invariant
            pos.wf(),
            survey_ok(c@),
            mover == pos@.turn,
            n == area(pos@.size),
            n <= CELLS,
            0 <= i <= n,
            t == tempo(pos@, c@, i as nat),
            -288 * i <= t <= 288 * i,
        decreases n - i,
    {
        let stone: u8 = pos.board[i];
        let libs: i32 = c.libs[i];
        let full: i32 = c.size[i];
        let size: i32 = if full <= 12 {
            full
        } else {
            12
        };
        if stone != EMPTY {
            if libs == 1 {
                if c.dead[i] {
                    if stone == mover {
                        t = t + 16 * size;
                    }
                } else if stone == mover {
                    t = t - 24 * size;
                } else {
                    t = t + 16 * size;
                }
            } else if libs == 2 && c.contact[i] && !c.dead[i] && stone == mover {
                t = t - 6 * size;
            }
        }
        i = i + 1;
    }
    t
}

/// Value of a position for the side to move, from its census, in eighths of a point.
pub fn eval_from_scan(
    pos: &Position,
    rule: u8,
    moyo: i32,
    c: &Census,
    a: &mut Analysis,
) -> (r: i32)
    requires
        pos.wf(),
        0 <= moyo <= 100,
        survey_ok(c@),
        study_ok(old(a)@),
        calm(rule, pos@, 0),
    ensures
        study_ok(final(a)@),
        (r as int, final(a)@) == evaluated(rule, moyo as int, pos@, c@, old(a)@),
        -VALUE_LIMIT <= r <= VALUE_LIMIT,
{
    let est: (i32, i32, i32, i32) = assess(pos, rule, c, a);
    let l: i32 = lead_of(rule, moyo, est);
    let t: i32 = sum_tempo(pos, c);
    if pos.turn == BLACK {
        l + t
    } else {
        t - l
    }
}

/// Value of a position for the side to move in eighths of a point, with its chains read
/// out a little. The position is left as it was.
pub fn eval_leaf(pos: &mut Position, rule: u8, moyo: i32, a: &mut Analysis) -> (r: i32)
    requires
        old(pos).wf(),
        0 <= moyo <= 100,
        study_ok(old(a)@),
        calm(rule, old(pos)@, 4),
    ensures
        final(pos).wf(),
        final(pos)@ == old(pos)@,
        study_ok(final(a)@),
        (r as int, final(a)@) == leaf_value(rule, moyo as int, old(pos)@, old(a)@),
        -VALUE_LIMIT <= r <= VALUE_LIMIT,
{
    let c: Census = scan_groups(pos, 4, 150);
    eval_from_scan(pos, rule, moyo, &c, a)
}

/// What a search leaves behind: the number of positions that it visited, and the last
/// analysis that it made.
#[verifier::ext_equal]
pub struct Trace {
    pub nodes: int,
    pub study: Study,
}

/// Number of moves tried at the given remaining depth.
pub open spec fn width_at(k: Plan, depth: int) -> int {
    let level = if k.depth > depth {
        k.depth - depth
    } else {
        0
    };
    if level == 0 {
        k.w0 as int
    } else if level == 1 {
        k.w1 as int
    } else if level == 2 {
        k.w2 as int
    } else if level == 3 {
        k.w3 as int
    } else {
        6
    }
}

/// Some chain is in atari.
pub open spec fn any_atari(p: Pos, v: Survey) -> bool {
    exists|i: int| 0 <= i < area(p.size) && #[trigger] v.libs[i] == 1
}

/// Value of a position for the side to move, and the trace: a search to the given depth
/// within the bounds `alpha` and `beta`, at whose end fighting is followed up `MAX_EXT`
/// times. Beyond the budget of positions it only evaluates.
pub open spec fn sought(
    k: Plan,
    p: Pos,
    depth: int,
    alpha: int,
    beta: int,
    ext: int,
    t: Trace,
) -> (int, Trace)
    decreases MAX_EXT - ext, depth, 2int, 0int,
{
    let nodes = t.nodes + 1;
    let leaf = leaf_value(k.rule, k.style.moyo as int, p, t.study);
    if nodes > k.budget || (depth <= 0 && ext >= MAX_EXT) {
        (leaf.0, Trace { nodes, study: leaf.1 })
    } else if depth <= 0 {
        if any_atari(p, survey(p, 4, 150)) {
            sought_inside(k, p, 1, alpha, beta, ext + 1, true, Trace { nodes, ..t })
        } else {
            (leaf.0, Trace { nodes, study: leaf.1 })
        }
    } else {
        sought_inside(k, p, depth, alpha, beta, ext, false, Trace { nodes, ..t })
    }
}

/// The census that a search uses inside a position: with chains read out if only fighting
/// moves count.
pub open spec fn inside_survey(p: Pos, tactical: bool) -> Survey {
    if tactical {
        survey(p, 4, 150)
    } else {
        survey(p, 0, 0)
    }
}

/// Moves that a search tries in a position, the best first.
pub open spec fn tried_moves(
    k: Plan,
    p: Pos,
    depth: int,
    tactical: bool,
    influence: Seq<i32>,
) -> Seq<Candidate> {
    let o = Outlook {
        plan: k,
        pos: p,
        survey: inside_survey(p, tactical),
        influence,
        noise: 0,
        tactical,
    };
    let w = width_at(k, depth);
    let v = candidates(o, w, 0).0;
    v.take(min(w, v.len() as int))
}

/// Value by the moves tried in a position; where there is none, its evaluation.
pub open spec fn sought_inside(
    k: Plan,
    p: Pos,
    depth: int,
    alpha: int,
    beta: int,
    ext: int,
    tactical: bool,
    t: Trace,
) -> (int, Trace)
    decreases MAX_EXT - ext, depth, 1int, 0int,
{
    let influence = influence_map(p, inside_survey(p, tactical).strength, t.study.influence);
    let study = Study { influence, ..t.study };
    let moves = tried_moves(k, p, depth, tactical, influence);
    if moves.len() == 0 {
        let leaf = leaf_value(k.rule, k.style.moyo as int, p, study);
        (leaf.0, Trace { study: leaf.1, ..t })
    } else {
        sought_among(k, p, depth, alpha, beta, ext, moves, 0, WORST as int, Trace { study, ..t })
    }
}

/// Best value among `best` and those of the moves from `i` on; the rest is skipped once
/// the bounds meet.
pub open spec fn sought_among(
    k: Plan,
    p: Pos,
    depth: int,
    alpha: int,
    beta: int,
    ext: int,
    moves: Seq<Candidate>,
    i: int,
    best: int,
    t: Trace,
) -> (int, Trace)
    decreases MAX_EXT - ext, depth, 0int, moves.len() - i,
{
    if i >= moves.len() || depth <= 0 {
        (best, t)
    } else {
        let q: Pt = (moves[i].x, moves[i].y);
        if play_code(p, q) != OK {
            sought_among(k, p, depth, alpha, beta, ext, moves, i + 1, best, t)
        } else {
            let r = sought(k, play_result(p, q), depth - 1, -beta, -alpha, ext, t);
            let v = -r.0;
            let a = if v > best && v > alpha {
                v
            } else {
                alpha
            };
            if v <= best {
                sought_among(k, p, depth, alpha, beta, ext, moves, i + 1, best, r.1)
            } else if a >= beta {
                (v, r.1)
            } else {
                sought_among(k, p, depth, a, beta, ext, moves, i + 1, v, r.1)
            }
        }
    }
}

/// Most positions that a search to the given depth visits.
pub open spec fn tree_size(depth: int) -> int
    decreases depth,
{
    if depth <= 0 {
        1
    } else {
        1 + MAX_WIDTH * tree_size(depth - 1)
    }
}

/// A search visits at least one position.
pub proof fn lemma_tree_positive(depth: int)
    ensures
        tree_size(depth) >= 1,
    decreases depth,
{
    if depth > 0 {
        lemma_tree_positive(depth - 1);
    }
}

/// Most positions visited for small depths.
pub proof fn lemma_tree_size()
    ensures
        tree_size(0) == 1,
        tree_size(1) == 23,
        tree_size(2) == 507,
        tree_size(3) == 11155,
        tree_size(4) == 245411,
{
    reveal_with_fuel(tree_size, 5);
}

/// Number of moves tried at the given remaining depth.
fn width_of(k: &Plan, depth: i32) -> (w: usize)
    requires
        plan_ok(*k),
        0 <= depth,
    ensures
        w == width_at(*k, depth as int),
        w <= MAX_WIDTH,
{
    let level: i32 = if k.depth > depth {
        k.depth - depth
    } else {
        0
    };
    if level == 0 {
        k.w0
    } else if level == 1 {
        k.w1
    } else if level == 2 {
        k.w2
    } else if level == 3 {
        k.w3
    } else {
        6
    }
}

/// Whether some chain is in atari.
fn has_atari(pos: &Position, c: &Census) -> (r: bool)
    requires
        pos.wf(),
        survey_ok(c@),
    ensures
        r == any_atari(pos@, c@),
{
    let n: usize = area_of(pos.size);
    let mut i: usize = 0;
    while i < n
        invariant
            pos.wf(),
            survey_ok(c@),
            n == area(pos@.size),
            n <= CELLS,
            0 <= i <= n,
            forall|j: int| 0 <= j < i ==> #[trigger] c@.libs[j] != 1,
        decreases n - i,
    {
        if c.libs[i] == 1 {
            return true;
        }
        i = i + 1;
    }
    false
}

/// Value of the position for the side to move in eighths of a point, by a search with
/// bounds to the given depth; at depth 0 or below it is the evaluation, whatever the
/// bounds. The position is left as it was.
pub fn search(
    pos: &mut Position,
    k: &Plan,
    depth: i32,
    alpha: i32,
    beta: i32,
    ext: i32,
    nodes: &mut i32,
    a: &mut Analysis,
) -> (r: i32)
    requires
        old(pos).wf(),
        plan_ok(*k),
        depth > 0 ==> -VALUE_LIMIT <= alpha <= VALUE_LIMIT,
        depth > 0 ==> -VALUE_LIMIT <= beta <= VALUE_LIMIT,
        0 <= ext,
        0 <= *old(nodes),
        *old(nodes) + tree_size(depth as int) <= i32::MAX,
        study_ok(old(a)@),
        calm(k.rule, old(pos)@, plies(depth as int) + 4int),
    ensures
        final(pos).wf(),
        final(pos)@ == old(pos)@,
        study_ok(final(a)@),
        ({
            let t = Trace { nodes: *old(nodes) as int, study: old(a)@ };
            (r as int, Trace { nodes: *final(nodes) as int, study: final(a)@ }) == sought(
                *k,
                old(pos)@,
                depth as int,
                alpha as int,
                beta as int,
                ext as int,
                t,
            )
        }),
        depth <= 0 ==> {
            &&& (r as int, final(a)@) == leaf_value(
                k.rule,
                k.style.moyo as int,
                old(pos)@,
                old(a)@,
            )
            &&& *final(nodes) == *old(nodes) + 1
        },
        -VALUE_LIMIT <= r <= VALUE_LIMIT,
        *old(nodes) <= *final(nodes) <= *old(nodes) + tree_size(depth as int),
    decreases MAX_EXT - ext, depth, 2int, 0int,
{
    proof {
        lemma_tree_positive(depth as int);
    }
    *nodes = *nodes + 1;
    if *nodes > k.budget {
        return eval_leaf(pos, k.rule, k.style.moyo, a);
    }
    if depth <= 0 {
        if ext >= MAX_EXT {
            return eval_leaf(pos, k.rule, k.style.moyo, a);
        }
        let c: Census = scan_groups(pos, 4, 150);
        if !has_atari(pos, &c) {
            return eval_from_scan(pos, k.rule, k.style.moyo, &c, a);
        }
        return search_body(pos, k, 1, alpha, beta, ext + 1, true, &c, nodes, a);
    }
    let c: Census = scan_groups(pos, 0, 0);
    search_body(pos, k, depth, alpha, beta, ext, false, &c, nodes, a)
}

/// Value by the moves tried in the position; where there is none, its evaluation. `c` is
/// its census, with chains read out if only fighting moves count. The position is left as
/// it was.
#[verifier::rlimit(60)]
fn search_body(
    pos: &mut Position,
    k: &Plan,
    depth: i32,
    alpha0: i32,
    beta: i32,
    ext: i32,
    tactical_only: bool,
    c: &Census,
    nodes: &mut i32,
    a: &mut Analysis,
) -> (r: i32)
    requires
        old(pos).wf(),
        plan_ok(*k),
        1 <= depth,
        -VALUE_LIMIT <= alpha0 <= VALUE_LIMIT,
        -VALUE_LIMIT <= beta <= VALUE_LIMIT,
        0 <= ext,
        0 <= *old(nodes),
        *old(nodes) + MAX_WIDTH * tree_size(depth - 1) <= i32::MAX,
        study_ok(old(a)@),
        survey_ok(c@),
        c@ == inside_survey(old(pos)@, tactical_only),
        calm(k.rule, old(pos)@, depth + 4),
    ensures
        final(pos).wf(),
        final(pos)@ == old(pos)@,
        study_ok(final(a)@),
        ({
            let t = Trace { nodes: *old(nodes) as int, study: old(a)@ };
            (r as int, Trace { nodes: *final(nodes) as int, study: final(a)@ }) == sought_inside(
                *k,
                old(pos)@,
                depth as int,
                alpha0 as int,
                beta as int,
                ext as int,
                tactical_only,
                t,
            )
        }),
        -VALUE_LIMIT <= r <= VALUE_LIMIT,
        *old(nodes) <= *final(nodes) <= *old(nodes) + MAX_WIDTH * tree_size(depth - 1),
    decreases MAX_EXT - ext, depth, 1int, 0int,
{
    let ghost p = pos@;
    let ghost nodes0 = *nodes as int;
    let ghost t0 = Trace { nodes: nodes0, study: a@ };
    proof {
        lemma_tree_positive(depth - 1);
    }
    radiation(pos, &c.strength, &mut a.influence);
    let ghost influence = a@.influence;
    let w: usize = width_of(k, depth);
    let mut seed: u32 = 0;
    let cands: Vec<Candidate> = gen_candidates(
        pos,
        c,
        &a.influence,
        k,
        w,
        0,
        tactical_only,
        &mut seed,
    );
    let n: usize = if w <= cands.len() {
        w
    } else {
        cands.len()
    };
    let ghost moves = tried_moves(*k, p, depth as int, tactical_only, influence);
    if n == 0 {
        if tactical_only {
            return eval_from_scan(pos, k.rule, k.style.moyo, c, a);
        }
        return eval_leaf(pos, k.rule, k.style.moyo, a);
    }
    let mut alpha: i32 = alpha0;
    let mut best: i32 = WORST;
    let mut i: usize = 0;
    while i < n
        invariant
            pos.wf(),
            pos@ == p,
            pos_ok(p),
            p == old(pos)@,
            plan_ok(*k),
            1 <= depth,
            0 <= ext,
            -VALUE_LIMIT <= alpha <= VALUE_LIMIT,
            -VALUE_LIMIT <= beta <= VALUE_LIMIT,
            -VALUE_LIMIT <= best <= VALUE_LIMIT,
            study_ok(a@),
            calm(k.rule, p, depth + 4),
            nodes0 == *old(nodes),
            0 <= nodes0,
            nodes0 + MAX_WIDTH * tree_size(depth - 1) <= i32::MAX,
            t0 == (Trace { nodes: nodes0, study: old(a)@ }),
            0 <= i <= n,
            n <= cands@.len(),
            n <= MAX_WIDTH,
            moves == cands@.take(n as int),
            1 <= tree_size(depth - 1),
            nodes0 <= *nodes <= nodes0 + i * tree_size(depth - 1),
            sought_among(
                *k,
                p,
                depth as int,
                alpha as int,
                beta as int,
                ext as int,
                moves,
                i as int,
                best as int,
                Trace { nodes: *nodes as int, study: a@ },
            ) == sought_inside(
                *k,
                p,
                depth as int,
                alpha0 as int,
                beta as int,
                ext as int,
                tactical_only,
                t0,
            ),
        decreases n - i,
    {
        let x: i32 = cands[i].x;
        let y: i32 = cands[i].y;
        proof {
            lemma_calm(k.rule, p, (x, y), depth + 4);
            assert((i + 1) * tree_size(depth - 1) == i * tree_size(depth - 1) + tree_size(
                depth - 1,
            )) by (nonlinear_arith);
            assert((i + 1) * tree_size(depth - 1) <= MAX_WIDTH * tree_size(depth - 1))
                by (nonlinear_arith)
                requires
                    i + 1 <= MAX_WIDTH,
                    0 <= tree_size(depth - 1),
            ;
        }
        i = i + 1;
        let (code, u) = try_play(pos, x, y);
        if code != OK {
            continue;
        }
        proof {
            law_untry_undoes_try(p, (x, y), u);
        }
        let v: i32 = -search(pos, k, depth - 1, -beta, -alpha, ext, nodes, a);
        untry_play(pos, x, y, u);
        if v > best {
            best = v;
            if v > alpha {
                alpha = v;
            }
            if alpha >= beta {
                return best;
            }
        }
    }
    proof {
        assert(n * tree_size(depth - 1) <= MAX_WIDTH * tree_size(depth - 1)) by (nonlinear_arith)
            requires
                n <= MAX_WIDTH,
                0 <= tree_size(depth - 1),
        ;
    }
    best
}

} // verus!
