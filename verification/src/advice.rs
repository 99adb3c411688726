//! What holds of every piece of advice.

use crate::advisor::{
    advised, best_profit, chosen, deepened, deepened_from, first_layer, just_passed, layer,
    layer_order, legal_points, plan_of, playable, points_of, profit, roots, setting_of, urgent,
    urgent_candidates, worthwhile, Deepening, ACTION_PASS, ACTION_PLAY, ACTION_RESIGN, ROOT_BUDGET,
    URGENT_POINTS,
};
use crate::board::{
    area, cell, group_points, idx, inb, lemma_area, pos_ok, pt, Pos, Pt, BLACK, EMPTY, MAX, OK,
};
use crate::candidates::{
    gathered, law_ranking_permutes, lemma_ranked_from, min, plan_ok, ranked, Candidate, Outlook,
    Plan, MAX_WIDTH,
};
use crate::census::{survey, Survey};
use crate::estimate::{agree, assessed, lemma_estimate_agrees, lemma_influence_agrees};
use crate::game::{state_ok, study_ok, State, Study};
use crate::influence::influence_map;
use crate::minimax::{
    lemma_gathered_agrees, lemma_gathered_legal, lemma_leaf_agrees, lemma_moves_agree,
};
use crate::opening::max;
use crate::random::law_state_stays_nonzero;
use crate::rules::{play_code, play_result};
use crate::search::{
    inside_survey, lead, lemma_tree_positive, lemma_tree_size, sought, sought_among, tree_size,
    tried_moves, Trace, MAX_EXT, WORST,
};
use vstd::prelude::*;

verus! {

broadcast use group_points;

/// An assessment does not rest on earlier analyses.
proof fn lemma_assessed_agrees(p: Pos, rule: u8, v: Survey, a: Study, b: Study)
    requires
        5 <= p.size <= MAX,
        study_ok(a),
        study_ok(b),
    ensures
        assessed(p, rule, v, a).1 == assessed(p, rule, v, b).1,
        agree(
            p.size,
            assessed(p, rule, v, a).0.influence,
            assessed(p, rule, v, b).0.influence,
        ),
        study_ok(assessed(p, rule, v, a).0),
        study_ok(assessed(p, rule, v, b).0),
{
    lemma_influence_agrees(p, v.strength, a.influence, b.influence);
    lemma_estimate_agrees(
        p,
        rule,
        v.dead,
        v.strength,
        influence_map(p, v.strength, a.influence),
        influence_map(p, v.strength, b.influence),
    );
}

/// Both traces hold the same number of positions.
spec fn level_with(t: Trace, u: Trace) -> bool {
    t.nodes == u.nodes && study_ok(t.study) && study_ok(u.study)
}

/// A search does not rest on earlier analyses.
proof fn lemma_sought_agrees(
    k: Plan,
    p: Pos,
    depth: int,
    alpha: int,
    beta: int,
    ext: int,
    t: Trace,
    u: Trace,
)
    requires
        5 <= p.size <= MAX,
        ext >= MAX_EXT,
        level_with(t, u),
    ensures
        ({
            let a = sought(k, p, depth, alpha, beta, ext, t);
            let b = sought(k, p, depth, alpha, beta, ext, u);
            a.0 == b.0 && level_with(a.1, b.1)
        }),
    decreases depth, 1int, 0int,
{
    let moyo = k.style.moyo as int;
    lemma_leaf_agrees(k.rule, moyo, p, t.study, u.study);
    if depth > 0 {
        let v = inside_survey(p, false);
        let ti = influence_map(p, v.strength, t.study.influence);
        let ui = influence_map(p, v.strength, u.study.influence);
        let ts = Study { influence: ti, ..t.study };
        let us = Study { influence: ui, ..u.study };
        lemma_influence_agrees(p, v.strength, t.study.influence, u.study.influence);
        lemma_moves_agree(k, p, depth, false, ti, ui);
        lemma_leaf_agrees(k.rule, moyo, p, ts, us);
        let moves = tried_moves(k, p, depth, false, ti);
        if moves.len() > 0 {
            lemma_among_agrees(
                k,
                p,
                depth,
                alpha,
                beta,
                ext,
                moves,
                0,
                WORST as int,
                Trace { nodes: t.nodes + 1, study: ts },
                Trace { nodes: u.nodes + 1, study: us },
            );
        }
    }
}

proof fn lemma_among_agrees(
    k: Plan,
    p: Pos,
    depth: int,
    alpha: int,
    beta: int,
    ext: int,
    moves: Seq<Candidate>,
    i: int,
    best: int,
    t: Trace,
    u: Trace,
)
    requires
        5 <= p.size <= MAX,
        ext >= MAX_EXT,
        0 < depth,
        level_with(t, u),
    ensures
        ({
            let a = sought_among(k, p, depth, alpha, beta, ext, moves, i, best, t);
            let b = sought_among(k, p, depth, alpha, beta, ext, moves, i, best, u);
            a.0 == b.0 && level_with(a.1, b.1)
        }),
    decreases depth, 0int, moves.len() - i,
{
    if i < moves.len() {
        let q: Pt = (moves[i].x, moves[i].y);
        if play_code(p, q) != OK {
            lemma_among_agrees(k, p, depth, alpha, beta, ext, moves, i + 1, best, t, u);
        } else {
            let next = play_result(p, q);
            lemma_sought_agrees(k, next, depth - 1, -beta, -alpha, ext, t, u);
            let a = sought(k, next, depth - 1, -beta, -alpha, ext, t);
            let b = sought(k, next, depth - 1, -beta, -alpha, ext, u);
            let v = -a.0;
            let lower = if v > best && v > alpha {
                v
            } else {
                alpha
            };
            if v <= best {
                lemma_among_agrees(k, p, depth, alpha, beta, ext, moves, i + 1, best, a.1, b.1);
            } else if lower < beta {
                lemma_among_agrees(k, p, depth, lower, beta, ext, moves, i + 1, v, a.1, b.1);
            }
        }
    }
}

proof fn lemma_layer_agrees(
    k: Plan,
    p: Pos,
    v: Seq<Candidate>,
    i: int,
    best_v: int,
    best_i: int,
    t: Trace,
    u: Trace,
)
    requires
        5 <= p.size <= MAX,
        level_with(t, u),
    ensures
        ({
            let a = layer(k, p, v, i, best_v, best_i, t);
            let b = layer(k, p, v, i, best_v, best_i, u);
            a.0 == b.0 && a.1 == b.1 && a.2 == b.2 && level_with(a.3, b.3)
        }),
    decreases v.len() - i,
{
    if 0 <= i < v.len() {
        let next = play_result(p, (v[i].x, v[i].y));
        lemma_sought_agrees(k, next, k.depth - 1, WORST as int, -best_v, 0, t, u);
        let a = sought(k, next, k.depth - 1, WORST as int, -best_v, 0, t);
        let b = sought(k, next, k.depth - 1, WORST as int, -best_v, 0, u);
        let value = -a.0;
        let w = v.update(i, Candidate { value: value as i32, ..v[i] });
        if value > best_v {
            lemma_layer_agrees(k, p, w, i + 1, value, i, a.1, b.1);
        } else {
            lemma_layer_agrees(k, p, w, i + 1, best_v, best_i, a.1, b.1);
        }
    }
}

proof fn lemma_deepened_agrees(k: Plan, p: Pos, start: int, d: int, s: Deepening, u: Trace)
    requires
        5 <= p.size <= MAX,
        level_with(s.trace, u),
    ensures
        ({
            let a = deepened(k, p, start, d, s);
            let b = deepened(k, p, start, d, Deepening { trace: u, ..s });
            &&& b == (Deepening { trace: b.trace, ..a })
            &&& level_with(a.trace, b.trace)
        }),
    decreases k.depth - d + 1,
{
    if d <= k.depth {
        let here = Plan { depth: d as i32, ..k };
        let order = layer_order(start, d, s.moves);
        lemma_layer_agrees(here, p, order, 0, WORST as int, 0, s.trace, u);
        let a = layer(here, p, order, 0, WORST as int, 0, s.trace);
        let b = layer(here, p, order, 0, WORST as int, 0, u);
        if !(a.3.nodes > k.budget && d < k.depth) {
            lemma_deepened_agrees(
                k,
                p,
                start,
                d + 1,
                Deepening { moves: a.0, best_i: a.2, best_v: a.1, trace: a.3 },
                b.3,
            );
        }
    }
}

/// The profit of a move does not rest on earlier analyses.
proof fn lemma_profit_agrees(rule: u8, p: Pos, q: Pt, base: int, a: Study, b: Study)
    requires
        5 <= p.size <= MAX,
        study_ok(a),
        study_ok(b),
    ensures
        profit(rule, p, q, base, a).0 == profit(rule, p, q, base, b).0,
        study_ok(profit(rule, p, q, base, a).1),
        study_ok(profit(rule, p, q, base, b).1),
{
    let r = play_result(p, q);
    lemma_assessed_agrees(r, rule, survey(r, 0, 0), a, b);
}

/// The highest profit does not rest on earlier analyses. It is that of its point, where it
/// is above 0, and no playable point brings more.
proof fn lemma_best_profit(rule: u8, p: Pos, base: int, a: Study, b: Study, n: nat)
    requires
        pos_ok(p),
        study_ok(a),
        study_ok(b),
        n <= area(p.size),
    ensures
        ({
            let r = best_profit(rule, p, base, a, n);
            let e = best_profit(rule, p, base, b, n);
            &&& r.0 == e.0 && r.1 == e.1
            &&& study_ok(r.2) && study_ok(e.2)
            &&& r.0 >= 0
            &&& r.0 > 0 ==> play_code(p, r.1) == OK && profit(rule, p, r.1, base, a).0 == r.0
            &&& r.0 > 0 ==> inb(p.size, r.1) && idx(p.size, r.1) < n && forall|i: int|
                0 <= i < idx(p.size, r.1) && #[trigger] playable(p, i) ==> profit(
                    rule,
                    p,
                    pt(p.size, i),
                    base,
                    a,
                ).0 < r.0
            &&& forall|i: int|
                0 <= i < n && #[trigger] playable(p, i) ==> profit(
                    rule,
                    p,
                    pt(p.size, i),
                    base,
                    a,
                ).0 <= r.0
        }),
    decreases n,
{
    if n > 0 {
        let m = (n - 1) as nat;
        lemma_best_profit(rule, p, base, a, b, m);
        let r = best_profit(rule, p, base, a, m);
        let e = best_profit(rule, p, base, b, m);
        let q = pt(p.size, m as int);
        lemma_profit_agrees(rule, p, q, base, r.2, e.2);
        lemma_profit_agrees(rule, p, q, base, r.2, a);
    }
}

/// The choice of a worthwhile point does not rest on earlier analyses.
proof fn lemma_worthwhile_agrees(rule: u8, p: Pos, q: Pt, base: int, a: Study, b: Study)
    requires
        pos_ok(p),
        study_ok(a),
        study_ok(b),
    ensures
        worthwhile(rule, p, q, base, a).0 == worthwhile(rule, p, q, base, b).0,
{
    lemma_profit_agrees(rule, p, q, base, a, b);
    lemma_area(p.size);
    lemma_best_profit(
        rule,
        p,
        base,
        profit(rule, p, q, base, a).1,
        profit(rule, p, q, base, b).1,
        area(p.size) as nat,
    );
}

/// Candidates at the root for advice in `g`.
pub open spec fn roots_of(g: State) -> Seq<Candidate> {
    let t = setting_of(g.ai.level);
    let k = plan_of(t, g.rule, g.ai.style, g.pos.size);
    let v = survey(g.pos, t.read_depth as nat, ROOT_BUDGET as int);
    roots(t, k, g.pos, v, assessed(g.pos, g.rule, v, g.analysis).0.influence, g.ai.seed).0
}

/// Estimated points of the side to move, as advice in `g` takes them.
pub open spec fn points_now(g: State) -> int {
    let v = survey(g.pos, setting_of(g.ai.level).read_depth as nat, ROOT_BUDGET as int);
    points_of(assessed(g.pos, g.rule, v, g.analysis).1, g.pos.turn)
}

/// How many points the side to move gains by playing on `q`, as advice in `g` takes it.
pub open spec fn gain(g: State, q: Pt) -> int {
    profit(g.rule, g.pos, q, points_now(g), g.analysis).0
}

/// Advice rests on the position, the rule, the strength, the style and the random state
/// alone, and not on what was analysed or advised before: the same gives the same answer,
/// the same point, and the same random state after it.
pub proof fn law_advice_repeats(g: State, h: State)
    requires
        state_ok(g),
        state_ok(h),
        g.pos == h.pos,
        g.rule == h.rule,
        g.ai.level == h.ai.level,
        g.ai.style == h.ai.style,
        g.ai.seed == h.ai.seed,
    ensures
        advised(g).ai.action == advised(h).ai.action,
        advised(g).ai.x == advised(h).ai.x,
        advised(g).ai.y == advised(h).ai.y,
        advised(g).ai.seed == advised(h).ai.seed,
{
    let p = g.pos;
    let t = setting_of(g.ai.level);
    let k = plan_of(t, g.rule, g.ai.style, p.size);
    let v = survey(p, t.read_depth as nat, ROOT_BUDGET as int);
    let a = assessed(p, g.rule, v, g.analysis);
    let b = assessed(p, g.rule, v, h.analysis);
    lemma_assessed_agrees(p, g.rule, v, g.analysis, h.analysis);
    let o = Outlook {
        plan: k,
        pos: p,
        survey: v,
        influence: a.0.influence,
        noise: t.noise as int,
        tactical: false,
    };
    lemma_area(p.size);
    lemma_gathered_agrees(
        o,
        Outlook { influence: b.0.influence, ..o },
        g.ai.seed,
        area(p.size) as nat,
    );
    let r = roots(t, k, p, v, a.0.influence, g.ai.seed);
    assert(r == roots(t, k, p, v, b.0.influence, g.ai.seed));
    let start = first_layer(k.depth as int);
    let s = Deepening {
        moves: r.0,
        best_i: 0,
        best_v: WORST as int,
        trace: Trace { nodes: 0, study: a.0 },
    };
    lemma_deepened_agrees(k, p, start, start, s, Trace { nodes: 0, study: b.0 });
    let c = deepened_from(k, p, r.0, a.0);
    let d = deepened_from(k, p, r.0, b.0);
    let m = c.moves[chosen(c.moves, c.best_i, c.best_v, c.moves.len())];
    lemma_worthwhile_agrees(
        g.rule,
        p,
        (m.x, m.y),
        points_of(a.1, p.turn),
        c.trace.study,
        d.trace.study,
    );
}

/// Advice is a pass, a move or a resignation; switched off, it is a pass. A move that is
/// advised is legal, on an empty point of the board, and there is no point otherwise.
/// Resigning is advised only after three fifths of the points have been played.
pub proof fn law_advised_point(g: State)
    requires
        state_ok(g),
    ensures
        ({
            let a = advised(g).ai;
            let q: Pt = (a.x as i32, a.y as i32);
            &&& a.action == ACTION_PASS || a.action == ACTION_PLAY || a.action == ACTION_RESIGN
            &&& g.ai.level < 1 ==> a.action == ACTION_PASS
            &&& a.action == ACTION_PLAY ==> play_code(g.pos, q) == OK && inb(g.pos.size, q) && cell(
                g.pos.size,
                g.pos.board,
                q,
            ) == EMPTY
            &&& a.action != ACTION_PLAY ==> a.x == -1 && a.y == -1
            &&& a.action == ACTION_RESIGN ==> g.pos.move_count > area(g.pos.size) * 3 / 5
        }),
{
    lemma_advised(g);
    lemma_roots_legal(g);
}

/// Once a third of the points have been played, a move that is advised gains points for the
/// side to move; so where no move gains any, none is advised.
pub proof fn law_late_advice_gains(g: State)
    requires
        state_ok(g),
        g.pos.move_count > area(g.pos.size) / 3,
        advised(g).ai.action == ACTION_PLAY,
    ensures
        gain(g, (advised(g).ai.x as i32, advised(g).ai.y as i32)) > 0,
{
    lemma_advised(g);
}

/// Once a third of the points have been played, a pass that is advised, other than in
/// answer to a pass, means that no move gains points: none but on an eye of the side to
/// move.
pub proof fn law_late_pass_gives_nothing_away(g: State, i: int)
    requires
        state_ok(g),
        g.ai.level >= 1,
        g.pos.move_count > area(g.pos.size) / 3,
        !just_passed(g.pos),
        roots_of(g).len() > 0,
        advised(g).ai.action == ACTION_PASS,
        0 <= i < area(g.pos.size),
        playable(g.pos, i),
    ensures
        gain(g, pt(g.pos.size, i)) <= 0,
{
    lemma_advised(g);
}

/// Urgent points of the position: see [`urgent`].
pub open spec fn urgent_now(g: State) -> Seq<Pt> {
    let t = setting_of(g.ai.level);
    urgent(
        g.pos,
        survey(g.pos, t.read_depth as nat, ROOT_BUDGET as int),
        max(t.read_depth as int, 4) as nat,
        area(g.pos.size) as nat,
    ).0
}

/// Where there are urgent points, an advised move is on one of them, unless a third of the
/// points have been played and the urgent point that was chosen gains nothing.
pub proof fn law_urgent_points_bind(g: State)
    requires
        state_ok(g),
        urgent_now(g).len() > 0,
        advised(g).ai.action == ACTION_PLAY,
    ensures
        urgent_now(g).contains((advised(g).ai.x as i32, advised(g).ai.y as i32)) || (
        g.pos.move_count > area(g.pos.size) / 3 && exists|e: Pt| #[trigger]
            urgent_now(g).contains(e) && gain(g, e) <= 0),
{
    let forced = urgent_now(g);
    lemma_advised(g);
    assert(forall|j: int|
        0 <= j < forced.len() ==> (#[trigger] urgent_candidates(forced)[j]).x == forced[j].0
            && urgent_candidates(forced)[j].y == forced[j].1);
    let q: Pt = (advised(g).ai.x as i32, advised(g).ai.y as i32);
    let all = roots_of(g);
    assert(all == urgent_candidates(forced));
    let m = choice_of(g);
    assert(comes_from(m, all));
    let j = choose|j: int| 0 <= j < all.len() && (#[trigger] all[j]).x == m.x && all[j].y == m.y;
    assert(forced.contains(forced[j]));
    assert(forced[j] == (m.x, m.y));
}

/// The candidate that the search chooses for advice in `g`.
pub open spec fn choice_of(g: State) -> Candidate {
    let t = setting_of(g.ai.level);
    let k = plan_of(t, g.rule, g.ai.style, g.pos.size);
    let v = survey(g.pos, t.read_depth as nat, ROOT_BUDGET as int);
    let d = deepened_from(k, g.pos, roots_of(g), assessed(g.pos, g.rule, v, g.analysis).0);
    d.moves[chosen(d.moves, d.best_i, d.best_v, d.moves.len())]
}

/// The candidate lies on the point of one of the list.
pub open spec fn comes_from(c: Candidate, v: Seq<Candidate>) -> bool {
    exists|j: int| 0 <= j < v.len() && (#[trigger] v[j]).x == c.x && v[j].y == c.y
}

spec fn all_come_from(w: Seq<Candidate>, v: Seq<Candidate>) -> bool {
    forall|j: int| 0 <= j < w.len() ==> comes_from(#[trigger] w[j], v)
}

/// The other side has passed, more than half of the points have been played, and the side
/// to move is ahead.
pub open spec fn answers_pass(g: State) -> bool {
    let v = survey(g.pos, setting_of(g.ai.level).read_depth as nat, ROOT_BUDGET as int);
    let l = lead(
        g.rule,
        g.ai.style.moyo as int,
        assessed(g.pos, g.rule, v, g.analysis).1,
    );
    &&& just_passed(g.pos)
    &&& g.pos.move_count > area(g.pos.size) / 2
    &&& if g.pos.turn == BLACK {
        l > 0
    } else {
        l < 0
    }
}

/// An advised move is the candidate that the search chose, one of those at the root, or,
/// late in the game, one that gains most where that candidate gains nothing. Late in the
/// game no point that is passed over gains any.
pub proof fn lemma_advised(g: State)
    requires
        state_ok(g),
    ensures
        ({
            let a = advised(g).ai;
            let q: Pt = (a.x as i32, a.y as i32);
            let m = choice_of(g);
            let late = g.pos.move_count > area(g.pos.size) / 3;
            &&& a.action == ACTION_PLAY ==> {
                &&& roots_of(g).len() > 0
                &&& comes_from(m, roots_of(g))
                &&& late ==> gain(g, q) > 0
                &&& q == (m.x, m.y) || (late && gain(g, (m.x, m.y)) <= 0 && play_code(g.pos, q)
                    == OK)
            }
            &&& late && g.ai.level >= 1 && !answers_pass(g) && roots_of(g).len() > 0 && a.action
                == ACTION_PASS ==> forall|i: int|
                0 <= i < area(g.pos.size) && #[trigger] playable(g.pos, i) ==> gain(
                    g,
                    pt(g.pos.size, i),
                ) <= 0
            &&& g.ai.level >= 1 && !answers_pass(g) && a.action != ACTION_RESIGN && roots_of(g).len()
                > 0 && gain(g, (m.x, m.y)) > 0 ==> a.action == ACTION_PLAY && q == (m.x, m.y)
            &&& late && a.action == ACTION_PLAY && gain(g, (m.x, m.y)) <= 0 ==> forall|i: int|
                0 <= i < area(g.pos.size) && #[trigger] playable(g.pos, i) ==> gain(
                    g,
                    pt(g.pos.size, i),
                ) <= gain(g, q) && (i < idx(g.pos.size, q) ==> gain(g, pt(g.pos.size, i)) < gain(
                    g,
                    q,
                ))
        }),
{
    let p = g.pos;
    let t = setting_of(g.ai.level);
    let k = plan_of(t, g.rule, g.ai.style, p.size);
    let v = survey(p, t.read_depth as nat, ROOT_BUDGET as int);
    let first = assessed(p, g.rule, v, g.analysis);
    let r = roots_of(g);
    lemma_area(p.size);
    lemma_assessed_agrees(p, g.rule, v, g.analysis, g.analysis);
    if r.len() > 0 {
        let start = first_layer(k.depth as int);
        let s = Deepening {
            moves: r,
            best_i: 0,
            best_v: WORST as int,
            trace: Trace { nodes: 0, study: first.0 },
        };
        let d = deepened_from(k, p, r, first.0);
        assert(all_come_from(r, r));
        lemma_deepened_agrees(k, p, start, start, s, s.trace);
        lemma_deepened_from(k, p, start, start, s, r);
        lemma_chosen(d.moves, d.best_i, d.best_v, d.moves.len());
        let m = choice_of(g);
        let q: Pt = (m.x, m.y);
        let base = points_now(g);
        lemma_profit_agrees(g.rule, p, q, base, d.trace.study, g.analysis);
        let a = profit(g.rule, p, q, base, d.trace.study).1;
        let rest = best_profit(g.rule, p, base, a, area(p.size) as nat);
        lemma_best_profit(g.rule, p, base, a, a, area(p.size) as nat);
        lemma_profit_agrees(g.rule, p, rest.1, base, a, g.analysis);
        assert forall|i: int| 0 <= i < area(p.size) && #[trigger] playable(p, i) implies gain(
            g,
            pt(p.size, i),
        ) <= rest.0 && (rest.0 > 0 && i < idx(p.size, rest.1) ==> gain(g, pt(p.size, i))
            < rest.0) by {
            lemma_profit_agrees(g.rule, p, pt(p.size, i), base, a, g.analysis);
        }
    }
}

/// What the chosen move gains is the same before the search as after it.
pub proof fn lemma_gain_after_search(g: State)
    requires
        state_ok(g),
    ensures
        ({
            let t = setting_of(g.ai.level);
            let k = plan_of(t, g.rule, g.ai.style, g.pos.size);
            let v = survey(g.pos, t.read_depth as nat, ROOT_BUDGET as int);
            let d = deepened_from(k, g.pos, roots_of(g), assessed(g.pos, g.rule, v, g.analysis).0);
            let m = choice_of(g);
            roots_of(g).len() > 0 ==> gain(g, (m.x, m.y)) == profit(
                g.rule,
                g.pos,
                (m.x, m.y),
                points_now(g),
                d.trace.study,
            ).0
        }),
{
    let p = g.pos;
    let t = setting_of(g.ai.level);
    let k = plan_of(t, g.rule, g.ai.style, p.size);
    let v = survey(p, t.read_depth as nat, ROOT_BUDGET as int);
    let first = assessed(p, g.rule, v, g.analysis);
    let r = roots_of(g);
    lemma_area(p.size);
    lemma_assessed_agrees(p, g.rule, v, g.analysis, g.analysis);
    if r.len() > 0 {
        let start = first_layer(k.depth as int);
        let s = Deepening {
            moves: r,
            best_i: 0,
            best_v: WORST as int,
            trace: Trace { nodes: 0, study: first.0 },
        };
        let d = deepened_from(k, p, r, first.0);
        lemma_deepened_agrees(k, p, start, start, s, s.trace);
        let m = choice_of(g);
        lemma_profit_agrees(g.rule, p, (m.x, m.y), points_now(g), d.trace.study, g.analysis);
    }
}

proof fn lemma_urgent_legal(p: Pos, v: Survey, depth: nat, n: nat)
    ensures
        legal_points(p, urgent(p, v, depth, n).0),
    decreases n,
{
    if n > 0 {
        lemma_urgent_legal(p, v, depth, (n - 1) as nat);
    }
}

/// Every candidate at the root is legal, so every move that comes from one is.
proof fn lemma_roots_legal(g: State)
    ensures
        forall|c: Candidate| #[trigger]
            comes_from(c, roots_of(g)) ==> play_code(g.pos, (c.x, c.y)) == OK,
{
    let p = g.pos;
    let t = setting_of(g.ai.level);
    let k = plan_of(t, g.rule, g.ai.style, p.size);
    let v = survey(p, t.read_depth as nat, ROOT_BUDGET as int);
    let n = area(p.size) as nat;
    let depth = max(t.read_depth as int, 4) as nat;
    let all = roots_of(g);
    let forced = urgent(p, v, depth, n).0;
    lemma_urgent_legal(p, v, depth, n);
    let o = Outlook {
        plan: k,
        pos: p,
        survey: v,
        influence: assessed(p, g.rule, v, g.analysis).0.influence,
        noise: t.noise as int,
        tactical: false,
    };
    let found = gathered(o, g.ai.seed, n).0;
    lemma_gathered_legal(o, g.ai.seed, n);
    assert forall|j: int| 0 <= j < all.len() implies play_code(
        p,
        ((#[trigger] all[j]).x, all[j].y),
    ) == OK by {
        if forced.len() > 0 {
            assert(play_code(p, forced[j]) == OK);
        } else {
            let w = min(k.w0 as int, found.len() as int);
            let c = ranked(found, false, w as nat);
            law_ranking_permutes(found, false, w as nat);
            assert(all[j] == c[j]);
            lemma_ranked_from(found, false, w as nat, j);
        }
    }
}

proof fn lemma_ranked_come(w: Seq<Candidate>, by_value: bool, k: nat, v: Seq<Candidate>)
    requires
        all_come_from(w, v),
        k <= w.len(),
    ensures
        all_come_from(ranked(w, by_value, k), v),
        ranked(w, by_value, k).len() == w.len(),
{
    law_ranking_permutes(w, by_value, k);
    assert forall|j: int| 0 <= j < w.len() implies comes_from(
        #[trigger] ranked(w, by_value, k)[j],
        v,
    ) by {
        lemma_ranked_from(w, by_value, k, j);
    }
}

proof fn lemma_layer_from(
    k: Plan,
    p: Pos,
    w: Seq<Candidate>,
    i: int,
    best_v: int,
    best_i: int,
    t: Trace,
    v: Seq<Candidate>,
)
    requires
        all_come_from(w, v),
        0 <= i <= w.len(),
        0 <= best_i < w.len(),
    ensures
        ({
            let r = layer(k, p, w, i, best_v, best_i, t);
            all_come_from(r.0, v) && r.0.len() == w.len() && 0 <= r.2 < w.len()
        }),
    decreases w.len() - i,
{
    if i < w.len() {
        let q: Pt = (w[i].x, w[i].y);
        let r = sought(k, play_result(p, q), k.depth - 1, WORST as int, -best_v, 0, t);
        let c = Candidate { value: (-r.0) as i32, ..w[i] };
        let u = w.update(i, c);
        assert(comes_from(w[i], v));
        assert(comes_from(c, v));
        assert(all_come_from(u, v)) by {
            assert forall|j: int| 0 <= j < u.len() implies comes_from(#[trigger] u[j], v) by {
                if j != i {
                    assert(u[j] == w[j]);
                }
            }
        }
        if -r.0 > best_v {
            lemma_layer_from(k, p, u, i + 1, -r.0, i, r.1, v);
        } else {
            lemma_layer_from(k, p, u, i + 1, best_v, best_i, r.1, v);
        }
    }
}

proof fn lemma_deepened_from(
    k: Plan,
    p: Pos,
    start: int,
    d: int,
    s: Deepening,
    v: Seq<Candidate>,
)
    requires
        all_come_from(s.moves, v),
        0 <= s.best_i < s.moves.len(),
    ensures
        ({
            let r = deepened(k, p, start, d, s);
            all_come_from(r.moves, v) && r.moves.len() == s.moves.len() && 0 <= r.best_i
                < r.moves.len()
        }),
    decreases k.depth - d + 1,
{
    if d <= k.depth {
        let order = layer_order(start, d, s.moves);
        lemma_ranked_come(s.moves, true, s.moves.len(), v);
        let here = Plan { depth: d as i32, ..k };
        lemma_layer_from(here, p, order, 0, WORST as int, 0, s.trace, v);
        let r = layer(here, p, order, 0, WORST as int, 0, s.trace);
        if !(r.3.nodes > k.budget && d < k.depth) {
            lemma_deepened_from(
                k,
                p,
                start,
                d + 1,
                Deepening { moves: r.0, best_i: r.2, best_v: r.1, trace: r.3 },
                v,
            );
        }
    }
}

proof fn lemma_chosen(v: Seq<Candidate>, best_i: int, best_v: int, n: nat)
    requires
        0 <= best_i < v.len(),
        n <= v.len(),
    ensures
        0 <= chosen(v, best_i, best_v, n) < v.len(),
    decreases n,
{
    if n > 0 {
        lemma_chosen(v, best_i, best_v, (n - 1) as nat);
    }
}

/// A search visits no more positions than its tree has.
proof fn lemma_sought_nodes(
    k: Plan,
    p: Pos,
    depth: int,
    alpha: int,
    beta: int,
    ext: int,
    t: Trace,
)
    requires
        plan_ok(k),
        ext >= MAX_EXT,
    ensures
        t.nodes <= sought(k, p, depth, alpha, beta, ext, t).1.nodes <= t.nodes + tree_size(depth),
    decreases depth, 1int, 0int,
{
    lemma_tree_positive(depth);
    if depth > 0 {
        let influence = influence_map(p, inside_survey(p, false).strength, t.study.influence);
        let moves = tried_moves(k, p, depth, false, influence);
        lemma_tree_positive(depth - 1);
        lemma_among_nodes(
            k,
            p,
            depth,
            alpha,
            beta,
            ext,
            moves,
            0,
            WORST as int,
            Trace { nodes: t.nodes + 1, study: Study { influence, ..t.study } },
        );
        assert(moves.len() * tree_size(depth - 1) <= MAX_WIDTH * tree_size(depth - 1))
            by (nonlinear_arith)
            requires
                moves.len() <= MAX_WIDTH,
                tree_size(depth - 1) >= 1,
        ;
    }
}

proof fn lemma_among_nodes(
    k: Plan,
    p: Pos,
    depth: int,
    alpha: int,
    beta: int,
    ext: int,
    moves: Seq<Candidate>,
    i: int,
    best: int,
    t: Trace,
)
    requires
        plan_ok(k),
        ext >= MAX_EXT,
        0 < depth,
        0 <= i <= moves.len(),
    ensures
        ({
            let r = sought_among(k, p, depth, alpha, beta, ext, moves, i, best, t);
            t.nodes <= r.1.nodes <= t.nodes + (moves.len() - i) * tree_size(depth - 1)
        }),
    decreases depth, 0int, moves.len() - i,
{
    let left = moves.len() - i;
    let size = tree_size(depth - 1);
    lemma_tree_positive(depth - 1);
    if left > 0 {
        assert(left * size == (left - 1) * size + size && (left - 1) * size >= 0)
            by (nonlinear_arith)
            requires
                left >= 1,
                size >= 1,
        ;
        let q: Pt = (moves[i].x, moves[i].y);
        if play_code(p, q) != OK {
            lemma_among_nodes(k, p, depth, alpha, beta, ext, moves, i + 1, best, t);
        } else {
            let next = play_result(p, q);
            lemma_sought_nodes(k, next, depth - 1, -beta, -alpha, ext, t);
            let r = sought(k, next, depth - 1, -beta, -alpha, ext, t);
            let v = -r.0;
            let lower = if v > best && v > alpha {
                v
            } else {
                alpha
            };
            if v <= best {
                lemma_among_nodes(k, p, depth, alpha, beta, ext, moves, i + 1, best, r.1);
            } else if lower < beta {
                lemma_among_nodes(k, p, depth, lower, beta, ext, moves, i + 1, v, r.1);
            }
        }
    }
}

proof fn lemma_layer_nodes(
    k: Plan,
    p: Pos,
    v: Seq<Candidate>,
    i: int,
    best_v: int,
    best_i: int,
    t: Trace,
)
    requires
        plan_ok(k),
        0 <= i <= v.len(),
    ensures
        layer(k, p, v, i, best_v, best_i, t).3.nodes <= t.nodes + (v.len() - i) * tree_size(
            k.depth - 1,
        ),
    decreases v.len() - i,
{
    let left = v.len() - i;
    let size = tree_size(k.depth - 1);
    if left > 0 {
        assert(left * size == (left - 1) * size + size) by (nonlinear_arith);
        let next = play_result(p, (v[i].x, v[i].y));
        lemma_sought_nodes(k, next, k.depth - 1, WORST as int, -best_v, 0, t);
        let r = sought(k, next, k.depth - 1, WORST as int, -best_v, 0, t);
        let w = v.update(i, Candidate { value: (-r.0) as i32, ..v[i] });
        assert(w.len() - (i + 1) == left - 1);
        if -r.0 > best_v {
            lemma_layer_nodes(k, p, w, i + 1, -r.0, i, r.1);
        } else {
            lemma_layer_nodes(k, p, w, i + 1, best_v, best_i, r.1);
        }
    } else {
        assert(left * size == 0) by (nonlinear_arith)
            requires
                left == 0,
        ;
    }
}

/// `s` is what the layer of depth `e`, searched from the state `u`, found within the budget,
/// or beyond it at the full depth of the plan.
pub open spec fn completed(
    k: Plan,
    p: Pos,
    start: int,
    e: int,
    u: Deepening,
    s: Deepening,
) -> bool {
    let here = Plan { depth: e as i32, ..k };
    let r = layer(here, p, layer_order(start, e, u.moves), 0, WORST as int, 0, u.trace);
    &&& start <= e <= k.depth
    &&& s.moves == r.0
    &&& s.best_i == r.2
    &&& s.best_v == r.1
    &&& r.3.nodes <= k.budget || e == k.depth
}

/// A search that goes on from depth `d` keeps the candidates, their order and their values
/// as the last complete layer left them, and the best of that layer; a layer that the
/// budget cut short leaves no mark but the number of positions visited.
pub proof fn law_search_keeps_complete_layer(k: Plan, p: Pos, start: int, d: int, s: Deepening)
    requires
        start <= d,
    ensures
        ({
            let r = deepened(k, p, start, d, s);
            ||| r == (Deepening { trace: r.trace, ..s })
            ||| exists|e: int, u: Deepening| #[trigger] completed(k, p, start, e, u, r)
        }),
    decreases k.depth - d + 1,
{
    if d <= k.depth {
        let here = Plan { depth: d as i32, ..k };
        let r = layer(here, p, layer_order(start, d, s.moves), 0, WORST as int, 0, s.trace);
        if !(r.3.nodes > k.budget && d < k.depth) {
            let next = Deepening { moves: r.0, best_i: r.2, best_v: r.1, trace: r.3 };
            law_search_keeps_complete_layer(k, p, start, d + 1, next);
            let end = deepened(k, p, start, d + 1, next);
            if end == (Deepening { trace: end.trace, ..next }) {
                assert(completed(k, p, start, d, s, end));
            }
        }
    }
}

/// The choice of the search rests on a complete layer at every strength: the first layer
/// stays within the budget.
pub proof fn law_advice_rests_on_complete_layer(g: State)
    requires
        state_ok(g),
        g.ai.level >= 1,
    ensures
        ({
            let t = setting_of(g.ai.level);
            let k = plan_of(t, g.rule, g.ai.style, g.pos.size);
            let v = survey(g.pos, t.read_depth as nat, ROOT_BUDGET as int);
            let a = assessed(g.pos, g.rule, v, g.analysis).0;
            let d = deepened_from(k, g.pos, roots_of(g), a);
            exists|e: int, u: Deepening| #[trigger]
                completed(k, g.pos, first_layer(k.depth as int), e, u, d)
        }),
{
    let p = g.pos;
    let t = setting_of(g.ai.level);
    let k = plan_of(t, g.rule, g.ai.style, p.size);
    let v = survey(p, t.read_depth as nat, ROOT_BUDGET as int);
    let a = assessed(p, g.rule, v, g.analysis).0;
    let moves = roots_of(g);
    let start = first_layer(k.depth as int);
    let here = Plan { depth: start as i32, ..k };
    let s = Deepening {
        moves,
        best_i: 0,
        best_v: WORST as int,
        trace: Trace { nodes: 0, study: a },
    };
    lemma_area(p.size);
    lemma_tree_size();
    lemma_urgent_few(p, v, max(t.read_depth as int, 4) as nat, area(p.size) as nat);
    assert(moves.len() <= MAX_WIDTH);
    lemma_layer_nodes(here, p, moves, 0, WORST as int, 0, s.trace);
    let r = layer(here, p, moves, 0, WORST as int, 0, s.trace);
    assert(start == 2 ==> r.3.nodes <= 506);
    let next = Deepening { moves: r.0, best_i: r.2, best_v: r.1, trace: r.3 };
    let end = deepened(k, p, start, start + 1, next);
    assert(deepened_from(k, p, moves, a) == end);
    law_search_keeps_complete_layer(k, p, start, start + 1, next);
    if end == (Deepening { trace: end.trace, ..next }) {
        assert(completed(k, p, start, start, s, end));
    }
}

proof fn lemma_urgent_few(p: Pos, v: Survey, depth: nat, n: nat)
    ensures
        urgent(p, v, depth, n).0.len() <= URGENT_POINTS,
    decreases n,
{
    if n > 0 {
        lemma_urgent_few(p, v, depth, (n - 1) as nat);
    }
}

/// A random state other than 0 stays so, however often advice is asked for.
pub proof fn law_advice_keeps_seed_nonzero(g: State)
    requires
        g.ai.seed != 0,
    ensures
        advised(g).ai.seed != 0,
{
    let p = g.pos;
    let t = setting_of(g.ai.level);
    let k = plan_of(t, g.rule, g.ai.style, p.size);
    let v = survey(p, t.read_depth as nat, ROOT_BUDGET as int);
    let first = assessed(p, g.rule, v, g.analysis);
    let o = Outlook {
        plan: k,
        pos: p,
        survey: v,
        influence: first.0.influence,
        noise: t.noise as int,
        tactical: false,
    };
    lemma_gathered_seed(o, g.ai.seed, area(p.size) as nat);
}

proof fn lemma_gathered_seed(o: Outlook, seed: u32, n: nat)
    requires
        seed != 0,
    ensures
        gathered(o, seed, n).1 != 0,
    decreases n,
{
    if n > 0 {
        lemma_gathered_seed(o, seed, (n - 1) as nat);
        law_state_stays_nonzero(gathered(o, seed, (n - 1) as nat).1);
    }
}

} // verus!
