//! When the opponent resigns, passes and plays, and how it weighs a position.

use crate::advice::{
    choice_of, comes_from, gain, lemma_advised, lemma_gain_after_search, roots_of, urgent_now,
};
use crate::advisor::{
    advised, chosen, deepened, deepened_from, first_layer, first_on, held_to, layer, layer_order,
    plan_of, playable, setting_of, urgent, way_out, with_point, Deepening, Setting,
};
use crate::board::{area, foe, group_points, idx, inb, lemma_area, pos_ok, pt, Pos, Pt, OK};
use crate::candidates::{
    gathered, law_ranking_permutes, law_ranking_sorts, merit, min, plan_ok, ranked, Candidate,
    Outlook, Plan,
};
use crate::census::{law_census_by_chain, survey, Survey};
use crate::chain::{is_eye, is_liberty, lemma_flood, liberties};
use crate::estimate::{assessed, Estimate};
use crate::fairplay::{law_prisoners_left_the_board, number_of};
use crate::game::{state_ok, study_ok, Advisor, State, Study, Style};
use crate::merit::{at_point, good_point, law_candidates_are_all_good_points, on_list};
use crate::minimax::{
    blank, branch_value, branches, law_pruned_search_tells_tree_value, law_tried_moves_are_legal,
    tree_value,
};
use crate::reading::read;
use crate::random::{draw, xorshift};
use crate::rules::{lemma_stone_stays, play_code, play_result};
use crate::search::{
    evaluated, inside_survey, lead, leaf_value, sought, tempo, tree_size, tried_moves, width_at,
    Trace, WORST,
};
use crate::terrain::{breath, lemma_breath};
use crate::influence::influence_map;
use vstd::prelude::*;

verus! {

broadcast use group_points;

/// How many moves deep the chains are read out at each strength from 1 to 10.
pub open spec fn reading_at(level: int) -> int {
    seq![0int, 2, 4, 5, 6, 7, 8, 9, 10, 12][level - 1]
}

/// The estimate on which the opponent rests its advice: with chains read out as its strength
/// says, over at most 600 positions.
pub open spec fn estimate_now(g: State) -> Estimate {
    assessed(
        g.pos,
        g.rule,
        survey(g.pos, reading_at(g.ai.level) as nat, 600),
        g.analysis,
    ).1
}

/// `n` six-hundredths, rounded towards zero.
pub open spec fn six_hundredths(n: int) -> int {
    if n >= 0 {
        n / 600
    } else {
        -((-n) / 600)
    }
}

/// How far Black is ahead by an estimate, in eighths of a point: eight for each point, for
/// each point of the spheres of influence the weight of moyo in six-hundredths of that, less
/// White's compensation of seven and a half points under Chinese rules and of six and a half
/// under the others.
pub open spec fn ahead(rule: u8, moyo: int, e: Estimate) -> int {
    8 * e.black - 8 * e.white + six_hundredths((e.sphere_black - e.sphere_white) * 8 * moyo)
        - if rule == 0 {
        60int
    } else {
        52
    }
}

/// How far the side to move is ahead, in eighths of a point.
pub open spec fn ahead_now(g: State) -> int {
    let l = ahead(g.rule, g.ai.style.moyo as int, estimate_now(g));
    if g.pos.turn == 1 {
        l
    } else {
        -l
    }
}

/// What the settings of the ten strengths are: the depth of the search, the number of moves
/// tried at each level of it, the disturbance, the depth of reading, and the number of
/// positions.
pub proof fn law_strengths(level: int)
    requires
        1 <= level <= 10,
    ensures
        ({
            let t = setting_of(level);
            let i = level - 1;
            &&& t.depth == (level + 1) / 2
            &&& t.w0 == seq![10int, 14, 12, 14, 14, 18, 14, 18, 16, 22][i]
            &&& t.w1 == seq![0int, 0, 8, 9, 10, 12, 11, 13, 12, 16][i]
            &&& t.w2 == seq![0int, 0, 0, 0, 8, 9, 8, 9, 9, 12][i]
            &&& t.w3 == seq![0int, 0, 0, 0, 0, 0, 0, 0, 6, 9][i]
            &&& t.noise == seq![160int, 96, 64, 40, 24, 12, 0, 4, 3, 2][i]
            &&& t.read_depth == reading_at(level)
            &&& t.budget == seq![300int, 400, 700, 900, 1600, 2400, 3600, 5500, 8000, 12000][i]
        }),
{
    assert(level == 1 || level == 2 || level == 3 || level == 4 || level == 5 || level == 6
        || level == 7 || level == 8 || level == 9 || level == 10);
}

/// A plan takes the settings as they are, and counts a fifth of the points of the board as
/// the opening.
pub proof fn law_plan_follows_settings(t: Setting, rule: u8, style: Style, s: int)
    requires
        5 <= s <= 19,
    ensures
        ({
            let k = plan_of(t, rule, style, s);
            &&& k.rule == rule && k.style == style
            &&& k.depth == t.depth && k.budget == t.budget
            &&& k.w0 == t.w0 && k.w1 == t.w1 && k.w2 == t.w2 && k.w3 == t.w3
            &&& 5 * k.opening <= s * s < 5 * k.opening + 5
        }),
{
    reveal(area);
    assert(25 <= s * s <= 361) by (nonlinear_arith)
        requires
            5 <= s <= 19,
    ;
}

proof fn lemma_ahead(g: State)
    requires
        state_ok(g),
        1 <= g.ai.level,
    ensures
        ({
            let v = survey(g.pos, setting_of(g.ai.level).read_depth as nat, 600);
            let e = assessed(g.pos, g.rule, v, g.analysis).1;
            &&& e == estimate_now(g)
            &&& lead(g.rule, g.ai.style.moyo as int, e) == ahead(
                g.rule,
                g.ai.style.moyo as int,
                e,
            )
        }),
{
    law_strengths(g.ai.level);
}

/// The opponent, when it is on, resigns if and only if more than three fifths of the points
/// have been played and the side to move is more than 25 points behind, compensation
/// counted, on boards of every size.
pub proof fn law_resigns_when_far_behind(g: State)
    requires
        state_ok(g),
    ensures
        advised(g).ai.action == 2 <==> {
            &&& g.ai.level >= 1
            &&& g.pos.move_count > g.pos.size * g.pos.size * 3 / 5
            &&& ahead_now(g) < -200
        },
        advised(g).ai.action == 2 ==> advised(g).analysis == assessed(
            g.pos,
            g.rule,
            survey(g.pos, reading_at(g.ai.level) as nat, 600),
            g.analysis,
        ).0,
        advised(g).ai.action == 2 ==> advised(g).ai == (Advisor {
            action: 2,
            x: -1,
            y: -1,
            nodes: 0,
            ..g.ai
        }),
{
    reveal(area);
    if g.ai.level >= 1 {
        lemma_ahead(g);
    }
}

/// The opponent answers a pass with a pass, without looking for a move, if and only if more
/// than half of the points have been played and the side to move is ahead. Switched off it
/// always passes, and leaves all else as it was.
pub proof fn law_passes_when_ahead(g: State)
    requires
        state_ok(g),
    ensures
        ({
            let a = advised(g).ai;
            let answers = g.pos.move_count > 0 && g.pos.last.0 == -1 && g.pos.move_count
                > g.pos.size * g.pos.size / 2 && ahead_now(g) > 0;
            &&& g.ai.level < 1 ==> a == (Advisor { action: 0, x: -1, y: -1, ..g.ai })
            &&& g.ai.level >= 1 && answers ==> a == (Advisor {
                action: 0,
                x: -1,
                y: -1,
                nodes: 0,
                ..g.ai
            })
            &&& g.ai.level >= 1 && !answers && a.action == 0 ==> roots_of(g).len() == 0
                || g.pos.move_count > g.pos.size * g.pos.size / 3
            &&& g.ai.level < 1 ==> advised(g).analysis == g.analysis
            &&& g.ai.level >= 1 && answers ==> advised(g).analysis == assessed(
                g.pos,
                g.rule,
                survey(g.pos, reading_at(g.ai.level) as nat, 600),
                g.analysis,
            ).0
        }),
{
    reveal(area);
    if g.ai.level >= 1 {
        lemma_ahead(g);
    }
}

/// Once a third of the points have been played, a pass that does not answer a pass while
/// ahead means that no move gains points, but for those on an eye.
pub proof fn law_late_pass_costs_nothing(g: State, i: int)
    requires
        state_ok(g),
        g.ai.level >= 1,
        g.pos.move_count > g.pos.size * g.pos.size / 3,
        !(g.pos.move_count > 0 && g.pos.last.0 == -1 && g.pos.move_count > g.pos.size * g.pos.size
            / 2 && ahead_now(g) > 0),
        roots_of(g).len() > 0,
        advised(g).ai.action == 0,
        0 <= i < g.pos.size * g.pos.size,
        g.pos.board[i] == 0,
        play_code(g.pos, pt(g.pos.size, i)) == 0,
        !is_eye(g.pos.size, g.pos.board, pt(g.pos.size, i), g.pos.turn),
    ensures
        gain(g, pt(g.pos.size, i)) <= 0,
{
    reveal(area);
    lemma_ahead(g);
    lemma_advised(g);
    assert(playable(g.pos, i));
}

/// While at most a third of the points have been played, the opponent plays the move that
/// its search prefers whenever there is one to try.
pub proof fn law_plays_early(g: State)
    requires
        state_ok(g),
        g.ai.level >= 1,
        g.pos.move_count <= g.pos.size * g.pos.size / 3,
        roots_of(g).len() > 0,
    ensures
        advised(g).ai.action == 1,
        comes_from(choice_of(g), roots_of(g)),
        advised(g).ai.x == choice_of(g).x,
        advised(g).ai.y == choice_of(g).y,
{
    reveal(area);
    let n = g.pos.size * g.pos.size;
    assert(n >= 0) by (nonlinear_arith)
        requires
            n == g.pos.size * g.pos.size,
    ;
    lemma_advised(g);
}

/// After advice the analysis is the one made last: while at most a third of the points have
/// been played that of the search, later, where the preferred move gains, that of the
/// position after it.
pub proof fn law_analysis_after_advice(g: State)
    requires
        state_ok(g),
        g.ai.level >= 1,
        advised(g).ai.action == 1,
    ensures
        ({
            let k = plan_of(setting_of(g.ai.level), g.rule, g.ai.style, g.pos.size);
            let v = survey(g.pos, reading_at(g.ai.level) as nat, 600);
            let d = deepened_from(k, g.pos, roots_of(g), assessed(g.pos, g.rule, v, g.analysis).0);
            let r = play_result(g.pos, (choice_of(g).x, choice_of(g).y));
            &&& g.pos.move_count <= g.pos.size * g.pos.size / 3 ==> advised(g).analysis
                == d.trace.study
            &&& g.pos.move_count > g.pos.size * g.pos.size / 3 && gain(
                g,
                (choice_of(g).x, choice_of(g).y),
            ) > 0 ==> advised(g).analysis == assessed(
                r,
                g.rule,
                survey(r, 0, 0),
                d.trace.study,
            ).0
        }),
{
    reveal(area);
    law_strengths(g.ai.level);
    lemma_ahead(g);
    lemma_gain_after_search(g);
}

/// The move that the search prefers is played whenever it gains points, unless the opponent
/// resigns or answers a pass.
pub proof fn law_plays_what_gains(g: State)
    requires
        state_ok(g),
        g.ai.level >= 1,
        advised(g).ai.action != 2,
        !(g.pos.move_count > 0 && g.pos.last.0 == -1 && g.pos.move_count > g.pos.size * g.pos.size
            / 2 && ahead_now(g) > 0),
        roots_of(g).len() > 0,
        gain(g, (choice_of(g).x, choice_of(g).y)) > 0,
    ensures
        advised(g).ai.action == 1,
        advised(g).ai.x == choice_of(g).x,
        advised(g).ai.y == choice_of(g).y,
{
    reveal(area);
    lemma_ahead(g);
    lemma_advised(g);
}

/// What a move on `q` gains late in the game: the points of the side that plays it in an
/// estimate of the position after it, with no chain read out, less those before it.
pub proof fn law_gain_of_a_move(g: State, q: Pt)
    requires
        state_ok(g),
        g.ai.level >= 1,
    ensures
        ({
            let r = play_result(g.pos, q);
            let after = assessed(r, g.rule, survey(r, 0, 0), g.analysis).1;
            &&& g.pos.turn == 1 ==> gain(g, q) == after.black - estimate_now(g).black
            &&& g.pos.turn == 2 ==> gain(g, q) == after.white - estimate_now(g).white
        }),
{
    lemma_ahead(g);
}

/// A value held to a range is in it, is the value itself where that is in it, and is the
/// nearest end where it is not.
pub proof fn law_held_to_range(v: int, lo: int, hi: int)
    requires
        lo <= hi,
    ensures
        lo <= held_to(v, lo, hi) <= hi,
        lo <= v <= hi ==> held_to(v, lo, hi) == v,
        v < lo ==> held_to(v, lo, hi) == lo,
        v > hi ==> held_to(v, lo, hi) == hi,
{
}

/// What the stones on the first `n` points mean for the side to move, up to twelve stones a
/// chain counted: -24 for its own in atari, or 16 if they are given up already, 16 for the
/// other side's in atari unless those are, and -6 for its own with two liberties in contact
/// with the other side.
pub open spec fn chances(p: Pos, v: Survey, n: nat) -> int
    decreases n,
{
    if n == 0 {
        0
    } else {
        let i = n - 1;
        let size: int = if v.size[i] < 12 {
            v.size[i] as int
        } else {
            12
        };
        let mine = p.board[i] == p.turn;
        let theirs = p.board[i] != 0 && p.board[i] != p.turn;
        chances(p, v, (n - 1) as nat) + if mine && v.libs[i] == 1 && !v.dead[i] {
            -24 * size
        } else if mine && v.libs[i] == 1 {
            16 * size
        } else if theirs && v.libs[i] == 1 && !v.dead[i] {
            16 * size
        } else if mine && v.libs[i] == 2 && v.contact[i] && !v.dead[i] {
            -6 * size
        } else {
            0
        }
    }
}

proof fn lemma_chances(p: Pos, v: Survey, n: nat)
    requires
        p.turn != 0,
    ensures
        chances(p, v, n) == tempo(p, v, n),
    decreases n,
{
    if n > 0 {
        lemma_chances(p, v, (n - 1) as nat);
    }
}

/// The value of a position for the side to move is what it is ahead by the estimate, and
/// its chances in the fights on the board. At the end of a search chains are read out four
/// moves deep, over at most 150 positions.
pub proof fn law_value_of_a_position(rule: u8, moyo: int, p: Pos, v: Survey, a: Study)
    requires
        pos_ok(p),
    ensures
        ({
            let l = ahead(rule, moyo, assessed(p, rule, v, a).1);
            let c = chances(p, v, (p.size * p.size) as nat);
            &&& p.turn == 1 ==> evaluated(rule, moyo, p, v, a).0 == l + c
            &&& p.turn == 2 ==> evaluated(rule, moyo, p, v, a).0 == c - l
            &&& evaluated(rule, moyo, p, v, a).1 == assessed(p, rule, v, a).0
        }),
        leaf_value(rule, moyo, p, a) == evaluated(rule, moyo, p, survey(p, 4, 150), a),
{
    reveal(area);
    lemma_area(p.size);
    lemma_chances(p, v, area(p.size) as nat);
}

/// Searching tries as many moves at each of its levels as its plan says, and six beyond the
/// fourth.
pub proof fn law_width_by_level(k: Plan, level: int)
    requires
        0 <= level <= k.depth,
    ensures
        level == 0 ==> width_at(k, k.depth - level) == k.w0,
        level == 1 ==> width_at(k, k.depth - level) == k.w1,
        level == 2 ==> width_at(k, k.depth - level) == k.w2,
        level == 3 ==> width_at(k, k.depth - level) == k.w3,
        level >= 4 ==> width_at(k, k.depth - level) == 6,
{
}

/// The value that the branch with index `m` leaves the other side.
pub open spec fn branch_at(k: Plan, p: Pos, depth: int, m: int) -> int {
    let c = branches(k, p, depth)[m];
    tree_value(k, play_result(p, (c.x, c.y)), depth - 1)
}

proof fn lemma_branches(k: Plan, p: Pos, depth: int, n: nat)
    requires
        depth > 0,
        n <= branches(k, p, depth).len(),
    ensures
        ({
            let v = branch_value(k, p, depth, branches(k, p, depth), n);
            &&& forall|j: int| 0 <= j < n ==> v >= -#[trigger] branch_at(k, p, depth, j)
            &&& v == -1000000 || exists|j: int|
                0 <= j < n && v == -#[trigger] branch_at(k, p, depth, j)
        }),
    decreases n,
{
    if n > 0 {
        lemma_branches(k, p, depth, (n - 1) as nat);
        law_tried_moves_are_legal(
            k,
            p,
            depth,
            false,
            influence_map(
                p,
                inside_survey(p, false).strength,
                blank().influence,
            ),
            n - 1,
        );
        assert(-branch_at(k, p, depth, n - 1) <= branch_value(
            k,
            p,
            depth,
            branches(k, p, depth),
            n,
        ));
    }
}

/// The value of a game tree: at its leaves the evaluation; elsewhere, for the side to move,
/// the greatest of what the moves tried take from the other side.
pub proof fn law_tree_value_is_greatest(k: Plan, p: Pos, depth: int)
    requires
        depth > 0,
        branches(k, p, depth).len() > 0,
    ensures
        forall|j: int|
            0 <= j < branches(k, p, depth).len() ==> tree_value(k, p, depth)
                >= -#[trigger] branch_at(k, p, depth, j),
        tree_value(k, p, depth) == -1000000 || exists|j: int|
            0 <= j < branches(k, p, depth).len() && tree_value(k, p, depth)
                == -#[trigger] branch_at(k, p, depth, j),
        tree_value(k, p, 0) == leaf_value(k.rule, k.style.moyo as int, p, blank()).0,
{
    lemma_branches(k, p, depth, branches(k, p, depth).len());
}

/// The outlook with which a search picks the moves to try.
pub open spec fn search_outlook(k: Plan, p: Pos, tactical: bool, influence: Seq<i32>) -> Outlook {
    Outlook {
        plan: k,
        pos: p,
        survey: if tactical {
            survey(p, 4, 150)
        } else {
            survey(p, 0, 0)
        },
        influence,
        noise: 0,
        tactical,
    }
}

/// A search tries the best moves that there are: every good point is tried, unless as many
/// as the width allows are tried and none of them has a lower merit.
pub proof fn law_tried_moves_are_best(
    k: Plan,
    p: Pos,
    depth: int,
    tactical: bool,
    influence: Seq<i32>,
    i: int,
)
    requires
        pos_ok(p),
        0 <= i < p.size * p.size,
        good_point(search_outlook(k, p, tactical, influence), i),
        width_at(k, depth) >= 0,
    ensures
        ({
            let o = search_outlook(k, p, tactical, influence);
            let v = tried_moves(k, p, depth, tactical, influence);
            ||| on_list(o, v, i)
            ||| v.len() == width_at(k, depth) && forall|j: int|
                0 <= j < v.len() ==> (#[trigger] v[j]).score >= merit(o, i) as i32
        }),
{
    let o = search_outlook(k, p, tactical, influence);
    let n = area(p.size) as nat;
    reveal(area);
    lemma_area(p.size);
    law_candidates_are_all_good_points(o, 0, n);
    let all = gathered(o, 0, n).0;
    let w = width_at(k, depth);
    let m = min(w, all.len() as int);
    let u = ranked(all, false, m as nat);
    law_ranking_permutes(all, false, m as nat);
    let v = tried_moves(k, p, depth, tactical, influence);
    assert(v == u.take(m));
    assert(on_list(o, all, i));
    let j = choose|j: int| 0 <= j < all.len() && #[trigger] at_point(o, all[j], i);
    assert(u.contains(all[j])) by {
        all.to_multiset_ensures();
        u.to_multiset_ensures();
        assert(all.contains(all[j]));
        assert(all.to_multiset().count(all[j]) > 0);
    }
    let a = choose|a: int| 0 <= a < u.len() && u[a] == all[j];
    if a < m {
        assert(at_point(o, v[a], i));
    } else {
        assert forall|b: int| 0 <= b < v.len() implies (#[trigger] v[b]).score >= merit(o, i)
            as i32 by {
            law_ranking_sorts(all, false, m as nat, b, a);
            assert(v[b] == u[b]);
        }
    }
}

/// The candidate is as good as the best, within 16 eighths of a point if its score is at
/// least 300, else within 4.
pub open spec fn near_best(c: Candidate, best: int) -> bool {
    c.value >= best - if c.score >= 300 {
        16int
    } else {
        4
    }
}

/// Of the candidates that are nearly as good as the best, the choice falls on one with the
/// highest score, and leaves the best only for a higher one.
pub proof fn law_choice_near_best(v: Seq<Candidate>, best_i: int, best_v: int, n: nat)
    requires
        0 <= best_i < v.len(),
        n <= v.len(),
    ensures
        ({
            let c = chosen(v, best_i, best_v, n);
            &&& 0 <= c < v.len()
            &&& c == best_i || (c < n && near_best(v[c], best_v) && v[c].score > v[best_i].score)
            &&& forall|j: int|
                0 <= j < n && near_best(#[trigger] v[j], best_v) ==> v[j].score <= v[c].score
        }),
    decreases n,
{
    if n > 0 {
        law_choice_near_best(v, best_i, best_v, (n - 1) as nat);
    }
}

/// What the move of the candidate is worth by a search that starts with the bound `best` and
/// the trace `t`.
pub open spec fn search_value(k: Plan, p: Pos, c: Candidate, best: int, t: Trace) -> int {
    -sought(k, play_result(p, (c.x, c.y)), k.depth - 1, -1000000, -best, 0, t).0
}

/// A layer of the search gives every candidate the value that a search of its move finds,
/// and tells the greatest and where it was found.
pub proof fn law_layer_finds_the_best(
    k: Plan,
    p: Pos,
    v: Seq<Candidate>,
    i: int,
    best_v: int,
    best_i: int,
    t: Trace,
)
    requires
        0 <= i <= v.len(),
        0 <= best_i,
    ensures
        ({
            let r = layer(k, p, v, i, best_v, best_i, t);
            &&& r.0.len() == v.len()
            &&& r.1 >= best_v
            &&& forall|j: int| 0 <= j < i ==> #[trigger] r.0[j] == v[j]
            &&& forall|j: int| i <= j < v.len() ==> valued(k, p, v[j], #[trigger] r.0[j], r.1)
            &&& r.1 == best_v ==> r.2 == best_i
            &&& r.1 > best_v ==> i <= r.2 < v.len() && r.0[r.2].value == r.1 as i32
        }),
    decreases v.len() - i,
{
    if i < v.len() {
        let q: Pt = (v[i].x, v[i].y);
        let r = sought(k, play_result(p, q), k.depth - 1, WORST as int, -best_v, 0, t);
        let value = -r.0;
        assert(value == search_value(k, p, v[i], best_v, t));
        let w = v.update(i, Candidate { value: value as i32, ..v[i] });
        let b = if value > best_v {
            value
        } else {
            best_v
        };
        let bi = if value > best_v {
            i
        } else {
            best_i
        };
        law_layer_finds_the_best(k, p, w, i + 1, b, bi, r.1);
        let end = layer(k, p, v, i, best_v, best_i, t);
        assert(end == layer(k, p, w, i + 1, b, bi, r.1));
        assert forall|j: int| i <= j < v.len() implies valued(
            k,
            p,
            v[j],
            #[trigger] end.0[j],
            end.1,
        ) by {
            if j == i {
                assert(end.0[i] == w[i]);
                assert(search_value(k, p, v[i], best_v, t) <= end.1);
            } else {
                assert(valued(k, p, w[j], end.0[j], end.1));
            }
        }
    }
}

/// The candidate `r` is `v` with the value of a search of its move, which is at most `top`.
pub open spec fn valued(k: Plan, p: Pos, v: Candidate, r: Candidate, top: int) -> bool {
    &&& r.x == v.x && r.y == v.y && r.score == v.score
    &&& exists|b: int, t: Trace|
        r.value == (#[trigger] search_value(k, p, v, b, t)) as i32 && search_value(k, p, v, b, t)
            <= top
}

/// `e` is the last liberty of a chain in atari: one of the other side, which a move there
/// captures, or one of the side to move, to which a move there gives two liberties, or a
/// capture.
pub open spec fn urgent_reason(p: Pos, e: Pt, q: Pt) -> bool {
    let r = play_result(p, e);
    &&& inb(p.size, q)
    &&& p.board[idx(p.size, q)] != 0
    &&& breath(p.size, p.board, q).len() == 1
    &&& is_liberty(p.size, p.board, q, e)
    &&& p.board[idx(p.size, q)] == p.turn ==> breath(p.size, r.board, e).len() >= 2 || number_of(
        r,
        foe(p.turn),
    ) < number_of(p, foe(p.turn))
}

proof fn lemma_with_point(v: Seq<Pt>, e: Pt)
    ensures
        forall|x: Pt| #[trigger] with_point(v, e).contains(x) <==> v.contains(x) || x == e,
        v.no_duplicates() ==> with_point(v, e).no_duplicates(),
        v.len() <= with_point(v, e).len() <= v.len() + 1,
{
    let w = with_point(v, e);
    if !v.contains(e) {
        assert(w[v.len() as int] == e);
        assert forall|x: Pt| #[trigger] w.contains(x) <==> v.contains(x) || x == e by {
            if v.contains(x) {
                let j = choose|j: int| 0 <= j < v.len() && v[j] == x;
                assert(w[j] == x);
            }
        }
    }
}

/// The urgent points are legal moves, at most eight and all different, each of which takes
/// or rescues a chain in atari. Unless there are eight, every legal move that takes a chain
/// in atari on the first `n` points is among them.
#[verifier::rlimit(60)]
pub proof fn law_urgent_points(p: Pos, read_to: nat, budget: int, depth: nat, n: nat)
    requires
        pos_ok(p),
        n <= p.size * p.size,
    ensures
        urgent(p, survey(p, read_to, budget), depth, n).0.len() <= 8,
        urgent(p, survey(p, read_to, budget), depth, n).0.no_duplicates(),
        forall|e: Pt| #[trigger]
            urgent(p, survey(p, read_to, budget), depth, n).0.contains(e) ==> play_code(p, e) == 0
                && exists|q: Pt| #[trigger] urgent_reason(p, e, q),
        urgent(p, survey(p, read_to, budget), depth, n).0.len() < 8 ==> forall|q: Pt, e: Pt|
            inb(p.size, q) && idx(p.size, q) < n && p.board[idx(p.size, q)] == foe(p.turn)
                && breath(p.size, p.board, q).len() == 1 && #[trigger] is_liberty(
                p.size,
                p.board,
                q,
                e,
            ) && play_code(p, e) == 0 ==> urgent(
                p,
                survey(p, read_to, budget),
                depth,
                n,
            ).0.contains(e),
    decreases n,
{
    let s = p.size;
    let b = p.board;
    let v = survey(p, read_to, budget);
    reveal(area);
    if n > 0 {
        let m = (n - 1) as nat;
        law_urgent_points(p, read_to, budget, depth, m);
        let prev = urgent(p, v, depth, m);
        let now = urgent(p, v, depth, n);
        let i = n - 1;
        let q = pt(s, i);
        assert(idx(s, q) == i);
        law_census_by_chain(p, read_to, budget, q);
        let libs = liberties(s, b, q);
        assert forall|r: Pt| inb(s, r) && idx(s, r) < n implies r == q || #[trigger] idx(s, r)
            < m by {
            assert(pt(s, idx(s, r)) == r);
        }
        if b[i] != 0 {
            lemma_breath(s, b, q);
            lemma_flood(s, b, q);
            if libs.len() == 1 {
                let e = libs[0];
                assert(libs.contains(e));
                assert(is_liberty(s, b, q, e));
                assert forall|x: Pt| #[trigger] is_liberty(s, b, q, x) implies x == e by {
                    assert(libs.contains(x));
                }
                if play_code(p, e) == OK {
                    lemma_stone_stays(s, b, e, p.turn);
                    lemma_breath(s, play_result(p, e).board, e);
                    law_prisoners_left_the_board(p, e);
                }
                if b[i] != p.turn && play_code(p, e) == OK {
                    assert(urgent_reason(p, e, q));
                }
                if way_out(p, q) is Some && b[i] == p.turn {
                    assert(urgent_reason(p, e, q));
                }
                lemma_with_point(prev.0, e);
                if b[i] == foe(p.turn) && prev.0.len() < 8 && play_code(p, e) == OK {
                    assert(now.0 == with_point(prev.0, e));
                }
            }
        }
    }
}

/// The random state is shifted left by 13, right by 17 and left by 5, each time combined
/// with what it was; a draw is the upper half of the state, reduced to the range.
pub proof fn law_random_sequence(x: u32, range: int)
    ensures
        xorshift(x) == (x ^ (x << 13u32) ^ ((x ^ (x << 13u32)) >> 17u32)) ^ ((x ^ (x << 13u32) ^ ((x
            ^ (x << 13u32)) >> 17u32)) << 5u32),
        range >= 1 ==> draw(x, range) == (x / 65536) as int % range,
        range < 1 ==> draw(x, range) == 0,
{
    assert(x >> 16u32 == x / 65536) by (bit_vector);
}

/// A search that has used up its positions, or its depth, evaluates; it counts the position
/// either way.
pub proof fn law_search_ends_in_evaluation(
    k: Plan,
    p: Pos,
    depth: int,
    alpha: int,
    beta: int,
    t: Trace,
)
    requires
        t.nodes >= k.budget || depth <= 0,
    ensures
        ({
            let r = sought(k, p, depth, alpha, beta, 0, t);
            let leaf = leaf_value(k.rule, k.style.moyo as int, p, t.study);
            &&& r.0 == leaf.0
            &&& r.1.nodes == t.nodes + 1
            &&& r.1.study == leaf.1
        }),
{
}

/// Within its positions the search of a move tells the value of its game tree, as far as
/// that lies between the bounds.
pub proof fn law_search_tells_tree_value(
    k: Plan,
    p: Pos,
    depth: int,
    alpha: int,
    beta: int,
    t: Trace,
)
    requires
        plan_ok(k),
        5 <= p.size <= 19,
        study_ok(t.study),
        0 <= depth,
        alpha < beta,
        t.nodes + tree_size(depth) <= k.budget,
    ensures
        ({
            let r = sought(k, p, depth, alpha, beta, 0, t).0;
            let m = tree_value(k, p, depth);
            &&& alpha < r < beta ==> m == r
            &&& r <= alpha ==> m <= r
            &&& r >= beta ==> m >= r
        }),
{
    law_pruned_search_tells_tree_value(k, p, depth, alpha, beta, t);
}

/// The moves among which the search decides: the urgent points, with a score of 10000 each,
/// where there are any; else the best candidates, as many as the strength says and disturbed
/// as it says.
pub proof fn law_roots(g: State)
    requires
        state_ok(g),
        g.ai.level >= 1,
    ensures
        ({
            let p = g.pos;
            let t = setting_of(g.ai.level);
            let d = reading_at(g.ai.level);
            let v = survey(p, d as nat, 600);
            let u = urgent(
                p,
                v,
                (if d < 4 {
                    4
                } else {
                    d
                }) as nat,
                (p.size * p.size) as nat,
            ).0;
            let all = gathered(root_outlook(g), g.ai.seed, (p.size * p.size) as nat).0;
            let w: int = if t.w0 < all.len() {
                t.w0 as int
            } else {
                all.len() as int
            };
            let r = roots_of(g);
            &&& u.len() > 0 ==> r.len() == u.len() && forall|j: int|
                0 <= j < u.len() ==> (#[trigger] r[j]).x == u[j].0 && r[j].y == u[j].1 && r[j].score
                    == 10000
            &&& u.len() == 0 ==> r == ranked(all, false, w as nat).take(w)
        }),
{
    reveal(area);
    law_strengths(g.ai.level);
    let p = g.pos;
    let t = setting_of(g.ai.level);
    let all = gathered(root_outlook(g), g.ai.seed, area(p.size) as nat).0;
    law_ranking_permutes(all, false, min(t.w0 as int, all.len() as int) as nat);
}

/// A search that may go three moves deep or more starts with two; a shorter one starts at
/// its depth. Every later layer takes the moves in the order of the values found before.
pub proof fn law_search_deepens(depth: int, d: int, v: Seq<Candidate>)
    ensures
        depth >= 3 ==> first_layer(depth) == 2,
        depth < 3 ==> first_layer(depth) == depth,
        d <= first_layer(depth) ==> layer_order(first_layer(depth), d, v) == v,
        d > first_layer(depth) ==> {
            let w = layer_order(first_layer(depth), d, v);
            &&& w.to_multiset() == v.to_multiset()
            &&& forall|i: int, j: int|
                0 <= i < j < w.len() ==> (#[trigger] w[i]).value >= (#[trigger] w[j]).value
        },
{
    law_ranking_permutes(v, true, v.len());
    assert forall|i: int, j: int| 0 <= i < j < v.len() implies (#[trigger] ranked(
        v,
        true,
        v.len(),
    )[i]).value >= (#[trigger] ranked(v, true, v.len())[j]).value by {
        law_ranking_sorts(v, true, v.len(), i, j);
    }
}

/// Once a third of the points have been played and the move that the search prefers gains
/// nothing, a move that is advised gains at least as much as any other that fills no eye,
/// and more than those on points before it.
pub proof fn law_late_advice_gains_most(g: State, i: int)
    requires
        state_ok(g),
        g.pos.move_count > g.pos.size * g.pos.size / 3,
        advised(g).ai.action == 1,
        gain(g, (choice_of(g).x, choice_of(g).y)) <= 0,
        0 <= i < g.pos.size * g.pos.size,
        g.pos.board[i] == 0,
        play_code(g.pos, pt(g.pos.size, i)) == 0,
        !is_eye(g.pos.size, g.pos.board, pt(g.pos.size, i), g.pos.turn),
    ensures
        gain(g, pt(g.pos.size, i)) <= gain(
            g,
            (advised(g).ai.x as i32, advised(g).ai.y as i32),
        ),
        i < idx(g.pos.size, (advised(g).ai.x as i32, advised(g).ai.y as i32)) ==> gain(
            g,
            pt(g.pos.size, i),
        ) < gain(g, (advised(g).ai.x as i32, advised(g).ai.y as i32)),
{
    reveal(area);
    lemma_advised(g);
    assert(playable(g.pos, i));
}

/// After a search the record lists the moves that it tried, each where the last complete
/// layer left it, with its score and value.
pub proof fn law_search_is_recorded(g: State, j: int)
    requires
        state_ok(g),
        g.ai.level >= 1,
        advised(g).ai.action != 2,
        !(g.pos.move_count > 0 && g.pos.last.0 == -1 && g.pos.move_count > g.pos.size * g.pos.size
            / 2 && ahead_now(g) > 0),
        0 <= j < roots_of(g).len(),
    ensures
        ({
            let t = setting_of(g.ai.level);
            let k = plan_of(t, g.rule, g.ai.style, g.pos.size);
            let v = survey(g.pos, reading_at(g.ai.level) as nat, 600);
            let d = deepened_from(k, g.pos, roots_of(g), assessed(g.pos, g.rule, v, g.analysis).0);
            let a = advised(g).ai;
            &&& a.rc_n == d.moves.len()
            &&& a.nodes == d.trace.nodes
            &&& j < d.moves.len() ==> a.rc_x[j] == d.moves[j].x && a.rc_y[j] == d.moves[j].y
                && a.rc_sc[j] == d.moves[j].score && a.rc_vb[j] == d.moves[j].value
        }),
{
    reveal(area);
    law_strengths(g.ai.level);
    lemma_ahead(g);
    lemma_roots_few(g);
}

/// The outlook with which candidates are found at the root.
pub open spec fn root_outlook(g: State) -> Outlook {
    let t = setting_of(g.ai.level);
    let v = survey(g.pos, reading_at(g.ai.level) as nat, 600);
    Outlook {
        plan: plan_of(t, g.rule, g.ai.style, g.pos.size),
        pos: g.pos,
        survey: v,
        influence: assessed(g.pos, g.rule, v, g.analysis).0.influence,
        noise: t.noise as int,
        tactical: false,
    }
}

/// Advice draws random numbers only for finding candidates: the state is as it was where
/// the opponent is off, resigns, answers a pass or has urgent points, and where the search for
/// candidates left it otherwise. Without a move to try, it passes.
pub proof fn law_advice_draws_for_candidates(g: State)
    requires
        state_ok(g),
    ensures
        ({
            let a = advised(g).ai;
            let answers = g.pos.move_count > 0 && g.pos.last.0 == -1 && g.pos.move_count
                > g.pos.size * g.pos.size / 2 && ahead_now(g) > 0;
            let forced = urgent_now(g).len() > 0;
            &&& g.ai.level < 1 || a.action == 2 || answers || forced ==> a.seed == g.ai.seed
            &&& g.ai.level >= 1 && a.action != 2 && !answers && !forced ==> a.seed == gathered(
                root_outlook(g),
                g.ai.seed,
                (g.pos.size * g.pos.size) as nat,
            ).1
            &&& g.ai.level >= 1 && a.action != 2 && !answers && roots_of(g).len() == 0 ==> a.action
                == 0 && a.nodes == 0
        }),
{
    reveal(area);
    if g.ai.level >= 1 {
        law_strengths(g.ai.level);
        lemma_ahead(g);
    }
}

/// The search tries at most as many moves as there is room for in the record.
proof fn lemma_roots_few(g: State)
    requires
        state_ok(g),
        g.ai.level >= 1,
    ensures
        roots_of(g).len() <= 22,
{
    law_roots(g);
    law_strengths(g.ai.level);
    let p = g.pos;
    let d = reading_at(g.ai.level);
    reveal(area);
    law_urgent_points(
        p,
        d as nat,
        600,
        (if d < 4 {
            4
        } else {
            d
        }) as nat,
        area(p.size) as nat,
    );
    let t = setting_of(g.ai.level);
    let all = gathered(root_outlook(g), g.ai.seed, area(p.size) as nat).0;
    law_ranking_permutes(all, false, min(t.w0 as int, all.len() as int) as nat);
}

/// Asking for a point finds the first record of it from `i` on, or the end of the list.
pub proof fn law_probe_finds_first(a: Advisor, x: i32, y: i32, i: int)
    requires
        0 <= i <= a.rc_n,
    ensures
        ({
            let f = first_on(a, x, y, i);
            &&& i <= f <= a.rc_n
            &&& f < a.rc_n ==> a.rc_x[f] == x && a.rc_y[f] == y
            &&& forall|j: int| i <= j < f ==> !(#[trigger] a.rc_x[j] == x && a.rc_y[j] == y)
        }),
    decreases a.rc_n - i,
{
    if i < a.rc_n && !(a.rc_x[i] == x && a.rc_y[i] == y) {
        law_probe_finds_first(a, x, y, i + 1);
    }
}

/// The search deepens layer by layer, up to its depth, as long as its positions last. A layer
/// in which they run out, other than the last, is dropped but for the trace.
pub proof fn law_search_goes_on(k: Plan, p: Pos, start: int, d: int, s: Deepening)
    ensures
        ({
            let r = layer(
                Plan { depth: d as i32, ..k },
                p,
                layer_order(start, d, s.moves),
                0,
                -1000000,
                0,
                s.trace,
            );
            &&& d > k.depth ==> deepened(k, p, start, d, s) == s
            &&& d < k.depth && r.3.nodes > k.budget ==> deepened(k, p, start, d, s) == (Deepening {
                trace: r.3,
                ..s
            })
            &&& d == k.depth ==> deepened(k, p, start, d, s) == (Deepening {
                moves: r.0,
                best_i: r.2,
                best_v: r.1,
                trace: r.3,
            })
            &&& d < k.depth && r.3.nodes <= k.budget ==> deepened(k, p, start, d, s) == deepened(
                k,
                p,
                start,
                d + 1,
                (Deepening { moves: r.0, best_i: r.2, best_v: r.1, trace: r.3 }),
            )
        }),
        forall|moves: Seq<Candidate>, a: Study| #[trigger]
            deepened_from(k, p, moves, a) == deepened(
                k,
                p,
                first_layer(k.depth as int),
                first_layer(k.depth as int),
                (Deepening {
                    moves,
                    best_i: 0,
                    best_v: -1000000,
                    trace: (Trace { nodes: 0, study: a }),
                }),
            ),
{
    reveal_with_fuel(deepened, 3);
}

/// Going on to the next point, the last liberty of a chain of the side to move in atari
/// becomes urgent where a move there gives it two liberties or captures, and reading does not
/// give the chain up; else, and where it is given up, nothing does.
pub proof fn law_urgent_rescues(p: Pos, read_to: nat, budget: int, depth: nat, n: nat, e: Pt)
    requires
        pos_ok(p),
        n < p.size * p.size,
        p.board[n as int] == p.turn,
        breath(p.size, p.board, pt(p.size, n as int)).len() == 1,
        is_liberty(p.size, p.board, pt(p.size, n as int), e),
        urgent(p, survey(p, read_to, budget), depth, n).0.len() < 8,
    ensures
        ({
            let v = survey(p, read_to, budget);
            let u = urgent(p, v, depth, n);
            let w = urgent(p, v, depth, n + 1);
            let r = play_result(p, e);
            let lost = read(p, pt(p.size, n as int), depth, false, u.1, 600);
            let out = play_code(p, e) == 0 && (breath(p.size, r.board, e).len() >= 2 || number_of(
                r,
                foe(p.turn),
            ) < number_of(p, foe(p.turn)));
            &&& w.1 == lost.1
            &&& out && !lost.0 ==> w.0.contains(e)
            &&& !out || lost.0 ==> w.0 == u.0
        }),
{
    let s = p.size;
    let b = p.board;
    let q = pt(s, n as int);
    reveal(area);
    lemma_area(s);
    assert(idx(s, q) == n);
    law_census_by_chain(p, read_to, budget, q);
    lemma_breath(s, b, q);
    lemma_flood(s, b, q);
    let libs = liberties(s, b, q);
    assert(libs.contains(e));
    assert(libs[0] == e);
    if play_code(p, e) == OK {
        lemma_stone_stays(s, b, e, p.turn);
        lemma_breath(s, play_result(p, e).board, e);
        law_prisoners_left_the_board(p, e);
    }
    lemma_with_point(urgent(p, survey(p, read_to, budget), depth, n).0, e);
}

} // verus!
