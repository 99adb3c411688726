//! What the pruned search finds: bounds on, or the value of, the full game tree.

use crate::board::{area, group_points, idx, inb, lemma_area, lemma_idx, Pos, Pt, CELLS, MAX, OK};
use crate::candidates::{
    considered, expansion, gathered, law_ranking_permutes, lemma_ranked_from, merit, min, plan_ok,
    Candidate, Outlook, Plan, MAX_WIDTH,
};
use crate::census::survey;
use crate::estimate::{agree, lemma_estimate_agrees, lemma_influence_agrees};
use crate::game::{study_ok, Study};
use crate::influence::influence_map;
use crate::rules::{play_code, play_result};
use crate::search::{
    inside_survey, leaf_value, lemma_tree_positive, sought, sought_among, sought_inside, tree_size,
    tried_moves, width_at, Trace, MAX_EXT, WORST,
};
use vstd::prelude::*;

verus! {

broadcast use group_points;

/// An evaluation does not rest on earlier analyses.
pub proof fn lemma_leaf_agrees(rule: u8, moyo: int, p: Pos, a: Study, b: Study)
    requires
        5 <= p.size <= MAX,
        study_ok(a),
        study_ok(b),
    ensures
        leaf_value(rule, moyo, p, a).0 == leaf_value(rule, moyo, p, b).0,
{
    let v = survey(p, 4, 150);
    lemma_influence_agrees(p, v.strength, a.influence, b.influence);
    lemma_estimate_agrees(
        p,
        rule,
        v.dead,
        v.strength,
        influence_map(p, v.strength, a.influence),
        influence_map(p, v.strength, b.influence),
    );
}

proof fn lemma_expansion_agrees(s: int, a: Seq<i32>, b: Seq<i32>, q: Pt, n: nat)
    requires
        agree(s, a, b),
        0 <= s,
    ensures
        expansion(s, a, q, n) == expansion(s, b, q, n),
    decreases n,
{
    if n > 0 {
        lemma_expansion_agrees(s, a, b, q, (n - 1) as nat);
        let dx = (n - 1) % 7 - 3;
        let dy = (n - 1) / 7 - 3;
        let r: Pt = ((q.0 + dx) as i32, (q.1 + dy) as i32);
        if inb(s, r) {
            lemma_idx(s, r);
            assert(a[idx(s, r)] == b[idx(s, r)]);
        }
    }
}

/// Candidates rest on the influence on the board alone.
pub proof fn lemma_gathered_agrees(o: Outlook, u: Outlook, seed: u32, n: nat)
    requires
        5 <= o.pos.size <= MAX,
        u == (Outlook { influence: u.influence, ..o }),
        agree(o.pos.size, o.influence, u.influence),
        n <= area(o.pos.size),
    ensures
        gathered(o, seed, n) == gathered(u, seed, n),
    decreases n,
{
    if n > 0 {
        lemma_gathered_agrees(o, u, seed, (n - 1) as nat);
        let i = n - 1;
        let q = crate::board::pt(o.pos.size, i);
        lemma_expansion_agrees(o.pos.size, o.influence, u.influence, q, 49);
        assert(o.influence[i] == u.influence[i]);
        assert(merit(o, i) == merit(u, i));
        assert(considered(o, i) == considered(u, i));
    }
}

/// The moves that a search tries rest on the influence on the board alone.
pub proof fn lemma_moves_agree(
    k: Plan,
    p: Pos,
    depth: int,
    tactical: bool,
    a: Seq<i32>,
    b: Seq<i32>,
)
    requires
        5 <= p.size <= MAX,
        agree(p.size, a, b),
    ensures
        tried_moves(k, p, depth, tactical, a) == tried_moves(k, p, depth, tactical, b),
{
    lemma_area(p.size);
    let o = Outlook {
        plan: k,
        pos: p,
        survey: inside_survey(p, tactical),
        influence: a,
        noise: 0,
        tactical,
    };
    lemma_gathered_agrees(o, Outlook { influence: b, ..o }, 0, area(p.size) as nat);
}

/// Every candidate is a legal move.
pub proof fn lemma_gathered_legal(o: Outlook, seed: u32, n: nat)
    ensures
        forall|j: int|
            0 <= j < gathered(o, seed, n).0.len() ==> play_code(
                o.pos,
                ((#[trigger] gathered(o, seed, n).0[j]).x, gathered(o, seed, n).0[j].y),
            ) == OK,
    decreases n,
{
    if n > 0 {
        let prev = gathered(o, seed, (n - 1) as nat).0;
        let r = gathered(o, seed, n).0;
        lemma_gathered_legal(o, seed, (n - 1) as nat);
        assert forall|j: int| 0 <= j < r.len() implies play_code(
            o.pos,
            ((#[trigger] r[j]).x, r[j].y),
        ) == OK by {
            if j < prev.len() {
                assert(r[j] == prev[j]);
            }
        }
    }
}

/// Where a search finds no move to try in a position, the position has the value of its
/// evaluation, and no further position is visited.
pub proof fn law_no_move_leaves_evaluation(
    k: Plan,
    p: Pos,
    depth: int,
    alpha: int,
    beta: int,
    ext: int,
    tactical: bool,
    t: Trace,
)
    requires
        5 <= p.size <= MAX,
        study_ok(t.study),
        tried_moves(
            k,
            p,
            depth,
            tactical,
            influence_map(p, inside_survey(p, tactical).strength, t.study.influence),
        ).len() == 0,
    ensures
        ({
            let r = sought_inside(k, p, depth, alpha, beta, ext, tactical, t);
            &&& r.0 == leaf_value(k.rule, k.style.moyo as int, p, t.study).0
            &&& r.1.nodes == t.nodes
        }),
{
    let v = inside_survey(p, tactical);
    let influence = influence_map(p, v.strength, t.study.influence);
    lemma_influence_agrees(p, v.strength, t.study.influence, t.study.influence);
    lemma_leaf_agrees(
        k.rule,
        k.style.moyo as int,
        p,
        Study { influence, ..t.study },
        t.study,
    );
}

/// Every move that a search tries is legal.
pub proof fn law_tried_moves_are_legal(
    k: Plan,
    p: Pos,
    depth: int,
    tactical: bool,
    influence: Seq<i32>,
    j: int,
)
    requires
        0 <= j < tried_moves(k, p, depth, tactical, influence).len(),
    ensures
        ({
            let c = tried_moves(k, p, depth, tactical, influence)[j];
            play_code(p, (c.x, c.y)) == OK
        }),
{
    let o = Outlook {
        plan: k,
        pos: p,
        survey: inside_survey(p, tactical),
        influence,
        noise: 0,
        tactical,
    };
    let found = gathered(o, 0, area(p.size) as nat).0;
    let w = min(width_at(k, depth), found.len() as int);
    lemma_gathered_legal(o, 0, area(p.size) as nat);
    law_ranking_permutes(found, false, w as nat);
    lemma_ranked_from(found, false, w as nat, j);
}

/// A buffer of zeros.
pub open spec fn blank() -> Study {
    Study {
        influence: Seq::new(CELLS as nat, |i: int| 0i32),
        territory: Seq::new(CELLS as nat, |i: int| 0i8),
        est_black: 0,
        est_white: 0,
    }
}

/// Moves of the game tree in a position.
pub open spec fn branches(k: Plan, p: Pos, depth: int) -> Seq<Candidate> {
    tried_moves(
        k,
        p,
        depth,
        false,
        influence_map(p, inside_survey(p, false).strength, blank().influence),
    )
}

/// Value of a position for the side to move by its whole game tree of the given depth: the
/// highest value that a legal branch leaves it, or its evaluation at the end.
pub open spec fn tree_value(k: Plan, p: Pos, depth: int) -> int
    decreases depth, 1int, 0int,
{
    let moves = branches(k, p, depth);
    if depth <= 0 || moves.len() == 0 {
        leaf_value(k.rule, k.style.moyo as int, p, blank()).0
    } else {
        branch_value(k, p, depth, moves, moves.len())
    }
}

/// The highest value that the legal ones among the first `n` branches leave.
pub open spec fn branch_value(k: Plan, p: Pos, depth: int, moves: Seq<Candidate>, n: nat) -> int
    decreases depth, 0int, n,
{
    if n == 0 || depth <= 0 {
        WORST as int
    } else {
        let best = branch_value(k, p, depth, moves, (n - 1) as nat);
        let q: Pt = (moves[n - 1].x, moves[n - 1].y);
        if play_code(p, q) != OK {
            best
        } else {
            let v = -tree_value(k, play_result(p, q), depth - 1);
            if v > best {
                v
            } else {
                best
            }
        }
    }
}

/// The value `r` found within the bounds `alpha` and `beta` tells the value `m`: it is `m`
/// between the bounds, an upper limit for `m` at the lower bound, and a lower limit for
/// `m` at the upper bound.
pub open spec fn tells(r: int, alpha: int, beta: int, m: int) -> bool {
    &&& r <= alpha ==> m <= r
    &&& r >= beta ==> m >= r
    &&& alpha < r < beta ==> m == r
}

/// The pruned search tells the value of the whole game tree, as long as its budget of
/// positions suffices.
pub proof fn law_pruned_search_tells_tree_value(
    k: Plan,
    p: Pos,
    depth: int,
    alpha: int,
    beta: int,
    t: Trace,
)
    requires
        plan_ok(k),
        5 <= p.size <= MAX,
        study_ok(t.study),
        0 <= depth,
        alpha < beta,
        t.nodes + tree_size(depth) <= k.budget,
    ensures
        tells(
            sought(k, p, depth, alpha, beta, MAX_EXT as int, t).0,
            alpha,
            beta,
            tree_value(k, p, depth),
        ),
{
    lemma_sought(k, p, depth, alpha, beta, MAX_EXT as int, t);
}

proof fn lemma_sought(
    k: Plan,
    p: Pos,
    depth: int,
    alpha: int,
    beta: int,
    ext: int,
    t: Trace,
)
    requires
        plan_ok(k),
        5 <= p.size <= MAX,
        study_ok(t.study),
        0 <= depth,
        alpha < beta,
        ext >= MAX_EXT,
        t.nodes + tree_size(depth) <= k.budget,
    ensures
        ({
            let r = sought(k, p, depth, alpha, beta, ext, t);
            &&& tells(r.0, alpha, beta, tree_value(k, p, depth))
            &&& t.nodes <= r.1.nodes <= t.nodes + tree_size(depth)
            &&& study_ok(r.1.study)
        }),
    decreases depth, 1int, 0int,
{
    let t1 = Trace { nodes: t.nodes + 1, ..t };
    lemma_tree_positive(depth);
    lemma_tree_positive(depth - 1);
    lemma_leaf_agrees(k.rule, k.style.moyo as int, p, t.study, blank());
    if depth > 0 {
        let v = inside_survey(p, false);
        let influence = influence_map(p, v.strength, t.study.influence);
        let study = Study { influence, ..t.study };
        lemma_influence_agrees(p, v.strength, t.study.influence, blank().influence);
        lemma_moves_agree(
            k,
            p,
            depth,
            false,
            influence,
            influence_map(p, v.strength, blank().influence),
        );
        let moves = branches(k, p, depth);
        lemma_leaf_agrees(k.rule, k.style.moyo as int, p, study, blank());
        if moves.len() > 0 {
            assert(moves.len() * tree_size(depth - 1) <= MAX_WIDTH * tree_size(depth - 1))
                by (nonlinear_arith)
                requires
                    moves.len() <= MAX_WIDTH,
                    tree_size(depth - 1) >= 1,
            ;
            lemma_among(
                k,
                p,
                depth,
                alpha,
                alpha,
                beta,
                ext,
                moves,
                0,
                WORST as int,
                Trace { study, ..t1 },
            );
        }
    }
}

proof fn lemma_among(
    k: Plan,
    p: Pos,
    depth: int,
    alpha0: int,
    alpha: int,
    beta: int,
    ext: int,
    moves: Seq<Candidate>,
    i: int,
    best: int,
    t: Trace,
)
    requires
        plan_ok(k),
        5 <= p.size <= MAX,
        study_ok(t.study),
        0 < depth,
        alpha0 <= alpha < beta,
        alpha == alpha0 || alpha == best,
        ext >= MAX_EXT,
        0 <= i <= moves.len() <= MAX_WIDTH,
        t.nodes + (moves.len() - i) * tree_size(depth - 1) <= k.budget,
        tells(best, alpha0, beta, branch_value(k, p, depth, moves, i as nat)),
    ensures
        ({
            let r = sought_among(k, p, depth, alpha, beta, ext, moves, i, best, t);
            &&& tells(r.0, alpha0, beta, branch_value(k, p, depth, moves, moves.len()))
            &&& t.nodes <= r.1.nodes <= t.nodes + (moves.len() - i) * tree_size(depth - 1)
            &&& study_ok(r.1.study)
        }),
    decreases depth, 0int, moves.len() - i,
{
    let left = moves.len() - i;
    let size = tree_size(depth - 1);
    lemma_tree_positive(depth - 1);
    if left > 0 {
        assert(left * size == (left - 1) * size + size && (left - 1) * size >= 0)
            by (nonlinear_arith)
            requires
                left >= 1,
                size >= 1,
        ;
        let q: Pt = (moves[i].x, moves[i].y);
        assert(((i + 1) as nat - 1) as nat == i as nat);
        if play_code(p, q) != OK {
            lemma_among(k, p, depth, alpha0, alpha, beta, ext, moves, i + 1, best, t);
        } else {
            let next = play_result(p, q);
            lemma_sought(k, next, depth - 1, -beta, -alpha, ext, t);
            let r = sought(k, next, depth - 1, -beta, -alpha, ext, t);
            let v = -r.0;
            let a = if v > best && v > alpha {
                v
            } else {
                alpha
            };
            if v <= best {
                lemma_among(k, p, depth, alpha0, alpha, beta, ext, moves, i + 1, best, r.1);
            } else if a >= beta {
                lemma_branches_rise(k, p, depth, moves, (i + 1) as nat, moves.len());
            } else {
                lemma_among(k, p, depth, alpha0, a, beta, ext, moves, i + 1, v, r.1);
            }
        }
    }
}

proof fn lemma_branches_rise(
    k: Plan,
    p: Pos,
    depth: int,
    moves: Seq<Candidate>,
    m: nat,
    n: nat,
)
    requires
        m <= n,
    ensures
        branch_value(k, p, depth, moves, m) <= branch_value(k, p, depth, moves, n),
    decreases n,
{
    if m < n && depth > 0 {
        lemma_branches_rise(k, p, depth, moves, m, (n - 1) as nat);
    }
}

} // verus!
