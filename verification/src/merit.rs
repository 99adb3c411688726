//! What makes a move a good candidate.

use crate::board::{
    adj, area, cell, foe, group_points, idx, inb, lemma_area, lemma_nb, nb, pos_ok, pt, Pos, Pt,
    BLACK, MAX, OK, WHITE,
};
use crate::candidates::{
    area_score, around, expansion, expansion_map, gathered, law_ranking_permutes, line_bonus,
    line_of, merit, min, opening_left, ranked, rescued, top, trial_score, Around, Candidate,
    Outlook, Plan,
};
use crate::census::Survey;
use crate::chain::{block, connected, is_eye, lemma_flood};
use crate::estimate::abs;
use crate::fairplay::{law_prisoners_left_the_board, number_of};
use crate::influence::tdiv;
use crate::opening::opening_guide;
use crate::random::xorshift;
use crate::rules::{lemma_stone_stays, play_code, play_result};
use crate::terrain::{breath, lemma_breath};
use crate::game::Style;
use vstd::prelude::*;

verus! {

broadcast use group_points;

/// The stones of the chain on (x, y), if a chain of colour `c` with `n` liberties by the
/// census `v` stands there, else 0.
pub open spec fn chain_at(p: Pos, v: Survey, c: u8, n: int, x: int, y: int) -> int {
    let i = y * p.size + x;
    if 0 <= x < p.size && 0 <= y < p.size && p.board[i] == c && v.libs[i] == n {
        v.size[i] as int
    } else {
        0
    }
}

/// The sum of [`chain_at`] over the four neighbours of `q`.
pub open spec fn chains_beside(p: Pos, v: Survey, c: u8, n: int, q: Pt) -> int {
    chain_at(p, v, c, n, q.0 - 1, q.1 as int) + chain_at(p, v, c, n, q.0 + 1, q.1 as int)
        + chain_at(p, v, c, n, q.0 as int, q.1 - 1) + chain_at(p, v, c, n, q.0 as int, q.1 + 1)
}

/// 1 where (x, y) is on the board and holds `c`, else 0.
pub open spec fn stands(p: Pos, c: u8, x: int, y: int) -> int {
    if 0 <= x < p.size && 0 <= y < p.size && p.board[y * p.size + x] == c {
        1
    } else {
        0
    }
}

/// Number of neighbours of `q` that hold `c`.
pub open spec fn held_beside(p: Pos, c: u8, q: Pt) -> int {
    stands(p, c, q.0 - 1, q.1 as int) + stands(p, c, q.0 + 1, q.1 as int) + stands(
        p,
        c,
        q.0 as int,
        q.1 - 1,
    ) + stands(p, c, q.0 as int, q.1 + 1)
}

/// Some neighbour of `q` belongs to a chain of colour `c` with `n` liberties.
pub open spec fn chain_beside(p: Pos, v: Survey, c: u8, n: int, q: Pt) -> bool {
    exists|r: Pt| #[trigger]
        adj(q, r) && inb(p.size, r) && p.board[r.1 * p.size + r.0] == c && v.libs[r.1 * p.size
            + r.0] == n
}

/// What a side sees around a point: the stones of the chains in atari and of those with two
/// liberties on the neighbouring points, for the other side and for itself, and the empty
/// neighbours.
pub proof fn law_what_stands_around(p: Pos, v: Survey, me: u8, q: Pt)
    requires
        pos_ok(p),
        me == BLACK || me == WHITE,
        inb(p.size, q),
    ensures
        ({
            let a = around(p, v, me, q, 4);
            &&& a.catch == chains_beside(p, v, foe(me), 1, q)
            &&& a.chase == chains_beside(p, v, foe(me), 2, q)
            &&& a.low == chains_beside(p, v, me, 2, q)
            &&& a.atari <==> chain_beside(p, v, me, 1, q)
            &&& a.empties == held_beside(p, 0, q)
            &&& a.touch <==> held_beside(p, foe(me), q) > 0
        }),
{
    reveal(idx);
    lemma_around_step(p, v, me, q, 0);
    lemma_around_step(p, v, me, q, 1);
    lemma_around_step(p, v, me, q, 2);
    lemma_around_step(p, v, me, q, 3);
    lemma_chain_beside(p, v, me, 1, q);
}

proof fn lemma_around_step(p: Pos, v: Survey, me: u8, q: Pt, d: nat)
    requires
        pos_ok(p),
        me == BLACK || me == WHITE,
        inb(p.size, q),
        d < 4,
    ensures
        ({
            let a = around(p, v, me, q, d);
            let b = around(p, v, me, q, d + 1);
            let (x, y) = (nb(q, d as int).0 as int, nb(q, d as int).1 as int);
            let i = idx(p.size, nb(q, d as int));
            &&& b.catch == a.catch + chain_at(p, v, foe(me), 1, x, y)
            &&& b.chase == a.chase + chain_at(p, v, foe(me), 2, x, y)
            &&& b.low == a.low + chain_at(p, v, me, 2, x, y)
            &&& b.atari <==> a.atari || (stands(p, me, x, y) == 1 && v.libs[i] == 1)
            &&& b.empties == a.empties + stands(p, 0, x, y)
            &&& b.touch <==> a.touch || stands(p, foe(me), x, y) == 1
        }),
        around(p, v, me, q, 0) == (Around {
            catch: 0,
            chase: 0,
            atari: false,
            low: 0,
            empties: 0,
            touch: false,
        }),
{
    let r = nb(q, d as int);
    lemma_area(p.size);
    if inb(p.size, r) {
        assert(0 <= idx(p.size, r) < area(p.size));
        assert(p.board[idx(p.size, r)] <= 2);
        reveal(idx);
    }
}

proof fn lemma_chain_beside(p: Pos, v: Survey, c: u8, n: int, q: Pt)
    requires
        0 < p.size <= MAX,
        inb(p.size, q),
    ensures
        chain_beside(p, v, c, n, q) <==> exists|d: int|
            0 <= d < 4 && inb(p.size, #[trigger] nb(q, d)) && p.board[idx(p.size, nb(q, d))] == c
                && v.libs[idx(p.size, nb(q, d))] == n,
{
    reveal(idx);
    let s = p.size;
    if chain_beside(p, v, c, n, q) {
        let r = choose|r: Pt| #[trigger]
            adj(q, r) && inb(s, r) && p.board[r.1 * s + r.0] == c && v.libs[r.1 * s + r.0] == n;
        lemma_nb(s, q, r);
        let d: int = if r == nb(q, 0) {
            0
        } else if r == nb(q, 1) {
            1
        } else if r == nb(q, 2) {
            2
        } else {
            3
        };
        assert(0 <= d < 4 && nb(q, d) == r);
    }
    if exists|d: int|
        0 <= d < 4 && inb(s, #[trigger] nb(q, d)) && p.board[idx(s, nb(q, d))] == c
            && v.libs[idx(s, nb(q, d))] == n {
        let d = choose|d: int|
            0 <= d < 4 && inb(s, #[trigger] nb(q, d)) && p.board[idx(s, nb(q, d))] == c
                && v.libs[idx(s, nb(q, d))] == n;
        lemma_nb(s, q, nb(q, d));
        assert(adj(q, nb(q, d)));
    }
}

/// The outlook with another weight of attack.
pub open spec fn keener(o: Outlook, attack: i32) -> Outlook {
    Outlook {
        plan: Plan { style: Style { attack, ..o.plan.style }, ..o.plan },
        ..o
    }
}

/// `n`, but at most 12.
pub open spec fn to_twelve(n: int) -> int {
    if n < 12 {
        n
    } else {
        12
    }
}

/// The weight of attack scales what capturing and chasing are worth. Beside chains in atari
/// with `n` stones a point gets 400 and 60 for each of up to twelve of them, times 50 and
/// the weight in fiftieths: at a weight of 100 three times as much as at 0. Beside chains
/// with two liberties it gets 40 and 10 for each, times 30 and the weight in eightieths. Of
/// fighting moves nothing else rests on it.
pub proof fn law_attack_scales_fighting(o: Outlook, i: int, attack: i32)
    requires
        pos_ok(o.pos),
        0 <= i < o.pos.size * o.pos.size,
        o.tactical,
        0 <= attack,
    ensures
        ({
            let q = pt(o.pos.size, i);
            let n = chains_beside(o.pos, o.survey, foe(o.pos.turn), 1, q);
            let m = chains_beside(o.pos, o.survey, foe(o.pos.turn), 2, q);
            let f = 400 + 60 * to_twelve(n);
            let g = 40 + 10 * to_twelve(m);
            let rise = merit(keener(o, attack), i) - merit(keener(o, 0), i);
            &&& n <= 0 && m <= 0 ==> rise == 0
            &&& n > 0 && m <= 0 ==> rise == f * attack / 50
            &&& n > 0 && m <= 0 && attack == 100 ==> rise == 2 * f
            &&& n <= 0 && m > 0 ==> rise == g * (30 + attack) / 80 - g * 30 / 80
            &&& n > 0 && m > 0 ==> rise == f * attack / 50 + g * (30 + attack) / 80 - g * 30 / 80
        }),
{
    let p = o.pos;
    let q = pt(p.size, i);
    reveal(area);
    law_what_stands_around(p, o.survey, p.turn, q);
    let n = chains_beside(p, o.survey, foe(p.turn), 1, q);
    let f = 400 + 60 * to_twelve(n);
    assert(f * (50 + attack) / 50 == f + f * attack / 50) by (nonlinear_arith);
    assert(f * 50 / 50 == f) by (nonlinear_arith);
}

/// What a fighting move is worth: what it captures and chases, and what trying it out
/// shows.
pub proof fn law_merit_of_fighting(o: Outlook, i: int)
    requires
        pos_ok(o.pos),
        0 <= i < o.pos.size * o.pos.size,
        o.tactical,
        play_code(o.pos, pt(o.pos.size, i)) == 0,
    ensures
        ({
            let p = o.pos;
            let q = pt(p.size, i);
            let w = o.plan.style.attack as int;
            let n = chains_beside(p, o.survey, foe(p.turn), 1, q);
            let m = chains_beside(p, o.survey, foe(p.turn), 2, q);
            let fight = (if n > 0 {
                (400 + 60 * to_twelve(n)) * (50 + w) / 50
            } else {
                0
            }) + (if m > 0 {
                (40 + 10 * to_twelve(m)) * (30 + w) / 80
            } else {
                0
            });
            merit(o, i) == fight + if needs_trial(p, o.survey, q) {
                trial_value(o, q)
            } else {
                0
            }
        }),
{
    let p = o.pos;
    reveal(area);
    let q = pt(p.size, i);
    law_what_stands_around(p, o.survey, p.turn, q);
    lemma_trial_value(o, q);
}

/// A move on `q` is tried out: beside a chain of the other side in atari, a chain of its own
/// with one or two liberties, or with no empty neighbour, or with one and a stone of the
/// other side.
pub open spec fn needs_trial(p: Pos, v: Survey, q: Pt) -> bool {
    ||| chains_beside(p, v, foe(p.turn), 1, q) > 0
    ||| chain_beside(p, v, p.turn, 1, q)
    ||| chains_beside(p, v, p.turn, 2, q) > 0
    ||| held_beside(p, 0, q) == 0
    ||| held_beside(p, 0, q) == 1 && held_beside(p, foe(p.turn), q) > 0
}

/// The stones of the chain on `q`.
pub open spec fn stones_with(p: Pos, q: Pt) -> Set<Pt> {
    Set::new(|e: Pt| connected(p.size, p.board, q, e))
}

/// Over the first `n` listed points, the stones of the chains that have `libs` liberties
/// there by the census `v`.
pub open spec fn weighed(s: int, v: Survey, pts: Seq<Pt>, libs: int, n: nat) -> int
    decreases n,
{
    if n == 0 {
        0
    } else {
        let (x, y) = pts[n - 1];
        let i = y * s + x;
        if v.libs[i] == libs {
            weighed(s, v, pts, libs, (n - 1) as nat) + v.size[i]
        } else {
            weighed(s, v, pts, libs, (n - 1) as nat)
        }
    }
}

/// What trying out the move on `q` shows. The chain that it makes has one liberty: -60, or
/// -200 and -30 for each of its stones if nothing was captured. It has more, and a chain of
/// its own beside `q` had one or two: for chains out of atari 300 and 50 for each of up to
/// twelve stones, less 16 with only two liberties, else for chains raised from two liberties
/// to three 120 and 30 for each, both scaled by 50 and the weight of defence in fiftieths.
pub open spec fn trial_value(o: Outlook, q: Pt) -> int {
    let p = o.pos;
    let r = play_result(p, q);
    let n = breath(r.size, r.board, q).len();
    let taken = number_of(p, foe(p.turn)) - number_of(r, foe(p.turn));
    let pts = block(r.size, r.board, q);
    let s1 = weighed(p.size, o.survey, pts, 1, pts.len());
    let s2 = weighed(p.size, o.survey, pts, 2, pts.len());
    let w = o.plan.style.defence as int;
    let near = chain_beside(p, o.survey, p.turn, 1, q) || chains_beside(
        p,
        o.survey,
        p.turn,
        2,
        q,
    ) > 0;
    if n == 1 && taken == 0 {
        -200 - 30 * stones_with(r, q).len()
    } else if n == 1 {
        -60
    } else if n >= 2 && near && s1 > 0 {
        (300 + 50 * to_twelve(s1)) * (50 + w) / 50 - (if n == 2 {
            16int
        } else {
            0
        })
    } else if n >= 3 && near && s2 > 0 {
        (120 + 30 * to_twelve(s2)) * (50 + w) / 50
    } else {
        0
    }
}

proof fn lemma_weighed(s: int, v: Survey, pts: Seq<Pt>, libs: int, n: nat)
    ensures
        weighed(s, v, pts, libs, n) == rescued(s, v, pts, libs, n),
    decreases n,
{
    reveal(idx);
    if n > 0 {
        lemma_weighed(s, v, pts, libs, (n - 1) as nat);
    }
}

proof fn lemma_trial_value(o: Outlook, q: Pt)
    requires
        pos_ok(o.pos),
        inb(o.pos.size, q),
        play_code(o.pos, q) == OK,
    ensures
        trial_value(o, q) == trial_score(
            o.plan.style,
            o.pos,
            o.survey,
            q,
            around(o.pos, o.survey, o.pos.turn, q, 4),
        ),
{
    let p = o.pos;
    let r = play_result(p, q);
    let s = p.size;
    lemma_area(s);
    law_what_stands_around(p, o.survey, p.turn, q);
    law_prisoners_left_the_board(p, q);
    lemma_stone_stays(s, p.board, q, p.turn);
    assert(cell(s, r.board, q) == p.turn);
    lemma_breath(s, r.board, q);
    lemma_flood(s, r.board, q);
    let pts = block(s, r.board, q);
    pts.unique_seq_to_set();
    assert(pts.to_set() =~= stones_with(r, q)) by {
        assert forall|e: Pt| pts.to_set().contains(e) <==> stones_with(r, q).contains(e) by {
            assert(pts.contains(e) <==> connected(s, r.board, q, e));
        }
    }
    lemma_weighed(s, o.survey, pts, 1, pts.len());
    lemma_weighed(s, o.survey, pts, 2, pts.len());
}

/// On the whole board a move is also worth the room around it, scaled by the weights of
/// territory and of moyo; what it takes of the other side's influence, up to 60, scaled by
/// the weight of attack; and, while the opening lasts, its shape and its line: -12 on the
/// second line, 26 on the third and fourth, 10 on the fifth, fading move by move.
pub proof fn law_merit_of_room(o: Outlook, i: int)
    requires
        pos_ok(o.pos),
        0 <= i < o.pos.size * o.pos.size,
        !o.tactical,
        o.plan.opening >= 1,
    ensures
        ({
            let p = o.pos;
            let q = pt(p.size, i);
            let w = o.plan.style;
            let own: int = if p.turn == 1 {
                o.influence[i] as int
            } else {
                -(o.influence[i] as int)
            };
            let left = o.plan.opening - p.move_count;
            let half = 200 * left / o.plan.opening as int;
            let factor = if half < 100 {
                half
            } else {
                100
            };
            let room = expansion(p.size, o.influence, q, 49) * (w.territory + w.moyo) / 3800;
            let reduction = (if own <= -60 {
                60 * (30 + w.attack) / 60
            } else if own < 0 {
                (-own) * (30 + w.attack) / 60
            } else {
                0
            });
            let gain = merit(o, i) - merit(Outlook { tactical: true, ..o }, i);
            &&& left <= 0 ==> gain == room + reduction
            &&& left > 0 ==> gain == room + reduction + opening_guide(p, p.turn, factor)[i] * factor
                / 100 + (if on_line(p.size, q, 1) {
                -(12 * 8 * left / o.plan.opening as int)
            } else if on_line(p.size, q, 2) || on_line(p.size, q, 3) {
                26 * 8 * left / o.plan.opening as int
            } else if on_line(p.size, q, 4) {
                10 * 8 * left / o.plan.opening as int
            } else {
                0
            })
        }),
{
    let p = o.pos;
    let q = pt(p.size, i);
    reveal(area);
    let l = line_of(p.size, q);
    assert(on_line(p.size, q, 1) <==> l == 1);
    assert(on_line(p.size, q, 2) <==> l == 2);
    assert(on_line(p.size, q, 3) <==> l == 3);
    assert(on_line(p.size, q, 4) <==> l == 4);
    let m = o.plan.opening as int;
    let left = opening_left(o.plan, p);
    let x = line_bonus(l);
    assert(x * 8 * left == x * (8 * left)) by (nonlinear_arith);
    if l == 1 {
        assert(x * (8 * left) == -12 * (8 * left)) by (nonlinear_arith)
            requires
                x == -12,
        ;
    } else if l == 2 || l == 3 {
        assert(x * (8 * left) == 26 * (8 * left)) by (nonlinear_arith)
            requires
                x == 26,
        ;
    } else if l == 4 {
        assert(x * (8 * left) == 10 * (8 * left)) by (nonlinear_arith)
            requires
                x == 10,
        ;
    } else {
        assert(x * (8 * left) == 0) by (nonlinear_arith)
            requires
                x == 0,
        ;
        assert(0int / m == 0) by (nonlinear_arith)
            requires
                m >= 1,
        ;
    }
    let own: int = if p.turn == 1 {
        o.influence[i] as int
    } else {
        -(o.influence[i] as int)
    };
    let w = 30 + o.plan.style.attack;
    if own <= -60 {
        assert(min(-own, 60) * w == 60 * w);
    } else if own < 0 {
        assert(min(-own, 60) * w == (-own) * w);
    }
    assert(expansion_map(p, o.influence)[i] == expansion(p.size, o.influence, q, 49));
    let gain = merit(o, i) - merit(Outlook { tactical: true, ..o }, i);
    assert(gain == area_score(o.plan, p, o.influence, p.turn, i));
    if left > 0 && l == 1 {
        let a = x * 8 * left;
        let b = 12 * 8 * left;
        assert(-a == b && a <= 0) by (nonlinear_arith)
            requires
                x == -12,
                left > 0,
                a == x * 8 * left,
                b == 12 * 8 * left,
        ;
        assert((-a) / m == b / m);
        assert(tdiv(a, m) == -(b / m));
    }
}

/// The point is `l` lines away from the nearest edge.
pub open spec fn on_line(s: int, q: Pt, l: int) -> bool {
    &&& l <= q.0 <= s - 1 - l
    &&& l <= q.1 <= s - 1 - l
    &&& q.0 == l || q.1 == l || q.0 == s - 1 - l || q.1 == s - 1 - l
}

/// Steps along the lines from one point to another.
pub open spec fn stride(q: Pt, r: Pt) -> int {
    (if q.0 < r.0 {
        r.0 - q.0
    } else {
        q.0 - r.0
    }) + (if q.1 < r.1 {
        r.1 - q.1
    } else {
        q.1 - r.1
    })
}

/// What influence `v` lacks of 12, for either side.
pub open spec fn lacking(v: int) -> int {
    if -12 < v < 0 {
        12 + v
    } else if 0 <= v < 12 {
        12 - v
    } else {
        0
    }
}

proof fn lemma_expansion_differs(s: int, u: Seq<i32>, v: Seq<i32>, q: Pt, r: Pt, n: nat)
    requires
        0 < s <= MAX,
        inb(s, q),
        inb(s, r),
        forall|i: int| 0 <= i < area(s) && i != idx(s, r) ==> #[trigger] u[i] == v[i],
        n <= 49,
    ensures
        ({
            let k = (r.1 - q.1 + 3) * 7 + r.0 - q.0 + 3;
            expansion(s, v, q, n) - expansion(s, u, q, n) == if 1 <= stride(q, r) <= 3 && k < n {
                (lacking(v[idx(s, r)] as int) - lacking(u[idx(s, r)] as int)) * (4 - stride(q, r))
            } else {
                0
            }
        }),
    decreases n,
{
    let k = (r.1 - q.1 + 3) * 7 + r.0 - q.0 + 3;
    if n > 0 {
        lemma_expansion_differs(s, u, v, q, r, (n - 1) as nat);
        let dx = (n - 1) % 7 - 3;
        let dy = (n - 1) / 7 - 3;
        let d = abs(dx) + abs(dy);
        let e: Pt = ((q.0 + dx) as i32, (q.1 + dy) as i32);
        if inb(s, e) {
            assert(pt(s, idx(s, e)) == e && pt(s, idx(s, r)) == r);
            if e == r {
                assert(k == n - 1);
                assert(d == stride(q, r));
                let x = lacking(v[idx(s, r)] as int);
                let y = lacking(u[idx(s, r)] as int);
                assert(x * (4 - d) - y * (4 - d) == (x - y) * (4 - d)) by (nonlinear_arith);
                assert(0 * (4 - d) == 0) by (nonlinear_arith);
            } else {
                assert(idx(s, e) != idx(s, r));
                assert(u[idx(s, e)] == v[idx(s, e)]);
                if 1 <= stride(q, r) <= 3 {
                    assert(k != n - 1);
                }
            }
        } else if 1 <= stride(q, r) <= 3 {
            assert(k != n - 1);
        }
    }
}

/// The room around a point is the influence that the points one to three steps away lack
/// of 12, times 3, 2 and 1: where influence changes on one point, room changes by that, and
/// there is none where nothing is lacking.
pub proof fn law_room_around(s: int, u: Seq<i32>, v: Seq<i32>, q: Pt, r: Pt)
    requires
        0 < s <= MAX,
        inb(s, q),
        inb(s, r),
        forall|i: int| 0 <= i < s * s && i != idx(s, r) ==> #[trigger] u[i] == v[i],
    ensures
        expansion(s, v, q, 49) - expansion(s, u, q, 49) == (if 1 <= stride(q, r) <= 3 {
            (lacking(v[idx(s, r)] as int) - lacking(u[idx(s, r)] as int)) * (4 - stride(q, r))
        } else {
            0
        }),
        (forall|i: int| 0 <= i < s * s ==> lacking(#[trigger] v[i] as int) == 0) ==> expansion(
            s,
            v,
            q,
            49,
        ) == 0,
{
    reveal(area);
    lemma_expansion_differs(s, u, v, q, r, 49);
    if forall|i: int| 0 <= i < s * s ==> lacking(#[trigger] v[i] as int) == 0 {
        lemma_no_room(s, v, q, 49);
    }
}

proof fn lemma_no_room(s: int, v: Seq<i32>, q: Pt, n: nat)
    requires
        0 < s <= MAX,
        forall|i: int| 0 <= i < area(s) ==> lacking(#[trigger] v[i] as int) == 0,
    ensures
        expansion(s, v, q, n) == 0,
    decreases n,
{
    if n > 0 {
        lemma_no_room(s, v, q, (n - 1) as nat);
        let dx = (n - 1) % 7 - 3;
        let dy = (n - 1) / 7 - 3;
        let e: Pt = ((q.0 + dx) as i32, (q.1 + dy) as i32);
        if inb(s, e) {
            assert(lacking(v[idx(s, e)] as int) == 0);
        }
    }
}

/// Which points become candidates, without disturbance: all empty points where a move is
/// legal and fills no eye of its own, each once and with its merit; of fighting moves only
/// those with a merit above 0.
pub proof fn law_candidates_are_all_good_points(o: Outlook, seed: u32, n: nat)
    requires
        pos_ok(o.pos),
        n <= o.pos.size * o.pos.size,
        o.noise <= 0,
    ensures
        gathered(o, seed, n).1 == seed,
        forall|i: int|
            0 <= i < n ==> (#[trigger] good_point(o, i) <==> on_list(o, gathered(o, seed, n).0, i)),
        forall|j: int|
            0 <= j < gathered(o, seed, n).0.len() ==> stands_below(
                o,
                #[trigger] gathered(o, seed, n).0[j],
                n as int,
            ),
        forall|j: int, k: int|
            0 <= j < k < gathered(o, seed, n).0.len() ==> spot(#[trigger] gathered(o, seed, n).0[j])
                != spot(#[trigger] gathered(o, seed, n).0[k]),
    decreases n,
{
    reveal(area);
    if n > 0 {
        let m = (n - 1) as nat;
        law_candidates_are_all_good_points(o, seed, m);
        let u = gathered(o, seed, m).0;
        let v = gathered(o, seed, n).0;
        let q = pt(o.pos.size, n - 1);
        let grown = good_point(o, n - 1);
        assert(grown ==> v == u.push(
            Candidate { x: q.0, y: q.1, score: merit(o, n - 1) as i32, value: 0 },
        ));
        assert(!grown ==> v == u);
        assert(forall|j: int| 0 <= j < u.len() ==> v[j] == u[j]);
        assert forall|i: int, j: int| 0 <= i < n && 0 <= j < u.len() && #[trigger] at_point(
            o,
            u[j],
            i,
        ) implies i < n - 1 by {
            assert(stands_below(o, u[j], m as int));
            let k = choose|k: int| 0 <= k < m && #[trigger] at_point(o, u[j], k);
            assert(idx(o.pos.size, pt(o.pos.size, k)) == k);
            assert(idx(o.pos.size, pt(o.pos.size, i)) == i);
        }
        if grown {
            assert(at_point(o, v[u.len() as int], n - 1));
        }
        assert forall|i: int| 0 <= i < n implies (#[trigger] good_point(o, i) <==> on_list(
            o,
            v,
            i,
        )) by {
            if i < n - 1 {
                if good_point(o, i) {
                    assert(on_list(o, u, i));
                    let j = choose|j: int| 0 <= j < u.len() && #[trigger] at_point(o, u[j], i);
                    assert(at_point(o, v[j], i));
                }
                if on_list(o, v, i) {
                    let j = choose|j: int| 0 <= j < v.len() && #[trigger] at_point(o, v[j], i);
                    if j == u.len() {
                        assert(idx(o.pos.size, pt(o.pos.size, i)) == i);
                        assert(idx(o.pos.size, q) == n - 1);
                    }
                    assert(at_point(o, u[j], i));
                    assert(on_list(o, u, i));
                }
            } else if on_list(o, v, i) {
                let j = choose|j: int| 0 <= j < v.len() && #[trigger] at_point(o, v[j], i);
                if j < u.len() {
                    assert(at_point(o, u[j], i));
                }
            }
        }
        assert forall|j: int| 0 <= j < v.len() implies stands_below(
            o,
            #[trigger] v[j],
            n as int,
        ) by {
            if j < u.len() {
                assert(stands_below(o, u[j], m as int));
                let i = choose|i: int| 0 <= i < m && #[trigger] at_point(o, u[j], i);
                assert(at_point(o, v[j], i));
            } else {
                assert(at_point(o, v[j], n - 1));
            }
        }
        assert forall|j: int, k: int| 0 <= j < k < v.len() implies spot(#[trigger] v[j]) != spot(
            #[trigger] v[k],
        ) by {
            if k == u.len() {
                assert(stands_below(o, u[j], m as int));
                let i = choose|i: int| 0 <= i < m && #[trigger] at_point(o, u[j], i);
                assert(idx(o.pos.size, pt(o.pos.size, i)) == i);
                assert(idx(o.pos.size, q) == n - 1);
            } else {
                assert(v[j] == u[j] && v[k] == u[k]);
            }
        }
    }
}

/// One of the candidates stands on the point with index `i` and has its merit.
pub open spec fn on_list(o: Outlook, v: Seq<Candidate>, i: int) -> bool {
    exists|j: int| 0 <= j < v.len() && #[trigger] at_point(o, v[j], i)
}

/// The candidate stands on one of the first `n` points and has its merit.
pub open spec fn stands_below(o: Outlook, c: Candidate, n: int) -> bool {
    exists|i: int| 0 <= i < n && #[trigger] at_point(o, c, i)
}

/// The point of a candidate.
pub open spec fn spot(c: Candidate) -> Pt {
    (c.x, c.y)
}

/// The side to move may play on the point with index `i`, does not fill an eye of its own,
/// and, where only fighting counts, has something to gain.
pub open spec fn good_point(o: Outlook, i: int) -> bool {
    let p = o.pos;
    let q = pt(p.size, i);
    &&& p.board[i] == 0
    &&& play_code(p, q) == 0
    &&& !is_eye(p.size, p.board, q, p.turn)
    &&& o.tactical ==> merit(o, i) > 0
}

/// The candidate stands on the point with index `i` and has its merit.
pub open spec fn at_point(o: Outlook, c: Candidate, i: int) -> bool {
    &&& spot(c) == pt(o.pos.size, i)
    &&& c.score == merit(o, i) as i32
}

/// With a disturbance each good point draws the next random state and its score is off its
/// merit by at most the disturbance; points that are not good draw none. Of fighting moves
/// those are left out whose score is not above 0.
pub proof fn law_disturbance(o: Outlook, seed: u32, n: nat)
    requires
        pos_ok(o.pos),
        n < o.pos.size * o.pos.size,
        o.noise > 0,
    ensures
        ({
            let (u, x) = gathered(o, seed, n);
            let (v, y) = gathered(o, seed, n + 1);
            let open = good_point(Outlook { tactical: false, ..o }, n as int);
            let off = (y as int / 65536) % (2 * o.noise + 1) - o.noise;
            let score = merit(o, n as int) + off;
            let q = pt(o.pos.size, n as int);
            &&& !open ==> v == u && y == x
            &&& open ==> y == xorshift(x) && -o.noise <= off <= o.noise
            &&& open && o.tactical && score <= 0 ==> v == u
            &&& open && !(o.tactical && score <= 0) ==> v == u.push(
                Candidate { x: q.0, y: q.1, score: score as i32, value: 0 },
            )
        }),
{
    reveal(area);
    let x = gathered(o, seed, n).1;
    let y = xorshift(x);
    assert(y >> 16u32 == y / 65536) by (bit_vector);
}

/// What a candidate is ranked by: its value in the search, or its score.
pub open spec fn rank_of(c: Candidate, by_value: bool) -> int {
    if by_value {
        c.value as int
    } else {
        c.score as int
    }
}

/// The candidate at `j` is the first of the highest from `k` on.
pub open spec fn leads(v: Seq<Candidate>, by_value: bool, k: int, j: int) -> bool {
    &&& k <= j < v.len()
    &&& forall|m: int| k <= m < j ==> rank_of(#[trigger] v[m], by_value) < rank_of(v[j], by_value)
    &&& forall|m: int|
        j <= m < v.len() ==> rank_of(#[trigger] v[m], by_value) <= rank_of(v[j], by_value)
}

/// Ranking goes place by place and swaps the first of the highest that are left into the
/// next one.
pub proof fn law_ranking_goes_place_by_place(v: Seq<Candidate>, by_value: bool, k: nat)
    requires
        k < v.len(),
    ensures
        ranked(v, by_value, 0) == v,
        ({
            let u = ranked(v, by_value, k);
            exists|j: int| #[trigger]
                leads(u, by_value, k as int, j) && ranked(v, by_value, k + 1) == u.update(
                    k as int,
                    u[j],
                ).update(j, u[k as int])
        }),
{
    let u = ranked(v, by_value, k);
    law_ranking_permutes(v, by_value, k);
    lemma_first_of_highest(u, by_value, k as int, u.len() as int);
    let j = top(u, by_value, k as int, u.len() as int);
    assert(leads(u, by_value, k as int, j));
}

proof fn lemma_first_of_highest(v: Seq<Candidate>, by_value: bool, i: int, j: int)
    requires
        0 <= i < j <= v.len(),
    ensures
        ({
            let t = top(v, by_value, i, j);
            &&& i <= t < j
            &&& forall|m: int|
                i <= m < t ==> rank_of(#[trigger] v[m], by_value) < rank_of(v[t], by_value)
            &&& forall|m: int|
                t <= m < j ==> rank_of(#[trigger] v[m], by_value) <= rank_of(v[t], by_value)
        }),
    decreases j - i,
{
    if j > i + 1 {
        lemma_first_of_highest(v, by_value, i, j - 1);
    }
}

} // verus!
