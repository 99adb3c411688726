//! Reading out whether a chain can be captured.

use crate::board::{
    area, cell, foe, group_points, idx, in_board, inb, lemma_area, nb, neighbour, opponent, pos_ok,
    pt, Pos, Position, Pt, BLACK, CELLS, EMPTY, MAX, OK, WHITE,
};
use crate::chain::{
    block, group_info, is_eye, is_eye_for, is_liberty, lemma_connected_cell, lemma_flood, liberties,
    Group,
};
use crate::rules::{
    captures, counters_fit, law_untry_undoes_try, lemma_caps_inside, play_code, play_result,
    try_play, untry_play,
};
use vstd::prelude::*;

verus! {

broadcast use group_points;

/// Number of stones or points that a defence considers at most.
pub const READ_WIDTH: usize = 8;

/// The position with `c` to move.
pub open spec fn with_turn(p: Pos, c: u8) -> Pos {
    Pos { turn: c, ..p }
}

/// Stones of colour `c` next to the points `v`, at most eight, found by going
/// through the first `k` pairs of a point and a direction.
pub open spec fn attackers(s: int, b: Seq<u8>, c: u8, v: Seq<Pt>, k: nat) -> Seq<Pt>
    decreases k,
{
    if k == 0 {
        seq![]
    } else {
        let prev = attackers(s, b, c, v, (k - 1) as nat);
        let r = nb(v[(k - 1) / 4], (k - 1) % 4);
        if inb(s, r) && cell(s, b, r) == c && !prev.contains(r) && prev.len() < READ_WIDTH {
            prev.push(r)
        } else {
            prev
        }
    }
}

/// The points `start` and the last liberties of the first `k` stones of `v` that are
/// in atari, at most eight in all.
pub open spec fn with_counters(s: int, b: Seq<u8>, start: Seq<Pt>, v: Seq<Pt>, k: nat) -> Seq<Pt>
    decreases k,
{
    if k == 0 {
        start
    } else {
        let prev = with_counters(s, b, start, v, (k - 1) as nat);
        let libs = liberties(s, b, v[k - 1]);
        if libs.len() == 1 && !prev.contains(libs[0]) && prev.len() < READ_WIDTH {
            prev.push(libs[0])
        } else {
            prev
        }
    }
}

/// Points where the owner of the chain on `t` looks for a defence: its liberties, and
/// the points that capture a neighbouring chain in atari.
pub open spec fn defences(s: int, b: Seq<u8>, t: Pt) -> Seq<Pt> {
    let members = block(s, b, t);
    let near = attackers(s, b, foe(cell(s, b, t)), members, (4 * members.len()) as nat);
    with_counters(s, b, liberties(s, b, t), near, near.len())
}

/// Whether the chain on `t` can be captured within `depth` moves, and the number of
/// positions examined so far. The attacker moves first if `att` holds. Once `budget`
/// positions have been examined the chain counts as safe.
pub open spec fn read(p: Pos, t: Pt, depth: nat, att: bool, ops: int, budget: int) -> (bool, int)
    decreases depth, 1int, 0int,
{
    let libs = liberties(p.size, p.board, t);
    let target = cell(p.size, p.board, t);
    if depth == 0 {
        (false, ops)
    } else if ops + 1 > budget {
        (false, ops + 1)
    } else if target == EMPTY || libs.len() == 0 {
        (true, ops + 1)
    } else if att {
        if libs.len() == 1 {
            let q = with_turn(p, foe(target));
            (
                play_code(q, libs[0]) == OK && cell(p.size, play_result(q, libs[0]).board, t)
                    != target,
                ops + 1,
            )
        } else {
            let tried = if libs.len() > 4 {
                libs.take(4)
            } else {
                libs
            };
            read_attack(p, t, depth, tried, 0, ops + 1, budget)
        }
    } else if libs.len() >= 3 {
        (false, ops + 1)
    } else if libs.len() == 2 && (is_eye(p.size, p.board, libs[0], target) || is_eye(
        p.size,
        p.board,
        libs[1],
        target,
    )) {
        (false, ops + 1)
    } else {
        read_defence(p, t, depth, defences(p.size, p.board, t), 0, ops + 1, budget)
    }
}

/// Some attack on one of the points of `v` from `i` on succeeds.
pub open spec fn read_attack(
    p: Pos,
    t: Pt,
    depth: nat,
    v: Seq<Pt>,
    i: int,
    ops: int,
    budget: int,
) -> (bool, int)
    decreases depth, 0int, v.len() - i,
{
    let target = cell(p.size, p.board, t);
    let q = with_turn(p, foe(target));
    if i >= v.len() || depth == 0 {
        (false, ops)
    } else if play_code(q, v[i]) != OK {
        read_attack(p, t, depth, v, i + 1, ops, budget)
    } else {
        let r = play_result(q, v[i]);
        let found = if cell(r.size, r.board, t) != target {
            (true, ops)
        } else {
            read(r, t, (depth - 1) as nat, false, ops, budget)
        };
        if found.0 {
            found
        } else {
            read_attack(p, t, depth, v, i + 1, found.1, budget)
        }
    }
}

/// Every defence on one of the points of `v` from `i` on fails.
pub open spec fn read_defence(
    p: Pos,
    t: Pt,
    depth: nat,
    v: Seq<Pt>,
    i: int,
    ops: int,
    budget: int,
) -> (bool, int)
    decreases depth, 0int, v.len() - i,
{
    let target = cell(p.size, p.board, t);
    let q = with_turn(p, target);
    if i >= v.len() || depth == 0 {
        (true, ops)
    } else if play_code(q, v[i]) != OK {
        read_defence(p, t, depth, v, i + 1, ops, budget)
    } else {
        let r = play_result(q, v[i]);
        let libs = liberties(r.size, r.board, t).len();
        let caps = captures(p.size, p.board, v[i], target).len();
        if libs >= 3 || (caps > 0 && libs >= 2) {
            (false, ops)
        } else {
            let found = read(r, t, (depth - 1) as nat, true, ops, budget);
            if !found.0 {
                found
            } else {
                read_defence(p, t, depth, v, i + 1, found.1, budget)
            }
        }
    }
}

/// The counters have room for `n` more moves.
pub open spec fn room(p: Pos, n: int) -> bool {
    &&& p.move_count + n <= i32::MAX
    &&& p.captured_by_black + CELLS * n <= i32::MAX
    &&& p.captured_by_white + CELLS * n <= i32::MAX
}

/// A depth given by a machine integer; below 0 it is none.
pub open spec fn plies(depth: int) -> nat {
    if depth < 0 {
        0
    } else {
        depth as nat
    }
}

/// Reading `depth` moves deep keeps all counters within 32 bits.
pub open spec fn readable(p: Pos, depth: int, ops: int, budget: int) -> bool {
    depth > 0 ==> {
        &&& room(p, depth)
        &&& ops < i32::MAX
        &&& budget + 8 * depth <= i32::MAX
    }
}

/// Once the budget is used up, no chain counts as captured.
pub proof fn law_reading_beyond_budget(p: Pos, t: Pt, depth: nat, att: bool, ops: int, budget: int)
    requires
        ops >= budget,
    ensures
        !read(p, t, depth, att, ops, budget).0,
{
}

/// A move captures at most as many stones as there are points.
pub proof fn lemma_captures_bounded(s: int, b: Seq<u8>, q: Pt, c: u8)
    requires
        0 <= s <= MAX,
    ensures
        captures(s, b, q, c).finite(),
        captures(s, b, q, c).len() <= CELLS,
{
    lemma_area(s);
    vstd::set_lib::lemma_int_range(0, area(s));
    vstd::set_lib::lemma_len_subset(
        captures(s, b, q, c),
        vstd::set_lib::set_int_range(0, area(s)),
    );
}

/// A move uses up room for one.
pub proof fn lemma_room(p: Pos, q: Pt, n: int)
    requires
        pos_ok(p),
        room(p, n),
        n >= 1,
    ensures
        room(play_result(p, q), n - 1),
        counters_fit(p),
{
    lemma_captures_bounded(p.size, p.board, q, p.turn);
}

/// A move leaves the stones of its own colour on the board.
pub proof fn lemma_own_stays(p: Pos, q: Pt, t: Pt)
    requires
        pos_ok(p),
        play_code(p, q) == OK,
        inb(p.size, t),
        cell(p.size, p.board, t) == p.turn,
    ensures
        cell(p.size, play_result(p, q).board, t) == p.turn,
{
    lemma_area(p.size);
    assert(pt(p.size, idx(p.size, t)) == t);
    assert(pt(p.size, idx(p.size, q)) == q);
}

/// Bounds on the number of positions that reading examines.
pub proof fn lemma_read_ops(p: Pos, t: Pt, depth: nat, att: bool, ops: int, budget: int)
    requires
        inb(p.size, t),
        0 <= p.size <= MAX,
    ensures
        ops <= read(p, t, depth, att, ops, budget).1,
        read(p, t, depth, att, ops, budget).1 <= ops + 1 || read(p, t, depth, att, ops, budget).1
            <= budget + 8 * depth,
    decreases depth, 1int, 0int,
{
    let libs = liberties(p.size, p.board, t);
    let target = cell(p.size, p.board, t);
    if depth > 0 && ops + 1 <= budget && target != EMPTY && libs.len() > 0 {
        if att {
            if libs.len() > 1 {
                let tried = if libs.len() > 4 {
                    libs.take(4)
                } else {
                    libs
                };
                lemma_attack_ops(p, t, depth, tried, 0, ops + 1, budget);
            }
        } else {
            lemma_defences(p.size, p.board, t);
            if libs.len() <= 2 {
                lemma_defence_ops(
                    p,
                    t,
                    depth,
                    defences(p.size, p.board, t),
                    0,
                    ops + 1,
                    budget,
                );
            }
        }
    }
}

pub proof fn lemma_attack_ops(
    p: Pos,
    t: Pt,
    depth: nat,
    v: Seq<Pt>,
    i: int,
    ops: int,
    budget: int,
)
    requires
        inb(p.size, t),
        0 <= p.size <= MAX,
        0 <= i <= v.len() <= 8,
        depth > 0,
        ops <= budget + 8 * (depth - 1) + i,
    ensures
        ops <= read_attack(p, t, depth, v, i, ops, budget).1 <= budget + 8 * (depth - 1) + v.len(),
    decreases depth, 0int, v.len() - i,
{
    let target = cell(p.size, p.board, t);
    let q = with_turn(p, foe(target));
    if i >= v.len() {
    } else if play_code(q, v[i]) != OK {
        lemma_attack_ops(p, t, depth, v, i + 1, ops, budget);
    } else {
        let r = play_result(q, v[i]);
        if cell(r.size, r.board, t) == target {
            lemma_read_ops(r, t, (depth - 1) as nat, false, ops, budget);
            let found = read(r, t, (depth - 1) as nat, false, ops, budget);
            if !found.0 {
                lemma_attack_ops(p, t, depth, v, i + 1, found.1, budget);
            }
        }
    }
}

pub proof fn lemma_defence_ops(
    p: Pos,
    t: Pt,
    depth: nat,
    v: Seq<Pt>,
    i: int,
    ops: int,
    budget: int,
)
    requires
        inb(p.size, t),
        0 <= p.size <= MAX,
        0 <= i <= v.len() <= 8,
        depth > 0,
        ops <= budget + 8 * (depth - 1) + i,
    ensures
        ops <= read_defence(p, t, depth, v, i, ops, budget).1 <= budget + 8 * (depth - 1)
            + v.len(),
    decreases depth, 0int, v.len() - i,
{
    let target = cell(p.size, p.board, t);
    let q = with_turn(p, target);
    if i >= v.len() {
    } else if play_code(q, v[i]) != OK {
        lemma_defence_ops(p, t, depth, v, i + 1, ops, budget);
    } else {
        let r = play_result(q, v[i]);
        lemma_read_ops(r, t, (depth - 1) as nat, true, ops, budget);
        let found = read(r, t, (depth - 1) as nat, true, ops, budget);
        if found.0 {
            lemma_defence_ops(p, t, depth, v, i + 1, found.1, budget);
        }
    }
}

proof fn lemma_attackers(s: int, b: Seq<u8>, c: u8, v: Seq<Pt>, k: nat)
    ensures
        attackers(s, b, c, v, k).len() <= READ_WIDTH,
        forall|i: int|
            0 <= i < attackers(s, b, c, v, k).len() ==> inb(
                s,
                #[trigger] attackers(s, b, c, v, k)[i],
            ) && cell(s, b, attackers(s, b, c, v, k)[i]) == c,
    decreases k,
{
    if k > 0 {
        lemma_attackers(s, b, c, v, (k - 1) as nat);
    }
}

proof fn lemma_with_counters(s: int, b: Seq<u8>, start: Seq<Pt>, v: Seq<Pt>, k: nat)
    requires
        start.len() <= READ_WIDTH,
        k <= v.len(),
    ensures
        start.len() <= with_counters(s, b, start, v, k).len() <= READ_WIDTH,
    decreases k,
{
    if k > 0 {
        lemma_with_counters(s, b, start, v, (k - 1) as nat);
    }
}

/// A chain with few liberties has at most eight points of defence.
pub proof fn lemma_defences(s: int, b: Seq<u8>, t: Pt)
    ensures
        liberties(s, b, t).len() <= READ_WIDTH ==> defences(s, b, t).len() <= READ_WIDTH,
{
    let members = block(s, b, t);
    let near = attackers(s, b, foe(cell(s, b, t)), members, (4 * members.len()) as nat);
    lemma_attackers(s, b, foe(cell(s, b, t)), members, (4 * members.len()) as nat);
    if liberties(s, b, t).len() <= READ_WIDTH {
        lemma_with_counters(s, b, liberties(s, b, t), near, near.len());
    }
}

/// Whether the list holds the point.
pub fn has_point(v: &Vec<(i32, i32)>, x: i32, y: i32) -> (r: bool)
    ensures
        r == v@.contains((x, y)),
{
    let mut k: usize = 0;
    while k < v.len()
        invariant
            0 <= k <= v@.len(),
            forall|j: int| 0 <= j < k ==> #[trigger] v@[j] != (x, y),
        decreases v@.len() - k,
    {
        let (a, b) = v[k];
        if a == x && b == y {
            proof {
                assert(v@[k as int] == (x, y));
            }
            return true;
        }
        k = k + 1;
    }
    false
}

/// Stones of colour `c` next to the given points, at most eight.
fn find_attackers(pos: &Position, members: &Vec<(i32, i32)>, c: u8) -> (r: Vec<(i32, i32)>)
    requires
        pos.wf(),
        forall|k: int| 0 <= k < members@.len() ==> inb(pos@.size, #[trigger] members@[k]),
    ensures
        r@ == attackers(pos@.size, pos@.board, c, members@, (4 * members@.len()) as nat),
{
    let ghost s = pos@.size;
    let ghost b = pos@.board;
    let ghost v = members@;
    let mut r: Vec<(i32, i32)> = Vec::new();
    let mut k: usize = 0;
    while k < members.len()
        invariant
            pos.wf(),
            s == pos@.size,
            b == pos@.board,
            v == members@,
            forall|j: int| 0 <= j < v.len() ==> inb(s, #[trigger] v[j]),
            0 <= k <= v.len(),
            r@ == attackers(s, b, c, v, (4 * k) as nat),
        decreases v.len() - k,
    {
        let (gx, gy) = members[k];
        let mut d: usize = 0;
        while d < 4
            invariant
                pos.wf(),
                s == pos@.size,
                b == pos@.board,
                v == members@,
                0 <= k < v.len(),
                (gx, gy) == v[k as int],
                inb(s, (gx, gy)),
                0 <= d <= 4,
                r@ == attackers(s, b, c, v, (4 * k + d) as nat),
            decreases 4 - d,
        {
            let (nx, ny) = neighbour(gx, gy, d);
            proof {
                assert((4 * k + d) / 4 == k && (4 * k + d) % 4 == d as int);
                assert(((4 * k + d + 1) as nat - 1) as nat == (4 * k + d) as nat);
            }
            if in_board(pos, nx, ny) && pos.at(nx, ny) == c && !has_point(&r, nx, ny) && r.len()
                < READ_WIDTH {
                r.push((nx, ny));
            }
            d = d + 1;
        }
        k = k + 1;
    }
    r
}

/// Points where the owner of the chain `g` on (tx, ty) looks for a defence.
fn find_defences(pos: &Position, tx: i32, ty: i32, g: &Group) -> (r: Vec<(i32, i32)>)
    requires
        pos.wf(),
        inb(pos@.size, (tx, ty)),
        cell(pos@.size, pos@.board, (tx, ty)) != EMPTY,
        g.members@ == block(pos@.size, pos@.board, (tx, ty)),
        g.libs@ == liberties(pos@.size, pos@.board, (tx, ty)),
        g.libs@.len() <= 2,
    ensures
        r@ == defences(pos@.size, pos@.board, (tx, ty)),
        r@.len() <= READ_WIDTH,
{
    let ghost s = pos@.size;
    let ghost b = pos@.board;
    let ghost t: Pt = (tx, ty);
    proof {
        lemma_flood(s, b, t);
        assert forall|k: int| 0 <= k < g.members@.len() implies inb(
            s,
            #[trigger] g.members@[k],
        ) by {
            assert(g.members@.contains(g.members@[k]));
            lemma_connected_cell(s, b, t, g.members@[k]);
        }
        lemma_defences(s, b, t);
    }
    let att: u8 = opponent(pos.at(tx, ty));
    let near: Vec<(i32, i32)> = find_attackers(pos, &g.members, att);
    proof {
        lemma_attackers(s, b, att, g.members@, (4 * g.members@.len()) as nat);
    }
    let mut r: Vec<(i32, i32)> = Vec::new();
    let mut i: usize = 0;
    while i < g.libs.len()
        invariant
            0 <= i <= g.libs@.len(),
            r@ == g.libs@.take(i as int),
        decreases g.libs@.len() - i,
    {
        let e: (i32, i32) = g.libs[i];
        r.push(e);
        proof {
            assert(r@ =~= g.libs@.take(i + 1));
        }
        i = i + 1;
    }
    proof {
        assert(g.libs@.take(i as int) =~= g.libs@);
    }
    let mut k: usize = 0;
    while k < near.len()
        invariant
            pos.wf(),
            s == pos@.size,
            b == pos@.board,
            att == BLACK || att == WHITE,
            forall|j: int|
                0 <= j < near@.len() ==> inb(s, #[trigger] near@[j]) && cell(s, b, near@[j]) == att,
            0 <= k <= near@.len(),
            r@ == with_counters(s, b, g.libs@, near@, k as nat),
        decreases near@.len() - k,
    {
        let (ax, ay) = near[k];
        let a: Group = group_info(pos, ax, ay);
        if a.libs.len() == 1 {
            let (px, py) = a.libs[0];
            if !has_point(&r, px, py) && r.len() < READ_WIDTH {
                r.push((px, py));
            }
        }
        k = k + 1;
    }
    r
}

/// Whether the chain on (tx, ty) can be captured within `depth` moves; the attacker
/// moves first if `att_moves` holds. `ops` counts the positions examined, and once
/// there are more than `budget` the chain counts as safe. The position is left as it
/// was.
#[verifier::rlimit(40)]
pub fn read_cap(
    pos: &mut Position,
    tx: i32,
    ty: i32,
    depth: i32,
    att_moves: bool,
    ops: &mut i32,
    budget: i32,
) -> (r: bool)
    requires
        old(pos).wf(),
        inb(old(pos)@.size, (tx, ty)),
        readable(old(pos)@, depth as int, *old(ops) as int, budget as int),
    ensures
        final(pos).wf(),
        final(pos)@ == old(pos)@,
        r == read(
            old(pos)@,
            (tx, ty),
            plies(depth as int),
            att_moves,
            *old(ops) as int,
            budget as int,
        ).0,
        *final(ops) == read(
            old(pos)@,
            (tx, ty),
            plies(depth as int),
            att_moves,
            *old(ops) as int,
            budget as int,
        ).1,
    decreases plies(depth as int),
{
    let ghost p = pos@;
    let ghost t: Pt = (tx, ty);
    let ghost s = p.size;
    if depth <= 0 {
        return false;
    }
    *ops = *ops + 1;
    if *ops > budget {
        return false;
    }
    let target: u8 = pos.at(tx, ty);
    if target == EMPTY {
        return true;
    }
    let g: Group = group_info(pos, tx, ty);
    let ghost libs = g.libs@;
    if g.libs.len() == 0 {
        return true;
    }
    let saved_turn: u8 = pos.turn;
    if att_moves {
        let att: u8 = opponent(target);
        let ghost q = with_turn(p, att);
        if g.libs.len() == 1 {
            let (lx, ly) = g.libs[0];
            let mut result: bool = false;
            pos.turn = att;
            proof {
                assert(pos@ =~= q);
                lemma_room(q, (lx, ly), depth as int);
            }
            let (r, u) = try_play(pos, lx, ly);
            if r == OK {
                result = pos.at(tx, ty) != target;
                proof {
                    lemma_caps_inside(q, (lx, ly), q.turn, u.captured@);
                    law_untry_undoes_try(q, (lx, ly), u);
                }
                untry_play(pos, lx, ly, u);
            }
            pos.turn = saved_turn;
            proof {
                assert(pos@ =~= p);
            }
            return result;
        }
        let n: usize = if g.libs.len() > 4 {
            4
        } else {
            g.libs.len()
        };
        let ghost tried = if libs.len() > 4 {
            libs.take(4)
        } else {
            libs
        };
        let mut i: usize = 0;
        while i < n
            invariant
                pos.wf(),
                pos@ == p,
                pos_ok(p),
                p.turn == saved_turn,
                t == (tx, ty),
                s == p.size,
                inb(s, t),
                target == cell(s, p.board, t),
                target == BLACK || target == WHITE,
                att == foe(target),
                q == with_turn(p, att),
                0 < depth,
                budget + 8 * depth <= i32::MAX,
                room(p, depth as int),
                0 <= i <= n,
                n == tried.len(),
                n <= 4,
                n <= g.libs@.len(),
                forall|j: int| 0 <= j < n ==> #[trigger] tried[j] == g.libs@[j],
                *ops <= budget + 8 * (depth - 1) + i,
                p == old(pos)@,
                read_attack(p, t, depth as nat, tried, i as int, *ops as int, budget as int)
                    == read(p, t, depth as nat, att_moves, *old(ops) as int, budget as int),
            decreases n - i,
        {
            let (lx, ly) = g.libs[i];
            let ghost ops0 = *ops as int;
            pos.turn = att;
            proof {
                assert(tried[i as int] == (lx, ly));
                assert(pos@ =~= q);
                lemma_room(q, (lx, ly), depth as int);
            }
            let (r, u) = try_play(pos, lx, ly);
            let mut result: bool = false;
            if r == OK {
                if pos.at(tx, ty) != target {
                    result = true;
                } else {
                    proof {
                        lemma_read_ops(
                            pos@,
                            t,
                            (depth - 1) as nat,
                            false,
                            ops0,
                            budget as int,
                        );
                    }
                    result = read_cap(pos, tx, ty, depth - 1, false, ops, budget);
                }
                proof {
                    lemma_caps_inside(q, (lx, ly), q.turn, u.captured@);
                    law_untry_undoes_try(q, (lx, ly), u);
                }
                untry_play(pos, lx, ly, u);
            }
            pos.turn = saved_turn;
            proof {
                assert(pos@ =~= p);
            }
            if result {
                return true;
            }
            i = i + 1;
        }
        return false;
    }
    if g.libs.len() >= 3 {
        return false;
    }
    if g.libs.len() == 2 {
        proof {
            assert(libs.contains(libs[0]) && libs.contains(libs[1]));
            assert(is_liberty(s, p.board, t, libs[0]) && is_liberty(s, p.board, t, libs[1]));
        }
        if is_eye_for(pos, g.libs[0].0, g.libs[0].1, target) || is_eye_for(
            pos,
            g.libs[1].0,
            g.libs[1].1,
            target,
        ) {
            return false;
        }
    }
    let dps: Vec<(i32, i32)> = find_defences(pos, tx, ty, &g);
    let ghost q = with_turn(p, target);
    let ghost v = dps@;
    let mut i: usize = 0;
    while i < dps.len()
        invariant
            pos.wf(),
            pos@ == p,
            pos_ok(p),
            p.turn == saved_turn,
            t == (tx, ty),
            s == p.size,
            inb(s, t),
            target == cell(s, p.board, t),
            target == BLACK || target == WHITE,
            q == with_turn(p, target),
            0 < depth,
            budget + 8 * depth <= i32::MAX,
            room(p, depth as int),
            v == dps@,
            v.len() <= 8,
            0 <= i <= v.len(),
            *ops <= budget + 8 * (depth - 1) + i,
            p == old(pos)@,
            read_defence(p, t, depth as nat, v, i as int, *ops as int, budget as int)
                == read(p, t, depth as nat, att_moves, *old(ops) as int, budget as int),
        decreases v.len() - i,
    {
        let (dx, dy) = dps[i];
        let ghost ops0 = *ops as int;
        pos.turn = target;
        proof {
            assert(pos@ =~= q);
            lemma_room(q, (dx, dy), depth as int);
        }
        let (r, u) = try_play(pos, dx, dy);
        let mut escaped: bool = false;
        if r == OK {
            proof {
                lemma_own_stays(q, (dx, dy), t);
                lemma_read_ops(pos@, t, (depth - 1) as nat, true, ops0, budget as int);
            }
            let after: Group = group_info(pos, tx, ty);
            let caps: usize = u.captured.len();
            escaped = after.libs.len() >= 3 || (caps > 0 && after.libs.len() >= 2);
            if !escaped {
                escaped = !read_cap(pos, tx, ty, depth - 1, true, ops, budget);
            }
            proof {
                lemma_caps_inside(q, (dx, dy), q.turn, u.captured@);
                law_untry_undoes_try(q, (dx, dy), u);
            }
            untry_play(pos, dx, dy, u);
        }
        pos.turn = saved_turn;
        proof {
            assert(pos@ =~= p);
        }
        if escaped {
            return false;
        }
        i = i + 1;
    }
    true
}

} // verus!
