//! What reading out a fight tells.

use crate::board::{
    adj, area, cell, foe, group_points, idx, inb, lemma_area, lemma_nb, nb, pos_ok, pt, Pos, Pt,
    BLACK, EMPTY, MAX, OK, WHITE,
};
use crate::chain::{
    block, connected, flood, flood_look, flood_looks, flood_run, flood_start, flood_take,
    is_liberty, lemma_connected_cell, lemma_connected_refl, lemma_flood, liberties, Flood,
};
use crate::fairplay::{
    law_last_liberty_captures, law_prisoners_left_the_board, number_of, only_liberty,
};
use crate::laws::law_ko_arises;
use crate::liveness::{all_alive, lemma_after_cells};
use crate::reading::{
    attackers, defences, lemma_own_stays, lemma_read_ops, read, read_attack, read_defence,
    with_counters, with_turn,
};
use crate::rules::{captures, lemma_stone_stays, play_code, play_result};
use crate::terrain::{breath, eyes, lemma_breath};
use crate::census::eye_count;
use vstd::prelude::*;

verus! {

broadcast use group_points;

/// `c` may play on `e`, whoever is to move.
pub open spec fn may(p: Pos, c: u8, e: Pt) -> bool {
    play_code(Pos { turn: c, ..p }, e) == 0
}

/// The position after `c` has played on `e`.
pub open spec fn moved(p: Pos, c: u8, e: Pt) -> Pos {
    play_result(Pos { turn: c, ..p }, e)
}

/// After the attacker's move on `e` the chain on `t` is gone, or reading `d` moves more,
/// with some number of positions examined before, its owner cannot save it.
pub open spec fn attack_works(p: Pos, t: Pt, d: nat, budget: int, e: Pt) -> bool {
    let c = cell(p.size, p.board, t);
    let r = moved(p, foe(c), e);
    &&& may(p, foe(c), e)
    &&& cell(p.size, r.board, t) != c || exists|k: int| (#[trigger] read(
        r,
        t,
        d,
        false,
        k,
        budget,
    )).0
}

/// The attacker may not play on `e`, or the chain on `t` stays and reading `d` moves more,
/// with some number of positions examined before, its owner can save it.
pub open spec fn attack_fails(p: Pos, t: Pt, d: nat, budget: int, e: Pt) -> bool {
    let c = cell(p.size, p.board, t);
    let r = moved(p, foe(c), e);
    may(p, foe(c), e) ==> cell(p.size, r.board, t) == c && exists|k: int| !(#[trigger] read(
        r,
        t,
        d,
        false,
        k,
        budget,
    )).0
}

proof fn lemma_attack(p: Pos, t: Pt, d: nat, v: Seq<Pt>, i: int, ops: int, budget: int)
    requires
        0 <= i,
    ensures
        read_attack(p, t, d + 1, v, i, ops, budget).0 ==> exists|j: int|
            i <= j < v.len() && #[trigger] attack_works(p, t, d, budget, v[j]),
        !read_attack(p, t, d + 1, v, i, ops, budget).0 ==> forall|j: int|
            i <= j < v.len() ==> #[trigger] attack_fails(p, t, d, budget, v[j]),
    decreases v.len() - i,
{
    let c = cell(p.size, p.board, t);
    let q = with_turn(p, foe(c));
    if i < v.len() {
        if play_code(q, v[i]) != OK {
            lemma_attack(p, t, d, v, i + 1, ops, budget);
            assert(attack_fails(p, t, d, budget, v[i]));
        } else {
            let r = play_result(q, v[i]);
            let found = if cell(r.size, r.board, t) != c {
                (true, ops)
            } else {
                read(r, t, d, false, ops, budget)
            };
            assert(r == moved(p, foe(c), v[i]));
            if found.0 {
                assert(attack_works(p, t, d, budget, v[i]));
            } else {
                assert(!read(r, t, d, false, ops, budget).0);
                assert(attack_fails(p, t, d, budget, v[i]));
                lemma_attack(p, t, d, v, i + 1, found.1, budget);
            }
        }
    }
}

/// After the owner's move on `e` the chain on `t` has three liberties, or two with stones
/// captured, or reading `d` moves more, with some number of positions examined before, the
/// attacker cannot capture it.
pub open spec fn move_saves(p: Pos, t: Pt, d: nat, budget: int, e: Pt) -> bool {
    let c = cell(p.size, p.board, t);
    let r = moved(p, c, e);
    let n = breath(p.size, r.board, t).len();
    &&& may(p, c, e)
    &&& n >= 3 || (n == 2 && number_of(r, foe(c)) < number_of(p, foe(c))) || exists|k: int|
        !(#[trigger] read(r, t, d, true, k, budget)).0
}

/// The owner may not play on `e`, or the chain on `t` has then fewer liberties than three,
/// and than two with stones captured, and reading `d` moves more, with some number of
/// positions examined before, the attacker captures it.
pub open spec fn move_is_futile(p: Pos, t: Pt, d: nat, budget: int, e: Pt) -> bool {
    let c = cell(p.size, p.board, t);
    let r = moved(p, c, e);
    let n = breath(p.size, r.board, t).len();
    may(p, c, e) ==> n < 3 && (n < 2 || number_of(r, foe(c)) == number_of(p, foe(c))) && exists|
        k: int,
    |
        (#[trigger] read(r, t, d, true, k, budget)).0
}

proof fn lemma_defence(p: Pos, t: Pt, d: nat, v: Seq<Pt>, i: int, ops: int, budget: int)
    requires
        pos_ok(p),
        inb(p.size, t),
        p.board[idx(p.size, t)] != 0,
        0 <= i,
    ensures
        !read_defence(p, t, d + 1, v, i, ops, budget).0 ==> exists|j: int|
            i <= j < v.len() && #[trigger] move_saves(p, t, d, budget, v[j]),
        read_defence(p, t, d + 1, v, i, ops, budget).0 ==> forall|j: int|
            i <= j < v.len() ==> #[trigger] move_is_futile(p, t, d, budget, v[j]),
    decreases v.len() - i,
{
    let s = p.size;
    let c = cell(s, p.board, t);
    let q = with_turn(p, c);
    lemma_area(s);
    assert(c == BLACK || c == WHITE);
    if i < v.len() {
        let e = v[i];
        if play_code(q, e) != OK {
            lemma_defence(p, t, d, v, i + 1, ops, budget);
            assert(move_is_futile(p, t, d, budget, e));
        } else {
            let r = play_result(q, e);
            let libs = liberties(s, r.board, t).len();
            let caps = captures(s, p.board, e, c).len();
            assert(r == moved(p, c, e));
            lemma_own_stays(q, e, t);
            lemma_breath(s, r.board, t);
            law_prisoners_left_the_board(q, e);
            assert(number_of(p, foe(c)) == number_of(q, foe(c)));
            assert(caps == number_of(p, foe(c)) - number_of(r, foe(c)));
            if libs >= 3 || (caps > 0 && libs >= 2) {
                assert(move_saves(p, t, d, budget, e));
            } else {
                let found = read(r, t, d, true, ops, budget);
                if !found.0 {
                    assert(!read(r, t, d, true, ops, budget).0);
                    assert(move_saves(p, t, d, budget, e));
                } else {
                    assert(read(r, t, d, true, ops, budget).0);
                    assert(move_is_futile(p, t, d, budget, e));
                    lemma_defence(p, t, d, v, i + 1, found.1, budget);
                }
            }
        }
    }
}

/// What reading settles at once: nothing without a move to make or once the budget is
/// used up, capture where no stone or no liberty is left, escape of a chain that its owner
/// may extend when it has three liberties, or two of which one is an eye.
pub proof fn law_reading_settles(p: Pos, t: Pt, depth: nat, att: bool, ops: int, budget: int)
    requires
        pos_ok(p),
        inb(p.size, t),
    ensures
        ({
            let got = read(p, t, depth, att, ops, budget).0;
            let c = p.board[idx(p.size, t)];
            let n = breath(p.size, p.board, t).len();
            &&& depth == 0 || ops >= budget ==> !got
            &&& depth > 0 && ops < budget && (c == 0 || n == 0) ==> got
            &&& !att && c != 0 && n >= 3 ==> !got
            &&& !att && c != 0 && n == 2 && eyes(p.size, p.board, t).len() > 0 ==> !got
        }),
{
    let s = p.size;
    let b = p.board;
    if cell(s, b, t) != EMPTY {
        let libs = liberties(s, b, t);
        lemma_breath(s, b, t);
        lemma_flood(s, b, t);
        if libs.len() == 2 {
            reveal_with_fuel(eye_count, 3);
        }
    }
}

/// Reading a chain in atari with the attacker to move: it is captured if its last liberty
/// is a legal move.
pub proof fn law_reading_takes_in_atari(p: Pos, t: Pt, e: Pt, depth: nat, ops: int, budget: int)
    requires
        pos_ok(p),
        all_alive(p.size, p.board),
        inb(p.size, t),
        p.board[idx(p.size, t)] != 0,
        is_liberty(p.size, p.board, t, e),
        breath(p.size, p.board, t).len() == 1,
        depth > 0,
        ops < budget,
    ensures
        read(p, t, depth, true, ops, budget).0 <==> may(p, foe(p.board[idx(p.size, t)]), e),
{
    let s = p.size;
    let b = p.board;
    let c = cell(s, b, t);
    let libs = liberties(s, b, t);
    lemma_breath(s, b, t);
    lemma_flood(s, b, t);
    lemma_area(s);
    assert(libs.contains(e));
    assert(libs[0] == e);
    assert(only_liberty(s, b, t, e)) by {
        assert forall|x: Pt| #[trigger] is_liberty(s, b, t, x) implies x == e by {
            assert(libs.contains(x));
        }
    }
    let q = with_turn(p, foe(c));
    assert(c == BLACK || c == WHITE);
    if play_code(q, e) == OK {
        law_last_liberty_captures(q, e, t);
    }
}

/// One move of the attacker captures no chain that has two liberties.
pub proof fn law_reading_one_move(p: Pos, t: Pt, ops: int, budget: int)
    requires
        pos_ok(p),
        all_alive(p.size, p.board),
        inb(p.size, t),
        p.board[idx(p.size, t)] != 0,
        breath(p.size, p.board, t).len() >= 2,
    ensures
        !read(p, t, 1, true, ops, budget).0,
{
    let s = p.size;
    let b = p.board;
    let c = cell(s, b, t);
    let libs = liberties(s, b, t);
    lemma_breath(s, b, t);
    lemma_flood(s, b, t);
    lemma_area(s);
    let tried = if libs.len() > 4 {
        libs.take(4)
    } else {
        libs
    };
    lemma_attack(p, t, 0, tried, 0, ops + 1, budget);
    if read_attack(p, t, 1, tried, 0, ops + 1, budget).0 {
        let j = choose|j: int|
            0 <= j < tried.len() && #[trigger] attack_works(p, t, 0, budget, tried[j]);
        let q = with_turn(p, foe(c));
        let e = tried[j];
        assert(c == BLACK || c == WHITE);
        law_last_liberty_captures(q, e, t);
        let other = if j == 0 {
            libs[1]
        } else {
            libs[0]
        };
        assert(libs.contains(other));
        assert(is_liberty(s, b, t, other));
        assert(tried[j] == libs[j]);
        assert(e != other);
        lemma_after_cells(s, b, e, foe(c));
    }
}

/// The attacker captures a chain with two liberties or more by a legal move on one of
/// them, after which the chain is gone or its owner, moving next, cannot save it. Where
/// reading sees no capture of a chain with two to four liberties, none of them is such a
/// move. Of more liberties the first four decide.
pub proof fn law_reading_attack(p: Pos, t: Pt, d: nat, ops: int, budget: int)
    requires
        pos_ok(p),
        inb(p.size, t),
        p.board[idx(p.size, t)] != 0,
        breath(p.size, p.board, t).len() >= 2,
        ops < budget,
    ensures
        ({
            let got = read(p, t, d + 1, true, ops, budget).0;
            &&& got ==> exists|e: Pt|
                is_liberty(p.size, p.board, t, e) && #[trigger] attack_works(p, t, d, budget, e)
            &&& !got && breath(p.size, p.board, t).len() <= 4 ==> forall|e: Pt|
                is_liberty(p.size, p.board, t, e) ==> #[trigger] attack_fails(p, t, d, budget, e)
            &&& got ==> exists|j: int|
                0 <= j < 4 && j < liberties(p.size, p.board, t).len() && #[trigger] attack_works(
                    p,
                    t,
                    d,
                    budget,
                    liberties(p.size, p.board, t)[j],
                )
            &&& !got ==> forall|j: int|
                0 <= j < 4 && j < liberties(p.size, p.board, t).len() ==> #[trigger] attack_fails(
                    p,
                    t,
                    d,
                    budget,
                    liberties(p.size, p.board, t)[j],
                )
        }),
{
    let s = p.size;
    let b = p.board;
    let libs = liberties(s, b, t);
    lemma_breath(s, b, t);
    lemma_flood(s, b, t);
    let tried = if libs.len() > 4 {
        libs.take(4)
    } else {
        libs
    };
    lemma_attack(p, t, d, tried, 0, ops + 1, budget);
    let got = read(p, t, d + 1, true, ops, budget).0;
    assert(got == read_attack(p, t, d + 1, tried, 0, ops + 1, budget).0);
    if got {
        let j = choose|j: int|
            0 <= j < tried.len() && #[trigger] attack_works(p, t, d, budget, tried[j]);
        assert(tried[j] == libs[j]);
        assert(libs.contains(libs[j]));
        assert(is_liberty(s, b, t, libs[j]));
        assert(attack_works(p, t, d, budget, libs[j]));
    } else {
        assert forall|j: int| 0 <= j < 4 && j < libs.len() implies #[trigger] attack_fails(
            p,
            t,
            d,
            budget,
            libs[j],
        ) by {
            assert(attack_fails(p, t, d, budget, tried[j]));
        }
    }
    if !got && libs.len() <= 4 {
        assert forall|e: Pt| is_liberty(s, b, t, e) implies #[trigger] attack_fails(
            p,
            t,
            d,
            budget,
            e,
        ) by {
            assert(libs.contains(e));
            let j = choose|j: int| 0 <= j < libs.len() && libs[j] == e;
            assert(attack_fails(p, t, d, budget, tried[j]));
        }
    }
}

/// A chain whose owner moves next is captured only if none of its liberties saves it:
/// after each legal move there it has at most two liberties, and the attacker, moving
/// next, captures it. Where its owner does save it, though it has one liberty, or two and no
/// eye, some legal move leaves it three liberties, or two with a capture, or safe from the
/// attacker's next move.
pub proof fn law_reading_defence(p: Pos, t: Pt, d: nat, ops: int, budget: int)
    requires
        pos_ok(p),
        inb(p.size, t),
        p.board[idx(p.size, t)] != 0,
        breath(p.size, p.board, t).len() >= 1,
        ops < budget,
    ensures
        ({
            let n = breath(p.size, p.board, t).len();
            let got = read(p, t, d + 1, false, ops, budget).0;
            &&& got ==> n <= 2
            &&& got ==> forall|e: Pt|
                is_liberty(p.size, p.board, t, e) ==> #[trigger] move_is_futile(
                    p,
                    t,
                    d,
                    budget,
                    e,
                )
            &&& !got && (n == 1 || (n == 2 && eyes(p.size, p.board, t).len() == 0)) ==> exists|
                e: Pt,
            | #[trigger]
                move_saves(p, t, d, budget, e)
        }),
{
    let s = p.size;
    let b = p.board;
    let c = cell(s, b, t);
    let libs = liberties(s, b, t);
    lemma_breath(s, b, t);
    lemma_flood(s, b, t);
    let v = defences(s, b, t);
    lemma_defence(p, t, d, v, 0, ops + 1, budget);
    let got = read(p, t, d + 1, false, ops, budget).0;
    if libs.len() == 2 {
        reveal_with_fuel(eye_count, 3);
    }
    if got {
        assert forall|e: Pt| is_liberty(s, b, t, e) implies #[trigger] move_is_futile(
            p,
            t,
            d,
            budget,
            e,
        ) by {
            assert(libs.contains(e));
            lemma_defences_hold(s, b, t, e);
            let j = choose|j: int| 0 <= j < v.len() && v[j] == e;
            assert(move_is_futile(p, t, d, budget, v[j]));
        }
    }
}

/// The liberties of a chain are among the points where its owner looks for a defence.
proof fn lemma_defences_hold(s: int, b: Seq<u8>, t: Pt, e: Pt)
    requires
        liberties(s, b, t).contains(e),
    ensures
        defences(s, b, t).contains(e),
{
    let members = block(s, b, t);
    let near = attackers(
        s,
        b,
        foe(cell(s, b, t)),
        members,
        (4 * members.len()) as nat,
    );
    lemma_counters_hold(s, b, liberties(s, b, t), near, near.len(), e);
}

proof fn lemma_counters_hold(s: int, b: Seq<u8>, start: Seq<Pt>, v: Seq<Pt>, k: nat, e: Pt)
    requires
        start.contains(e),
    ensures
        with_counters(s, b, start, v, k).contains(e),
    decreases k,
{
    if k > 0 {
        lemma_counters_hold(s, b, start, v, (k - 1) as nat, e);
        let prev = with_counters(s, b, start, v, (k - 1) as nat);
        let i = choose|i: int| 0 <= i < prev.len() && prev[i] == e;
        assert(with_counters(s, b, start, v, k)[i] == e);
    }
}

/// The stones of colour `c` next to the chain on `t`.
pub open spec fn touching(s: int, b: Seq<u8>, t: Pt, c: u8) -> Set<Pt> {
    Set::new(
        |r: Pt|
            inb(s, r) && cell(s, b, r) == c && exists|m: Pt| #[trigger]
                connected(s, b, t, m) && adj(m, r),
    )
}

proof fn lemma_touching_finite(s: int, b: Seq<u8>, t: Pt, c: u8)
    requires
        0 < s <= MAX,
    ensures
        touching(s, b, t, c).finite(),
{
    let all = vstd::set_lib::set_int_range(0, area(s)).map(|i: int| pt(s, i));
    vstd::set_lib::lemma_int_range(0, area(s));
    vstd::set_lib::set_int_range(0, area(s)).lemma_map_finite(|i: int| pt(s, i));
    assert(touching(s, b, t, c).subset_of(all)) by {
        assert forall|r: Pt| touching(s, b, t, c).contains(r) implies all.contains(r) by {
            assert(pt(s, idx(s, r)) == r);
            assert(vstd::set_lib::set_int_range(0, area(s)).contains(idx(s, r)));
        }
    }
    vstd::set_lib::lemma_set_subset_finite(all, touching(s, b, t, c));
}

proof fn lemma_attackers_all(s: int, b: Seq<u8>, c: u8, t: Pt, v: Seq<Pt>, k: nat)
    requires
        0 < s <= MAX,
        forall|j: int| 0 <= j < v.len() ==> connected(s, b, t, #[trigger] v[j]),
        k <= 4 * v.len(),
        touching(s, b, t, c).len() <= 7,
    ensures
        attackers(s, b, c, v, k).no_duplicates(),
        attackers(s, b, c, v, k).len() <= touching(s, b, t, c).len(),
        forall|x: Pt| #[trigger]
            attackers(s, b, c, v, k).contains(x) ==> touching(s, b, t, c).contains(x),
        forall|a: int, d: int|
            #![trigger nb(v[a], d)]
            0 <= d < 4 && 0 <= a && 4 * a + d < k && inb(s, nb(v[a], d)) && cell(s, b, nb(v[a], d))
                == c ==> attackers(s, b, c, v, k).contains(nb(v[a], d)),
    decreases k,
{
    let near = touching(s, b, t, c);
    let now = attackers(s, b, c, v, k);
    lemma_touching_finite(s, b, t, c);
    if k > 0 {
        let prev = attackers(s, b, c, v, (k - 1) as nat);
        lemma_attackers_all(s, b, c, t, v, (k - 1) as nat);
        let a0 = (k - 1) / 4;
        let d0 = (k - 1) % 4;
        let m = v[a0];
        let r = nb(m, d0);
        assert(connected(s, b, t, m));
        lemma_connected_cell(s, b, t, m);
        lemma_nb(s, m, r);
        if inb(s, r) && cell(s, b, r) == c && !prev.contains(r) {
            assert(adj(m, r));
            assert(near.contains(r));
            assert(now == prev.push(r));
            assert(now[prev.len() as int] == r);
            assert forall|x: Pt| #[trigger] now.contains(x) <==> prev.contains(x) || x == r by {
                if prev.contains(x) {
                    let j = choose|j: int| 0 <= j < prev.len() && prev[j] == x;
                    assert(now[j] == x);
                }
            }
        }
        assert forall|a: int, d: int|
            #![trigger nb(v[a], d)]
            0 <= d < 4 && 0 <= a && 4 * a + d < k && inb(s, nb(v[a], d)) && cell(s, b, nb(v[a], d))
                == c implies now.contains(nb(v[a], d)) by {
            if 4 * a + d < k - 1 {
                assert(prev.contains(nb(v[a], d)));
            } else {
                assert(a == a0 && d == d0);
            }
        }
    }
    now.unique_seq_to_set();
    assert(now.to_set().subset_of(near)) by {
        assert forall|x: Pt| now.to_set().contains(x) implies near.contains(x) by {
            assert(now.contains(x));
        }
    }
    vstd::set_lib::lemma_len_subset(now.to_set(), near);
}

proof fn lemma_counters_all(s: int, b: Seq<u8>, start: Seq<Pt>, v: Seq<Pt>, k: nat, j: int)
    requires
        k <= v.len(),
        start.len() + v.len() <= 8,
        0 <= j < k,
        liberties(s, b, v[j]).len() == 1,
    ensures
        with_counters(s, b, start, v, k).len() <= start.len() + k,
        with_counters(s, b, start, v, k).contains(liberties(s, b, v[j])[0]),
    decreases k,
{
    let prev = with_counters(s, b, start, v, (k - 1) as nat);
    let now = with_counters(s, b, start, v, k);
    lemma_counters_len(s, b, start, v, (k - 1) as nat);
    if j < k - 1 {
        lemma_counters_all(s, b, start, v, (k - 1) as nat, j);
        let e = liberties(s, b, v[j])[0];
        let i = choose|i: int| 0 <= i < prev.len() && prev[i] == e;
        assert(now[i] == e);
    } else {
        let e = liberties(s, b, v[j])[0];
        if !prev.contains(e) {
            assert(now == prev.push(e));
            assert(now[prev.len() as int] == e);
        }
    }
}

proof fn lemma_counters_len(s: int, b: Seq<u8>, start: Seq<Pt>, v: Seq<Pt>, k: nat)
    ensures
        with_counters(s, b, start, v, k).len() <= start.len() + k,
    decreases k,
{
    if k > 0 {
        lemma_counters_len(s, b, start, v, (k - 1) as nat);
    }
}

/// The owner of a chain also looks for a rescue by capture: where reading sees none, no
/// legal move on the last liberty of a stone in atari next to the chain saves it. This
/// holds while the liberties and the other side's stones next to the chain are at most
/// eight together.
pub proof fn law_reading_tries_captures(
    p: Pos,
    t: Pt,
    d: nat,
    ops: int,
    budget: int,
    r: Pt,
    e: Pt,
)
    requires
        pos_ok(p),
        inb(p.size, t),
        p.board[idx(p.size, t)] != 0,
        breath(p.size, p.board, t).len() >= 1,
        ops < budget,
        touching(p.size, p.board, t, foe(p.board[idx(p.size, t)])).contains(r),
        touching(p.size, p.board, t, foe(p.board[idx(p.size, t)])).len() + breath(
            p.size,
            p.board,
            t,
        ).len() <= 8,
        breath(p.size, p.board, r).len() == 1,
        is_liberty(p.size, p.board, r, e),
        read(p, t, d + 1, false, ops, budget).0,
    ensures
        move_is_futile(p, t, d, budget, e),
{
    let s = p.size;
    let b = p.board;
    let c = cell(s, b, t);
    let members = block(s, b, t);
    let libs = liberties(s, b, t);
    lemma_area(s);
    assert(c == BLACK || c == WHITE);
    lemma_breath(s, b, t);
    lemma_flood(s, b, t);
    lemma_breath(s, b, r);
    lemma_flood(s, b, r);
    assert(liberties(s, b, r).contains(e));
    assert(liberties(s, b, r)[0] == e);
    assert forall|j: int| 0 <= j < members.len() implies connected(
        s,
        b,
        t,
        #[trigger] members[j],
    ) by {
        assert(members.contains(members[j]));
    }
    let n = (4 * members.len()) as nat;
    let near = attackers(s, b, foe(c), members, n);
    lemma_attackers_all(s, b, foe(c), t, members, n);
    let m = choose|m: Pt| #[trigger] connected(s, b, t, m) && adj(m, r);
    assert(members.contains(m));
    let a = choose|a: int| 0 <= a < members.len() && members[a] == m;
    lemma_connected_cell(s, b, t, m);
    lemma_nb(s, m, r);
    let k: int = if r == nb(m, 0) {
        0
    } else if r == nb(m, 1) {
        1
    } else if r == nb(m, 2) {
        2
    } else {
        3
    };
    assert(nb(members[a], k) == r);
    assert(near.contains(r));
    let j = choose|j: int| 0 <= j < near.len() && near[j] == r;
    lemma_counters_all(s, b, libs, near, near.len(), j);
    let v = defences(s, b, t);
    assert(v.contains(e));
    lemma_defence(p, t, d, v, 0, ops + 1, budget);
    let i = choose|i: int| 0 <= i < v.len() && v[i] == e;
    assert(move_is_futile(p, t, d, budget, v[i]));
}

/// Reading counts the positions it looks at: none where it has no move to make, one where
/// it settles the matter at once.
pub proof fn law_reading_counts_positions(
    p: Pos,
    t: Pt,
    depth: nat,
    att: bool,
    ops: int,
    budget: int,
)
    requires
        pos_ok(p),
        inb(p.size, t),
    ensures
        ({
            let got = read(p, t, depth, att, ops, budget).1;
            let c = p.board[idx(p.size, t)];
            let n = breath(p.size, p.board, t).len();
            &&& depth == 0 ==> got == ops
            &&& depth > 0 && (ops >= budget || c == 0 || n == 0 || (att && n == 1) || (!att && n
                >= 3)) ==> got == ops + 1
            &&& depth > 0 ==> got >= ops + 1
        }),
{
    let s = p.size;
    let b = p.board;
    let libs = liberties(s, b, t);
    if cell(s, b, t) != EMPTY {
        lemma_breath(s, b, t);
    }
    if depth > 0 && ops < budget && cell(s, b, t) != EMPTY {
        let tried = if libs.len() > 4 {
            libs.take(4)
        } else {
            libs
        };
        lemma_attack_counts(p, t, (depth - 1) as nat, tried, 0, ops + 1, budget);
        lemma_defence_counts(p, t, (depth - 1) as nat, defences(s, b, t), 0, ops + 1, budget);
    }
}

proof fn lemma_attack_counts(p: Pos, t: Pt, d: nat, v: Seq<Pt>, i: int, ops: int, budget: int)
    requires
        0 <= i,
        0 <= p.size <= MAX,
        inb(p.size, t),
    ensures
        read_attack(p, t, d + 1, v, i, ops, budget).1 >= ops,
    decreases v.len() - i,
{
    let c = cell(p.size, p.board, t);
    let q = with_turn(p, foe(c));
    if i < v.len() {
        if play_code(q, v[i]) != OK {
            lemma_attack_counts(p, t, d, v, i + 1, ops, budget);
        } else {
            let r = play_result(q, v[i]);
            lemma_read_ops(r, t, d, false, ops, budget);
            let found = if cell(r.size, r.board, t) != c {
                (true, ops)
            } else {
                read(r, t, d, false, ops, budget)
            };
            lemma_attack_counts(p, t, d, v, i + 1, found.1, budget);
        }
    }
}

proof fn lemma_defence_counts(p: Pos, t: Pt, d: nat, v: Seq<Pt>, i: int, ops: int, budget: int)
    requires
        0 <= i,
        0 <= p.size <= MAX,
        inb(p.size, t),
    ensures
        read_defence(p, t, d + 1, v, i, ops, budget).1 >= ops,
    decreases v.len() - i,
{
    let c = cell(p.size, p.board, t);
    let q = with_turn(p, c);
    if i < v.len() {
        if play_code(q, v[i]) != OK {
            lemma_defence_counts(p, t, d, v, i + 1, ops, budget);
        } else {
            let r = play_result(q, v[i]);
            lemma_read_ops(r, t, d, true, ops, budget);
            let found = read(r, t, d, true, ops, budget);
            lemma_defence_counts(p, t, d, v, i + 1, found.1, budget);
        }
    }
}

/// A ko arises where a single stone, with one liberty and no other stone of its colour next
/// to it, has captured a single stone, and bars the point that was left.
pub proof fn law_ko_after_single_capture(p: Pos, q: Pt)
    requires
        pos_ok(p),
        play_code(p, q) == OK,
    ensures
        ({
            let r = play_result(p, q);
            let gone = number_of(p, foe(p.turn)) - number_of(r, foe(p.turn));
            &&& r.ko_active <==> gone == 1 && breath(r.size, r.board, q).len() == 1 && forall|
                e: Pt,
            | #[trigger]
                connected(r.size, r.board, q, e) ==> e == q
            &&& r.ko_active ==> inb(p.size, r.ko) && p.board[idx(p.size, r.ko)] == foe(p.turn)
                && r.board[idx(p.size, r.ko)] == 0
        }),
{
    let s = p.size;
    let r = play_result(p, q);
    let v = block(s, r.board, q);
    lemma_area(s);
    law_ko_arises(p, q);
    law_prisoners_left_the_board(p, q);
    lemma_stone_stays(s, p.board, q, p.turn);
    lemma_breath(s, r.board, q);
    lemma_flood(s, r.board, q);
    lemma_connected_refl(s, r.board, q);
    assert(v.contains(q));
    assert(v.len() == 1 <==> forall|e: Pt| #[trigger] connected(s, r.board, q, e) ==> e == q) by {
        if v.len() == 1 {
            assert forall|e: Pt| #[trigger] connected(s, r.board, q, e) implies e == q by {
                assert(v.contains(e));
            }
        }
        if forall|e: Pt| #[trigger] connected(s, r.board, q, e) ==> e == q {
            if v.len() > 1 {
                assert(v.contains(v[0]) && v.contains(v[1]));
                assert(connected(s, r.board, q, v[0]) && connected(s, r.board, q, v[1]));
            }
        }
    }
    if r.ko_active {
        let taken = captures(s, p.board, q, p.turn);
        assert(taken.contains(idx(s, r.ko)));
        assert(idx(s, r.ko) != idx(s, q)) by {
            assert(pt(s, idx(s, r.ko)) == r.ko && pt(s, idx(s, q)) == q);
        }
    }
}

/// The list `v` starts with the list `u`.
pub open spec fn starts_with(v: Seq<Pt>, u: Seq<Pt>) -> bool {
    u.len() <= v.len() && v.take(u.len() as int) == u
}

proof fn lemma_looks_extend(s: int, b: Seq<u8>, color: u8, f: Flood, q: Pt, d: nat)
    ensures
        flood_looks(s, b, color, f, q, d).members == f.members,
        starts_with(flood_looks(s, b, color, f, q, d).libs, f.libs),
    decreases d,
{
    if d > 0 {
        lemma_looks_extend(s, b, color, f, q, (d - 1) as nat);
        let g = flood_looks(s, b, color, f, q, (d - 1) as nat);
        let h = flood_looks(s, b, color, f, q, d);
        assert(h.libs.take(f.libs.len() as int) =~= g.libs.take(f.libs.len() as int));
    } else {
        assert(f.libs.take(f.libs.len() as int) =~= f.libs);
    }
}

proof fn lemma_run_extends(s: int, b: Seq<u8>, color: u8, f: Flood, n: nat)
    ensures
        starts_with(flood_run(s, b, color, f, n).members, f.members),
        starts_with(flood_run(s, b, color, f, n).libs, f.libs),
    decreases n,
{
    if n == 0 || f.stack.len() == 0 {
        assert(f.libs.take(f.libs.len() as int) =~= f.libs);
        assert(f.members.take(f.members.len() as int) =~= f.members);
    } else {
        let g = flood_looks(s, b, color, flood_take(f), f.stack.last(), 4);
        lemma_looks_extend(s, b, color, flood_take(f), f.stack.last(), 4);
        lemma_run_extends(s, b, color, g, (n - 1) as nat);
        let h = flood_run(s, b, color, f, n);
        assert(h == flood_run(s, b, color, g, (n - 1) as nat));
        assert(h.members.take(f.members.len() as int) =~= h.members.take(
            g.members.len() as int,
        ).take(f.members.len() as int));
        assert(g.members.take(f.members.len() as int) =~= f.members);
        assert(h.libs.take(f.libs.len() as int) =~= h.libs.take(g.libs.len() as int).take(
            f.libs.len() as int,
        ));
    }
}

/// `v`, with (x, y) behind it if that is a point of the board that holds `c`.
pub open spec fn and_then_if(p: Pos, v: Seq<Pt>, c: u8, x: int, y: int) -> Seq<Pt> {
    if 0 <= x < p.size && 0 <= y < p.size && p.board[y * p.size + x] == c {
        v.push((x as i32, y as i32))
    } else {
        v
    }
}

/// The neighbours of `q` that hold `c`: to the right, to the left, below and above.
pub open spec fn in_order(p: Pos, q: Pt, c: u8) -> Seq<Pt> {
    let right = and_then_if(p, seq![], c, q.0 + 1, q.1 as int);
    let left = and_then_if(p, right, c, q.0 - 1, q.1 as int);
    let down = and_then_if(p, left, c, q.0 as int, q.1 + 1);
    and_then_if(p, down, c, q.0 as int, q.1 - 1)
}

/// The order in which a chain is gone through: it begins with its own point, then comes the
/// last of the like neighbours of that. Its liberties begin with the empty neighbours of its
/// own point, and are no others if it is a single stone.
pub proof fn law_order_within_a_chain(p: Pos, q: Pt)
    requires
        pos_ok(p),
        inb(p.size, q),
        p.board[idx(p.size, q)] != 0,
    ensures
        ({
            let v = block(p.size, p.board, q);
            let near = in_order(p, q, p.board[idx(p.size, q)]);
            &&& v.len() >= 1 && v[0] == q
            &&& near.len() > 0 ==> v.len() >= 2 && v[1] == near[near.len() - 1]
            &&& starts_with(liberties(p.size, p.board, q), in_order(p, q, 0))
            &&& near.len() == 0 ==> liberties(p.size, p.board, q) == in_order(p, q, 0)
        }),
{
    let s = p.size;
    let b = p.board;
    let c = cell(s, b, q);
    let f0 = flood_start(q);
    let f1 = flood_looks(s, b, c, flood_take(f0), q, 4);
    lemma_area(s);
    lemma_first_looks(p, q);
    let f = flood_run(s, b, c, f1, 360);
    assert(flood(s, b, q) == f);
    lemma_run_extends(s, b, c, f1, 360);
    assert(f1.members =~= seq![q]);
    assert(f.members[0] == f.members.take(1)[0]);
    let near = in_order(p, q, c);
    if near.len() > 0 {
        let f2 = flood_looks(s, b, c, flood_take(f1), f1.stack.last(), 4);
        lemma_looks_extend(s, b, c, flood_take(f1), f1.stack.last(), 4);
        lemma_run_extends(s, b, c, f2, 359);
        assert(f == flood_run(s, b, c, f2, 359));
        assert(f2.members =~= seq![q, f1.stack.last()]);
        assert(f.members[1] == f.members.take(2)[1]);
    } else {
        assert(f == f1);
    }
}

/// After its first point a fill has the like neighbours of that on its stack, and the empty
/// ones among its liberties.
proof fn lemma_first_looks(p: Pos, q: Pt)
    requires
        pos_ok(p),
        inb(p.size, q),
        p.board[idx(p.size, q)] != 0,
    ensures
        ({
            let c = cell(p.size, p.board, q);
            let f = flood_looks(p.size, p.board, c, flood_take(flood_start(q)), q, 4);
            &&& f.stack == in_order(p, q, c)
            &&& f.libs == in_order(p, q, 0)
            &&& f.members == seq![q]
        }),
{
    let s = p.size;
    let b = p.board;
    let c = cell(s, b, q);
    reveal(idx);
    reveal_with_fuel(flood_looks, 5);
    let g = flood_take(flood_start(q));
    assert(g.stack =~= seq![]);
    assert(g.members =~= seq![q]);
    let f1 = flood_look(s, b, c, g, nb(q, 0));
    let f2 = flood_look(s, b, c, f1, nb(q, 1));
    let f3 = flood_look(s, b, c, f2, nb(q, 2));
    let f4 = flood_look(s, b, c, f3, nb(q, 3));
    let x = q.0 as int;
    let y = q.1 as int;
    assert(f1.stack == and_then_if(p, seq![], c, x + 1, y));
    assert(f1.libs == and_then_if(p, seq![], 0, x + 1, y));
    assert(f1.seen.subset_of(set![q, nb(q, 0)]));
    assert(f2.stack == and_then_if(p, f1.stack, c, x - 1, y));
    assert(f2.libs == and_then_if(p, f1.libs, 0, x - 1, y));
    assert(f2.seen.subset_of(set![q, nb(q, 0), nb(q, 1)]));
    assert(f3.stack == and_then_if(p, f2.stack, c, x, y + 1));
    assert(f3.libs == and_then_if(p, f2.libs, 0, x, y + 1));
    assert(f3.seen.subset_of(set![q, nb(q, 0), nb(q, 1), nb(q, 2)]));
    assert(f4.stack == and_then_if(p, f3.stack, c, x, y - 1));
    assert(f4.libs == and_then_if(p, f3.libs, 0, x, y - 1));
    assert(f4 == flood_looks(s, b, c, g, q, 4));
}

} // verus!
