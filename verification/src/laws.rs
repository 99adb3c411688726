//! What holds of the rules and of the game record as a whole.

use crate::board::{
    adj, area, cell, foe, group_points, idx, inb, lemma_area, lemma_nb, nb, pos_ok, pt, Pos, Pt,
    BLACK, CELLS, EMPTY, ERR_KO, MAX, OK, WHITE,
};
use crate::chain::{
    block, connected, is_liberty, lemma_closed, lemma_connected_cell, lemma_connected_refl,
    lemma_connected_step, lemma_flood, lemma_same_block, liberties, link,
};
use crate::game::{
    lemma_redone_ok, lemma_undone_ok, passed, placed, played, popped, recorded_move, redone,
    snapped, state_ok, undone, State,
};
use crate::history::{hist_full, Hist, MoveRec};
use crate::liveness::{all_alive, law_stones_stay_alive, lemma_after_cells};
use crate::record::{
    grown, lemma_line_back, lemma_line_grows, lemma_line_on, lemma_rec_result, line_ok, pass_fits,
    pass_record, pass_result, place_code, place_record, place_result, play_record, rec_of,
    rec_taken, sound, traced,
};
use crate::rules::{
    capture_list, captures, counters_fit, dies, empty_neighbours, lemma_capture_list,
    lemma_stone_stays, play_code, play_result, put,
};
use vstd::prelude::*;

verus! {

broadcast use group_points;

/// After every stone set up in analysis each chain on the board has a liberty.
pub proof fn law_place_keeps_all_alive(p: Pos, q: Pt, c: u8)
    requires
        pos_ok(p),
        all_alive(p.size, p.board),
        place_code(p, q, c as int) == OK,
    ensures
        all_alive(p.size, place_result(p, q, c).board),
{
    law_stones_stay_alive(p.size, p.board, q, c);
}

/// The board with its move numbers is in order: every stone is Black or White, every chain
/// has a liberty, and empty points have no number.
pub open spec fn board_ok(p: Pos) -> bool {
    &&& 5 <= p.size <= MAX
    &&& p.board.len() == CELLS
    &&& p.moveno.len() == CELLS
    &&& forall|i: int| 0 <= i < CELLS ==> #[trigger] p.board[i] <= WHITE
    &&& forall|i: int| 0 <= i < CELLS ==> #[trigger] p.board[i] == EMPTY ==> p.moveno[i] == 0
    &&& all_alive(p.size, p.board)
}

/// The position after a move on `q` has been tried, whatever the answer.
pub open spec fn tried(p: Pos, q: Pt) -> Pos {
    if play_code(p, q) == OK {
        play_result(p, q)
    } else {
        p
    }
}

/// Whatever move is tried and whatever the answer, the board stays in order.
pub proof fn law_try_keeps_board_ok(p: Pos, q: Pt)
    requires
        board_ok(p),
        p.turn == BLACK || p.turn == WHITE,
    ensures
        board_ok(tried(p, q)),
{
    if play_code(p, q) == OK {
        law_stones_stay_alive(p.size, p.board, q, p.turn);
        lemma_stone_stays(p.size, p.board, q, p.turn);
        lemma_area(p.size);
    }
}

/// A stone that stands alone has as many liberties as empty neighbours; here, one or not.
proof fn lemma_lone_stone(s: int, b: Seq<u8>, q: Pt)
    requires
        0 < s <= MAX,
        inb(s, q),
        b.len() == CELLS,
        cell(s, b, q) != EMPTY,
        block(s, b, q).len() == 1,
    ensures
        empty_neighbours(s, b, q, 4) == 1 <==> liberties(s, b, q).len() == 1,
{
    let libs = liberties(s, b, q);
    let list = block(s, b, q);
    lemma_flood(s, b, q);
    lemma_connected_refl(s, b, q);
    assert(list.contains(q));
    assert(forall|r: Pt| connected(s, b, q, r) ==> r == q) by {
        assert forall|r: Pt| connected(s, b, q, r) implies r == q by {
            assert(list.contains(r));
        }
    }
    assert forall|e: Pt| libs.contains(e) <==> (inb(s, e) && cell(s, b, e) == EMPTY && (e == nb(
        q,
        0,
    ) || e == nb(q, 1) || e == nb(q, 2) || e == nb(q, 3))) by {
        lemma_nb(s, q, e);
        if inb(s, e) && cell(s, b, e) == EMPTY && adj(q, e) {
            assert(connected(s, b, q, q));
            assert(is_liberty(s, b, q, e));
        }
        if libs.contains(e) {
            assert(is_liberty(s, b, q, e));
            let r = choose|r: Pt| #[trigger] connected(s, b, q, r) && adj(r, e);
            assert(r == q);
        }
    }
    reveal_with_fuel(empty_neighbours, 5);
    assert(nb(q, 0) != nb(q, 1) && nb(q, 0) != nb(q, 2) && nb(q, 0) != nb(q, 3));
    assert(nb(q, 1) != nb(q, 2) && nb(q, 1) != nb(q, 3) && nb(q, 2) != nb(q, 3));
    assert(libs.contains(nb(q, 0)) <==> inb(s, nb(q, 0)) && cell(s, b, nb(q, 0)) == EMPTY);
    assert(libs.contains(nb(q, 1)) <==> inb(s, nb(q, 1)) && cell(s, b, nb(q, 1)) == EMPTY);
    assert(libs.contains(nb(q, 2)) <==> inb(s, nb(q, 2)) && cell(s, b, nb(q, 2)) == EMPTY);
    assert(libs.contains(nb(q, 3)) <==> inb(s, nb(q, 3)) && cell(s, b, nb(q, 3)) == EMPTY);
    if libs.len() == 1 {
        assert(libs.contains(libs[0]));
        assert(forall|e: Pt| libs.contains(e) ==> e == libs[0]);
    }
    if empty_neighbours(s, b, q, 4) == 1 {
        if libs.len() > 1 {
            assert(libs.contains(libs[0]) && libs.contains(libs[1]));
            assert(libs[0] != libs[1]);
        }
    }
}

/// A legal move leaves a ko exactly when it captures one stone and its own stone is then a
/// chain of one with one liberty. The ko point is that of the captured stone.
pub proof fn law_ko_arises(p: Pos, q: Pt)
    requires
        pos_ok(p),
        play_code(p, q) == OK,
    ensures
        ({
            let r = play_result(p, q);
            let taken = captures(p.size, p.board, q, p.turn);
            &&& r.ko_active <==> taken.len() == 1 && block(r.size, r.board, q).len() == 1
                && liberties(r.size, r.board, q).len() == 1
            &&& r.ko_active ==> inb(p.size, r.ko) && taken =~= set![idx(p.size, r.ko)] && cell(
                p.size,
                p.board,
                r.ko,
            ) == foe(p.turn)
        }),
{
    let s = p.size;
    let r = play_result(p, q);
    let taken = captures(s, p.board, q, p.turn);
    let list = capture_list(p, q, p.turn);
    lemma_area(s);
    lemma_capture_list(p, q, p.turn);
    lemma_stone_stays(s, p.board, q, p.turn);
    if block(s, r.board, q).len() == 1 {
        lemma_lone_stone(s, r.board, q);
    }
    if taken.len() == 1 {
        let i = list[0].0 as int;
        assert(taken.contains(i));
        assert forall|j: int| taken.contains(j) implies j == i by {
            let k = choose|k: int| 0 <= k < list.len() && (#[trigger] list[k]).0 == j;
            assert(k == 0);
        }
        lemma_singleton(s, taken, i);
        assert(idx(s, pt(s, i)) == i);
        assert(cell(s, put(s, p.board, q, p.turn), pt(s, i)) == foe(p.turn));
    }
}

/// A ko capture bars the point of the captured stone for the next move.
pub proof fn law_ko_bars_recapture(p: Pos, q: Pt)
    requires
        pos_ok(p),
        play_code(p, q) == OK,
        play_result(p, q).ko_active,
    ensures
        play_code(play_result(p, q), play_result(p, q).ko) == ERR_KO,
{
    let taken = captures(p.size, p.board, q, p.turn);
    let i = taken.choose();
    lemma_area(p.size);
    vstd::set_lib::lemma_int_range(0, area(p.size));
    vstd::set_lib::lemma_len_subset(taken, vstd::set_lib::set_int_range(0, area(p.size)));
    assert(taken.contains(i)) by {
        if taken =~= Set::<int>::empty() {
            assert(taken.len() == 0);
        }
    }
    assert(idx(p.size, pt(p.size, i)) == i);
}

/// A pass lifts the ko.
pub proof fn law_pass_lifts_ko(p: Pos, q: Pt)
    ensures
        play_code(pass_result(p), q) != ERR_KO,
{
}

/// The only point of a set with one element.
proof fn lemma_singleton(s: int, taken: Set<int>, i: int)
    requires
        0 <= s <= MAX,
        forall|j: int| taken.contains(j) <==> j == i,
    ensures
        taken.len() == 1,
        taken.choose() == i,
{
    assert(taken =~= Set::<int>::empty().insert(i));
    assert(taken.contains(i));
    assert(taken.contains(taken.choose()));
}

/// The simple ko rule at work: no legal move recreates the board as it was before
/// the move that it answers.
#[verifier::rlimit(40)]
pub proof fn law_no_immediate_repetition(p: Pos, q1: Pt, q2: Pt)
    requires
        pos_ok(p),
        play_code(p, q1) == OK,
        play_code(play_result(p, q1), q2) == OK,
    ensures
        play_result(play_result(p, q1), q2).board != p.board,
{
    let s = p.size;
    let c = p.turn;
    let b = p.board;
    let r = play_result(p, q1);
    let rb = r.board;
    let fb = play_result(r, q2).board;
    lemma_area(s);
    lemma_after_cells(s, b, q1, c);
    lemma_after_cells(s, rb, q2, foe(c));
    lemma_stone_stays(s, b, q1, c);
    lemma_stone_stays(s, rb, q2, foe(c));
    if fb == b {
        let b1 = put(s, b, q1, c);
        let rb1 = put(s, rb, q2, foe(c));
        let taken1 = captures(s, b, q1, c);
        assert(q1 != q2);
        // the first stone was captured by the answer, the answer refilled a capture
        assert(cell(s, fb, q1) == EMPTY);
        assert(dies(s, rb1, q2, foe(c), q1));
        assert(cell(s, b, q2) == foe(c));
        assert(dies(s, b1, q1, c, q2));
        // nothing else was captured by either move
        assert forall|t: Pt| dies(s, b1, q1, c, t) implies t == q2 by {
            assert(cell(s, rb, t) == EMPTY);
            assert(cell(s, b, t) == foe(c)) by {
                assert(cell(s, b1, t) == foe(c));
            }
            assert(cell(s, fb, t) == foe(c));
        }
        assert forall|t: Pt| dies(s, rb1, q2, foe(c), t) implies t == q1 by {
            assert(cell(s, rb1, t) == c);
            assert(cell(s, fb, t) == EMPTY);
            assert(cell(s, rb, t) == c);
            assert(cell(s, b, t) == EMPTY);
        }
        assert forall|j: int| taken1.contains(j) <==> j == idx(s, q2) by {
            if taken1.contains(j) {
                assert(pt(s, j) == q2);
                assert(idx(s, pt(s, j)) == j);
            }
            assert(pt(s, idx(s, q2)) == q2);
        }
        lemma_singleton(s, taken1, idx(s, q2));
        assert(r.ko == q2);
        // the first stone stands alone
        assert forall|t: Pt| connected(s, rb, q1, t) implies t == q1 by {
            lemma_connected_cell(s, rb, q1, t);
            let inside = |t: Pt| t == q1;
            assert forall|m: Pt, u: Pt| #[trigger] inside(m) && #[trigger] link(
                s,
                rb,
                m,
                u,
            ) implies inside(u) by {
                assert(cell(s, rb, u) == c);
                assert(u != q2);
                assert(cell(s, rb1, u) == c && cell(s, rb1, q1) == c);
                assert(link(s, rb1, q1, u));
                lemma_connected_refl(s, rb1, q1);
                lemma_connected_step(s, rb1, q1, q1, u);
                lemma_same_block(s, rb1, q1, u);
                let n = choose|n: Pt| #[trigger] connected(s, rb1, n, q1) && adj(q2, n);
                lemma_connected_step(s, rb1, n, q1, u);
                assert(dies(s, rb1, q2, foe(c), u));
            }
            lemma_closed(s, rb, q1, t, inside);
        }
        lemma_flood(s, rb, q1);
        let list = block(s, rb, q1);
        assert(list.len() == 1) by {
            if list.len() > 1 {
                assert(list.contains(list[0]) && list.contains(list[1]));
                assert(connected(s, rb, q1, list[0]) && connected(s, rb, q1, list[1]));
                assert(list[0] == q1 && list[1] == q1);
            }
        }
        // and its only liberty is the captured point
        let n = choose|n: Pt| #[trigger] connected(s, rb1, n, q1) && adj(q2, n);
        assert(n == q1) by {
            lemma_connected_cell(s, rb1, n, q1);
            lemma_same_block(s, rb1, n, q1);
            lemma_connected_refl(s, rb1, n);
            assert(dies(s, rb1, q2, foe(c), n));
        }
        assert forall|k: int| 0 <= k < 4 implies (inb(s, #[trigger] nb(q1, k)) && cell(
            s,
            rb,
            nb(q1, k),
        ) == EMPTY <==> nb(q1, k) == q2) by {
            let e = nb(q1, k);
            lemma_nb(s, q1, e);
            if inb(s, e) && cell(s, rb, e) == EMPTY && e != q2 {
                assert(cell(s, rb1, e) == EMPTY);
                lemma_connected_refl(s, rb1, q1);
                assert(is_liberty(s, rb1, q1, e));
            }
        }
        lemma_nb(s, q1, q2);
        reveal_with_fuel(empty_neighbours, 5);
        assert(nb(q1, 0) != nb(q1, 1) && nb(q1, 0) != nb(q1, 2) && nb(q1, 0) != nb(q1, 3));
        assert(nb(q1, 1) != nb(q1, 2) && nb(q1, 1) != nb(q1, 3) && nb(q1, 2) != nb(q1, 3));
        assert(empty_neighbours(s, rb, q1, 4) == 1);
        assert(r.ko_active);
        assert(false);
    }
}

/// In every game each chain on the board has a liberty.
pub proof fn law_no_chain_without_liberties(g: State)
    requires
        state_ok(g),
    ensures
        all_alive(g.pos.size, g.pos.board),
{
    reveal(traced);
    let line = choose|line: Seq<Pos>| line_ok(g.pos, g.hist, line);
    assert(sound(line[g.hist.len]));
}

/// A move, a pass or a set-up stone that is recorded is taken back exactly.
proof fn lemma_undo_recorded(g: State, rec: MoveRec)
    requires
        state_ok(g),
        rec_of(rec, g.pos),
    ensures
        undone(recorded_move(g, rec)).pos == g.pos,
        recorded_move(g, rec).hist.len == recorded_move(g, rec).hist.redo_top,
        recorded_move(g, rec).hist.len == if hist_full(
            g.hist,
            rec_taken(g.pos, rec).len() as int,
        ) {
            1
        } else {
            g.hist.len + 1
        },
{
    reveal(traced);
    let line = choose|line: Seq<Pos>| line_ok(g.pos, g.hist, line);
    let after = recorded_move(g, rec);
    let next = grown(g.pos, g.hist, line, rec);
    lemma_line_grows(g.pos, g.hist, line, rec);
    lemma_rec_result(g.pos, rec);
    lemma_line_back(after.pos, after.hist, next);
}

/// Taking back a move just played gives the position before it back: the stones, their
/// numbers, the turn, the counters, the last move and the ko. The move is one more on
/// record, or the only one where the history was full, and none can be made again.
pub proof fn law_undo_play(g: State, q: Pt)
    requires
        state_ok(g),
        play_code(g.pos, q) == OK,
        counters_fit(g.pos),
    ensures
        undone(played(g, q)).pos == g.pos,
        played(g, q).hist.redo_top == played(g, q).hist.len,
        played(g, q).hist.len == if hist_full(
            g.hist,
            captures(g.pos.size, g.pos.board, q, g.pos.turn).len() as int,
        ) {
            1
        } else {
            g.hist.len + 1
        },
{
    lemma_capture_list(g.pos, q, g.pos.turn);
    lemma_undo_recorded(g, play_record(g.pos, q));
}

/// Taking back a pass just made gives the position before it back.
pub proof fn law_undo_pass(g: State)
    requires
        state_ok(g),
        pass_fits(g.pos),
    ensures
        undone(passed(g)).pos == g.pos,
        passed(g).hist.redo_top == passed(g).hist.len,
        passed(g).hist.len == if hist_full(g.hist, 0) {
            1
        } else {
            g.hist.len + 1
        },
{
    lemma_undo_recorded(g, pass_record(g.pos));
}

/// Taking back a stone just set up gives the position before it back.
pub proof fn law_undo_place(g: State, q: Pt, c: u8)
    requires
        state_ok(g),
        place_code(g.pos, q, c as int) == OK,
        g.pos.move_count < i32::MAX,
    ensures
        undone(placed(g, q, c)).pos == g.pos,
        placed(g, q, c).hist.redo_top == placed(g, q, c).hist.len,
        placed(g, q, c).hist.len == if hist_full(
            g.hist,
            captures(g.pos.size, g.pos.board, q, c).len() as int,
        ) {
            1
        } else {
            g.hist.len + 1
        },
{
    lemma_capture_list(g.pos, q, c);
    lemma_undo_recorded(g, place_record(g.pos, q, c));
}

/// In every game with a move on record, taking the last one back and making it again
/// gives the state back: the position, the records and what can be made again. The count
/// of places for captured stones is back too, unless it was not where the move left it,
/// as after a full history has been dropped.
pub proof fn law_undo_then_redo(g: State)
    requires
        state_ok(g),
        g.hist.len > 0,
    ensures
        ({
            let again = redone(undone(g));
            let rec = g.hist.records[g.hist.len - 1];
            &&& again == (State { hist: Hist { cap_top: again.hist.cap_top, ..g.hist }, ..g })
            &&& g.hist.cap_top == rec.cap_start + rec.n_cap ==> again == g
        }),
{
    reveal(traced);
    let line = choose|line: Seq<Pos>| line_ok(g.pos, g.hist, line);
    let back = undone(g);
    lemma_line_back(g.pos, g.hist, line);
    lemma_undone_ok(g);
    lemma_line_on(back.pos, back.hist, line);
    let again = redone(back);
    assert(again =~= (State { hist: Hist { cap_top: again.hist.cap_top, ..g.hist }, ..g }));
}

/// In every game with a move that can be made again, making it and taking it back gives
/// the state back, the count of places for captured stones too where it stood as it did
/// before the move. One move less can be made again in between.
pub proof fn law_redo_then_undo(g: State)
    requires
        state_ok(g),
        g.hist.len < g.hist.redo_top,
    ensures
        ({
            let back = undone(redone(g));
            let rec = g.hist.records[g.hist.len];
            &&& back == (State { hist: Hist { cap_top: back.hist.cap_top, ..g.hist }, ..g })
            &&& g.hist.cap_top == rec.cap_start ==> back == g
        }),
        redone(g).hist.redo_top - redone(g).hist.len == g.hist.redo_top - g.hist.len - 1,
{
    reveal(traced);
    let line = choose|line: Seq<Pos>| line_ok(g.pos, g.hist, line);
    let on = redone(g);
    lemma_line_on(g.pos, g.hist, line);
    lemma_redone_ok(g);
    lemma_line_back(on.pos, on.hist, line);
    let back = undone(on);
    assert(back =~= (State { hist: Hist { cap_top: back.hist.cap_top, ..g.hist }, ..g }));
}

/// `line` holds the positions that the game `g` has gone through and those that it can go
/// on to.
pub open spec fn line_of(g: State, line: Seq<Pos>) -> bool {
    line_ok(g.pos, g.hist, line)
}

/// In every game, taking moves back walks back along the positions that it has gone
/// through: `k` moves taken back give the position `k` moves ago.
pub proof fn law_undo_walks_back(g: State, line: Seq<Pos>, k: nat)
    requires
        state_ok(g),
        line_of(g, line),
        k <= g.hist.len,
    ensures
        undone_by(g, k).pos == line[g.hist.len - k],
        line_of(undone_by(g, k), line),
        state_ok(undone_by(g, k)),
        undone_by(g, k).hist.len == g.hist.len - k,
        undone_by(g, k).hist.redo_top == g.hist.redo_top,
    decreases k,
{
    if k > 0 {
        let h = undone_by(g, (k - 1) as nat);
        law_undo_walks_back(g, line, (k - 1) as nat);
        lemma_line_back(h.pos, h.hist, line);
        lemma_undone_ok(h);
    }
}

/// The state after `k` recorded moves have been taken back.
pub open spec fn undone_by(g: State, k: nat) -> State
    decreases k,
{
    if k == 0 {
        g
    } else {
        undone(undone_by(g, (k - 1) as nat))
    }
}

/// In every game, making moves again walks on along the same positions: `k` moves made
/// again give the position `k` moves on.
pub proof fn law_redo_walks_on(g: State, line: Seq<Pos>, k: nat)
    requires
        state_ok(g),
        line_of(g, line),
        g.hist.len + k <= g.hist.redo_top,
    ensures
        redone_by(g, k).pos == line[g.hist.len + k],
        line_of(redone_by(g, k), line),
        state_ok(redone_by(g, k)),
        redone_by(g, k).hist.len == g.hist.len + k,
        redone_by(g, k).hist.redo_top == g.hist.redo_top,
    decreases k,
{
    if k > 0 {
        let h = redone_by(g, (k - 1) as nat);
        law_redo_walks_on(g, line, (k - 1) as nat);
        lemma_line_on(h.pos, h.hist, line);
        lemma_redone_ok(h);
    }
}

/// The state after `k` recorded moves have been made again.
pub open spec fn redone_by(g: State, k: nat) -> State
    decreases k,
{
    if k == 0 {
        g
    } else {
        redone(redone_by(g, (k - 1) as nat))
    }
}

/// Playing, passing and setting up a stone leave the positions that the game has gone
/// through as they were and add the new one. What could be made again is cut off; a full
/// history keeps the last move alone.
pub proof fn law_moves_grow_line(g: State, line: Seq<Pos>, q: Pt, c: u8)
    requires
        state_ok(g),
        line_of(g, line),
    ensures
        play_code(g.pos, q) == OK && counters_fit(g.pos) ==> line_of(
            played(g, q),
            grown(g.pos, g.hist, line, play_record(g.pos, q)),
        ),
        pass_fits(g.pos) ==> line_of(
            passed(g),
            grown(g.pos, g.hist, line, pass_record(g.pos)),
        ),
        place_code(g.pos, q, c as int) == OK && g.pos.move_count < i32::MAX ==> line_of(
            placed(g, q, c),
            grown(g.pos, g.hist, line, place_record(g.pos, q, c)),
        ),
{
    if play_code(g.pos, q) == OK && counters_fit(g.pos) {
        lemma_line_grows(g.pos, g.hist, line, play_record(g.pos, q));
    }
    if pass_fits(g.pos) {
        lemma_line_grows(g.pos, g.hist, line, pass_record(g.pos));
    }
    if place_code(g.pos, q, c as int) == OK && g.pos.move_count < i32::MAX {
        lemma_line_grows(g.pos, g.hist, line, place_record(g.pos, q, c));
    }
}

/// Every game has gone through some positions, from its start or from where its history
/// was last dropped.
pub proof fn law_game_has_line(g: State)
    requires
        state_ok(g),
    ensures
        exists|line: Seq<Pos>| line_of(g, line),
{
    reveal(traced);
    let line = choose|line: Seq<Pos>| line_ok(g.pos, g.hist, line);
    assert(line_of(g, line));
}

/// Returning to a snapshot restores the position and the history that were saved,
/// whatever happened to the game in between, and the snapshot is then used up.
pub proof fn law_snapshot_restores(g: State, later: State)
    requires
        later.snap == snapped(g).snap,
    ensures
        popped(later).pos == g.pos,
        popped(later).hist == g.hist,
        !popped(later).snap.saved,
{
}

} // verus!
