//! What playing, passing, setting up stones and scoring amount to on the board.

use crate::board::{
    adj, area, cell, diag, foe, group_points, idx, inb, lemma_area, nb, pos_ok, pt, Pos, Pt, BLACK,
    CELLS, EMPTY, MAX, OK, WHITE,
};
use crate::chain::{
    connected, has_contact, has_liberty, is_liberty, lemma_closed, lemma_connected_cell,
    lemma_connected_refl, lemma_connected_step, lemma_connected_sym, lemma_same_block, link,
};
use crate::count::{below, lemma_below_finite};
use crate::game::{
    board_lines, empty_position, passed, placed, played, popped, redone, snapped, state_ok, undone,
    State,
};
use crate::history::KIND_PASS;
use crate::liveness::{all_alive, lemma_after_cells, lemma_same_chain};
use crate::record::{pass_result, place_code, place_result};
use crate::rules::{
    board_after, captures, dies, lemma_capture_gives_liberty, lemma_capture_list, lemma_stone_stays,
    play_code, play_result, put,
};
use crate::score::{held, owned, scores, stones_of, territory_of, touches};

use vstd::prelude::*;

verus! {

broadcast use group_points;

/// The points of the board that hold `c`.
pub open spec fn points_with(p: Pos, c: u8) -> Set<int> {
    Set::new(|i: int| 0 <= i < p.size * p.size && p.board[i] == c)
}

/// Number of points of the board that hold `c`.
pub open spec fn number_of(p: Pos, c: u8) -> int {
    points_with(p, c).len() as int
}

proof fn lemma_points_with(p: Pos, c: u8)
    requires
        0 <= p.size <= MAX,
    ensures
        points_with(p, c).finite(),
        points_with(p, c) == below(area(p.size), |i: int| p.board[i] == c),
        0 <= number_of(p, c) <= area(p.size),
{
    lemma_area(p.size);
    reveal(area);
    lemma_below_finite(area(p.size), |i: int| p.board[i] == c);
    assert(points_with(p, c) =~= below(area(p.size), |i: int| p.board[i] == c));
}

/// A stone of colour `c` on the empty point `q` adds one to the stones of `c`, and the
/// stones of the other side lose those that are captured.
proof fn lemma_stones_counted(p: Pos, q: Pt, c: u8, after: Pos)
    requires
        pos_ok(p),
        inb(p.size, q),
        cell(p.size, p.board, q) == EMPTY,
        c == BLACK || c == WHITE,
        after.size == p.size,
        after.board == board_after(p.size, p.board, q, c),
    ensures
        number_of(after, c) == number_of(p, c) + 1,
        number_of(p, foe(c)) - number_of(after, foe(c)) == captures(
            p.size,
            p.board,
            q,
            c,
        ).len(),
{
    let s = p.size;
    let taken = captures(s, p.board, q, c);
    lemma_area(s);
    reveal(area);
    lemma_stone_stays(s, p.board, q, c);
    lemma_capture_list(p, q, c);
    lemma_points_with(p, c);
    lemma_points_with(p, foe(c));
    lemma_points_with(after, c);
    lemma_points_with(after, foe(c));
    assert forall|i: int| #[trigger] taken.contains(i) implies p.board[i] == foe(c) && i != idx(
        s,
        q,
    ) by {
        assert(idx(s, pt(s, i)) == i);
        assert(cell(s, put(s, p.board, q, c), pt(s, i)) == foe(c));
    }
    assert(points_with(after, c) =~= points_with(p, c).insert(idx(s, q)));
    assert(points_with(p, foe(c)) =~= points_with(after, foe(c)) + taken);
    vstd::set_lib::lemma_len_subset(taken, points_with(p, foe(c)));
    vstd::set_lib::lemma_set_disjoint_lens(points_with(after, foe(c)), taken);
}

/// A legal move adds one stone of the side that plays. The stones of the other side that
/// leave the board with it, and only those, are added to its prisoners; the prisoners of
/// the other side stay.
pub proof fn law_prisoners_left_the_board(p: Pos, q: Pt)
    requires
        pos_ok(p),
        play_code(p, q) == OK,
    ensures
        ({
            let r = play_result(p, q);
            let gone = number_of(p, foe(p.turn)) - number_of(r, foe(p.turn));
            &&& number_of(r, p.turn) == number_of(p, p.turn) + 1
            &&& gone >= 0
            &&& p.turn == 1 ==> r.captured_by_black == p.captured_by_black + gone
                && r.captured_by_white == p.captured_by_white
            &&& p.turn == 2 ==> r.captured_by_white == p.captured_by_white + gone
                && r.captured_by_black == p.captured_by_black
        }),
{
    lemma_stones_counted(p, q, p.turn, play_result(p, q));
}

/// A legal move puts a stone of the side to move on its point and changes no other point,
/// but that stones of the other side may leave the board. A stone keeps its number as long
/// as it stands; the new one has the number of the move. The other side is then to move,
/// one move more has been made, the new stone is the last move, and passes in a row are
/// forgotten.
pub proof fn law_move_changes_the_board(p: Pos, q: Pt, r: Pt)
    requires
        pos_ok(p),
        p.move_count < i32::MAX,
        play_code(p, q) == OK,
        inb(p.size, r),
    ensures
        ({
            let a = play_result(p, q);
            let i = r.1 * p.size + r.0;
            &&& r == q ==> p.board[i] == 0 && a.board[i] == p.turn && a.moveno[i] == p.move_count
                + 1
            &&& r != q && a.board[i] == p.board[i] ==> a.moveno[i] == p.moveno[i]
            &&& r != q && a.board[i] != p.board[i] ==> p.board[i] == 3 - p.turn && a.board[i] == 0
                && a.moveno[i] == 0
            &&& a.turn == 3 - p.turn
            &&& a.move_count == p.move_count + 1
            &&& a.last == q
            &&& a.pass_count == 0
            &&& a.size == p.size
        }),
{
    let s = p.size;
    let taken = captures(s, p.board, q, p.turn);
    lemma_area(s);
    lemma_stone_stays(s, p.board, q, p.turn);
    reveal(idx);
    let i = idx(s, r);
    assert(i == r.1 * s + r.0);
    assert(pt(s, i) == r && pt(s, idx(s, q)) == q);
    if r != q {
        assert(i != idx(s, q));
        if taken.contains(i) {
            assert(cell(s, put(s, p.board, q, p.turn), r) == foe(p.turn));
        }
    }
}

/// A move captures the chains of the other side that had their last liberty on its point,
/// and no other stone.
pub proof fn law_last_liberty_captures(p: Pos, q: Pt, r: Pt)
    requires
        pos_ok(p),
        all_alive(p.size, p.board),
        play_code(p, q) == OK,
        inb(p.size, r),
        cell(p.size, p.board, r) == foe(p.turn),
    ensures
        cell(p.size, play_result(p, q).board, r) == EMPTY <==> only_liberty(
            p.size,
            p.board,
            r,
            q,
        ),
{
    lemma_taken_chain(p.size, p.board, q, p.turn, r);
    lemma_after_cells(p.size, p.board, q, p.turn);
    assert(cell(p.size, play_result(p, q).board, r) == cell(
        p.size,
        board_after(p.size, p.board, q, p.turn),
        r,
    ));
}

/// The chain on `r` has no liberty but `q`.
pub open spec fn only_liberty(s: int, b: Seq<u8>, r: Pt, q: Pt) -> bool {
    forall|e: Pt| #[trigger] is_liberty(s, b, r, e) ==> e == q
}

proof fn lemma_taken_chain(s: int, b: Seq<u8>, q: Pt, c: u8, r: Pt)
    requires
        0 < s <= MAX,
        b.len() == CELLS,
        inb(s, q),
        cell(s, b, q) == EMPTY,
        c == BLACK || c == WHITE,
        all_alive(s, b),
        inb(s, r),
        cell(s, b, r) == foe(c),
    ensures
        dies(s, put(s, b, q, c), q, c, r) <==> only_liberty(s, b, r, q),
        only_liberty(s, b, r, q) ==> exists|n: Pt| #[trigger]
            connected(s, b, r, n) && adj(n, q),
{
    let b1 = put(s, b, q, c);
    lemma_after_cells(s, b, q, c);
    assert(cell(s, b1, r) == foe(c));
    if connected(s, b1, r, q) {
        lemma_connected_cell(s, b1, r, q);
    }
    lemma_same_chain(s, b, b1, foe(c), r, q);
    assert(has_liberty(s, b, r));
    let e0 = choose|e: Pt| is_liberty(s, b, r, e);
    if only_liberty(s, b, r, q) {
        assert(e0 == q);
        let m = choose|m: Pt| #[trigger] connected(s, b, r, m) && adj(m, q);
        assert(connected(s, b1, r, m));
        lemma_connected_sym(s, b1, r, m);
        assert(connected(s, b1, m, r) && adj(q, m));
        if has_liberty(s, b1, r) {
            let e = choose|e: Pt| is_liberty(s, b1, r, e);
            let t = choose|t: Pt| #[trigger] connected(s, b1, r, t) && adj(t, e);
            assert(connected(s, b, r, t));
            assert(cell(s, b1, e) == EMPTY);
            assert(cell(s, b, e) == EMPTY);
            assert(is_liberty(s, b, r, e));
        }
    } else {
        let e = choose|e: Pt| #[trigger] is_liberty(s, b, r, e) && e != q;
        let t = choose|t: Pt| #[trigger] connected(s, b, r, t) && adj(t, e);
        assert(connected(s, b1, r, t));
        assert(cell(s, b1, e) == EMPTY);
        assert(is_liberty(s, b1, r, e));
    }
}

/// A stone of colour `c` can live on the empty point `q`: a neighbour is empty, or belongs
/// to a chain of `c` with another liberty, or to a chain of the other side whose last
/// liberty is `q`.
pub open spec fn can_live(s: int, b: Seq<u8>, q: Pt, c: u8) -> bool {
    exists|n: Pt| #[trigger]
        adj(q, n) && inb(s, n) && {
            ||| cell(s, b, n) == EMPTY
            ||| cell(s, b, n) == c && !only_liberty(s, b, n, q)
            ||| cell(s, b, n) == foe(c) && only_liberty(s, b, n, q)
        }
}

/// Stones of colour `c` that were connected stay so after a move of `c`.
proof fn lemma_own_chain_grows(s: int, b: Seq<u8>, q: Pt, c: u8, n: Pt, m: Pt)
    requires
        0 < s <= MAX,
        b.len() == CELLS,
        inb(s, q),
        cell(s, b, q) == EMPTY,
        c == BLACK || c == WHITE,
        cell(s, b, n) == c,
        inb(s, n),
        adj(q, n),
        connected(s, b, n, m),
    ensures
        connected(s, board_after(s, b, q, c), q, m),
{
    let b2 = board_after(s, b, q, c);
    lemma_after_cells(s, b, q, c);
    lemma_stone_stays(s, b, q, c);
    let inside = |t: Pt| connected(s, b2, q, t) && inb(s, t) && cell(s, b, t) == c;
    lemma_connected_refl(s, b2, q);
    assert(cell(s, b2, n) == c);
    assert(link(s, b2, q, n));
    lemma_connected_step(s, b2, q, q, n);
    assert forall|x: Pt, t: Pt| #[trigger] inside(x) && #[trigger] link(s, b, x, t) implies inside(
        t,
    ) by {
        assert(cell(s, b2, x) == c && cell(s, b2, t) == c);
        assert(link(s, b2, x, t));
        lemma_connected_step(s, b2, q, x, t);
    }
    lemma_closed(s, b, n, m, inside);
}

/// The neighbour by which a stone joins the chain of a stone just set.
spec fn joins(s: int, b: Seq<u8>, q: Pt, c: u8, m: Pt) -> bool {
    exists|n: Pt| #[trigger] adj(q, n) && inb(s, n) && cell(s, b, n) == c && connected(s, b, n, m)
}

proof fn lemma_joined(s: int, b: Seq<u8>, q: Pt, c: u8, m: Pt)
    requires
        0 < s <= MAX,
        b.len() == CELLS,
        inb(s, q),
        cell(s, b, q) == EMPTY,
        c == BLACK || c == WHITE,
        connected(s, board_after(s, b, q, c), q, m),
        m != q,
    ensures
        joins(s, b, q, c, m),
{
    let b2 = board_after(s, b, q, c);
    lemma_after_cells(s, b, q, c);
    lemma_stone_stays(s, b, q, c);
    let inside = |t: Pt| t == q || (joins(s, b, q, c, t) && inb(s, t) && cell(s, b, t) == c);
    assert forall|x: Pt, t: Pt| #[trigger] inside(x) && #[trigger] link(s, b2, x, t) implies inside(
        t,
    ) by {
        if t != q {
            assert(cell(s, b2, t) == c);
            assert(cell(s, b, t) == c);
            if x == q {
                lemma_connected_refl(s, b, t);
                assert(adj(q, t));
            } else {
                let n = choose|n: Pt| #[trigger]
                    adj(q, n) && inb(s, n) && cell(s, b, n) == c && connected(s, b, n, x);
                assert(link(s, b, x, t));
                lemma_connected_step(s, b, n, x, t);
                assert(adj(q, n));
            }
        }
    }
    lemma_closed(s, b2, q, m, inside);
}

/// A point on which a stone has a liberty after its captures is one on which it can live.
proof fn lemma_can_live(s: int, b: Seq<u8>, q: Pt, c: u8)
    requires
        0 < s <= MAX,
        b.len() == CELLS,
        inb(s, q),
        cell(s, b, q) == EMPTY,
        c == BLACK || c == WHITE,
        all_alive(s, b),
    ensures
        has_liberty(s, board_after(s, b, q, c), q) <==> can_live(s, b, q, c),
{
    let b2 = board_after(s, b, q, c);
    lemma_after_cells(s, b, q, c);
    lemma_stone_stays(s, b, q, c);
    lemma_connected_refl(s, b2, q);
    lemma_area(s);
    if can_live(s, b, q, c) {
        let n = choose|n: Pt| #[trigger]
            adj(q, n) && inb(s, n) && {
                ||| cell(s, b, n) == EMPTY
                ||| cell(s, b, n) == c && !only_liberty(s, b, n, q)
                ||| cell(s, b, n) == foe(c) && only_liberty(s, b, n, q)
            };
        if cell(s, b, n) == EMPTY {
            assert(cell(s, b2, n) == EMPTY);
            assert(is_liberty(s, b2, q, n));
        } else if cell(s, b, n) == c {
            let e = choose|e: Pt| #[trigger] is_liberty(s, b, n, e) && e != q;
            let m = choose|m: Pt| #[trigger] connected(s, b, n, m) && adj(m, e);
            lemma_own_chain_grows(s, b, q, c, n, m);
            assert(cell(s, b2, e) == EMPTY);
            assert(is_liberty(s, b2, q, e));
        } else {
            lemma_taken_chain(s, b, q, c, n);
            assert(pt(s, idx(s, n)) == n);
            assert(captures(s, b, q, c).contains(idx(s, n)));
            lemma_capture_gives_liberty(s, b, q, c, idx(s, n));
        }
    }
    if has_liberty(s, b2, q) {
        let e = choose|e: Pt| is_liberty(s, b2, q, e);
        let m = choose|m: Pt| #[trigger] connected(s, b2, q, m) && adj(m, e);
        assert(cell(s, b2, e) == EMPTY);
        if cell(s, b, e) != EMPTY {
            assert(dies(s, put(s, b, q, c), q, c, e));
            assert(cell(s, put(s, b, q, c), e) == foe(c));
            assert(e != q);
            assert(cell(s, b, e) == foe(c));
            lemma_taken_chain(s, b, q, c, e);
            let n = choose|n: Pt| #[trigger] connected(s, b, e, n) && adj(n, q);
            lemma_connected_cell(s, b, e, n);
            lemma_same_block(s, b, e, n);
            assert forall|x: Pt| #[trigger] is_liberty(s, b, n, x) implies x == q by {
                let t = choose|t: Pt| #[trigger] connected(s, b, n, t) && adj(t, x);
                assert(connected(s, b, e, t));
                assert(is_liberty(s, b, e, x));
            }
            assert(adj(q, n));
        } else if m == q {
            assert(adj(q, e));
        } else {
            lemma_joined(s, b, q, c, m);
            let n = choose|n: Pt| #[trigger]
                adj(q, n) && inb(s, n) && cell(s, b, n) == c && connected(s, b, n, m);
            assert(e != q);
            assert(is_liberty(s, b, n, e));
            assert(adj(q, n));
        }
    }
}

/// How a move is answered: -2 off the board, -1 on a stone, -4 on the point that a ko bars,
/// -3 where the stone could not live, and 0 everywhere else.
pub proof fn law_answers_to_a_move(p: Pos, q: Pt)
    requires
        pos_ok(p),
        all_alive(p.size, p.board),
    ensures
        play_code(p, q) == (if !(0 <= q.0 < p.size && 0 <= q.1 < p.size) {
            -2int
        } else if p.board[q.1 * p.size + q.0] != 0 {
            -1
        } else if p.ko_active && p.ko == q {
            -4
        } else if !can_live(p.size, p.board, q, p.turn) {
            -3
        } else {
            0
        }),
{
    if inb(p.size, q) {
        reveal(idx);
        if cell(p.size, p.board, q) == EMPTY {
            lemma_can_live(p.size, p.board, q, p.turn);
        }
    }
}

/// A pass leaves the stones, their numbers and the prisoners, gives the turn to the other
/// side, counts as a move and as a pass, and lifts a ko.
pub proof fn law_pass_only_passes(p: Pos)
    ensures
        ({
            let a = pass_result(p);
            &&& a.board == p.board && a.moveno == p.moveno && a.size == p.size
            &&& a.captured_by_black == p.captured_by_black
            &&& a.captured_by_white == p.captured_by_white
            &&& p.turn == 1 ==> a.turn == 2
            &&& p.turn == 2 ==> a.turn == 1
            &&& a.move_count == p.move_count + 1
            &&& a.pass_count == p.pass_count + 1
            &&& a.last == (-1i32, -1i32)
            &&& !a.ko_active
        }),
{
}

/// A stone of either colour is set up where a move of that colour would be legal if no ko
/// were in force, and leaves the same stones on the board. Unlike a move it leaves the
/// turn, the prisoners and the passes in a row, and its number is negative.
pub proof fn law_set_up_is_a_move_out_of_turn(p: Pos, q: Pt, c: u8)
    requires
        pos_ok(p),
        p.move_count < i32::MAX,
        c == BLACK || c == WHITE,
    ensures
        ({
            let m = Pos { turn: c, ko_active: false, ..p };
            let a = place_result(p, q, c);
            let r = play_result(m, q);
            &&& place_code(p, q, c as int) == play_code(m, q)
            &&& place_code(p, q, c as int) == 0 ==> {
                &&& a.board == r.board
                &&& a.moveno[q.1 * p.size + q.0] == -(p.move_count + 1)
                &&& forall|i: int|
                    0 <= i < CELLS && i != q.1 * p.size + q.0 ==> #[trigger] a.moveno[i]
                        == r.moveno[i]
                &&& a.turn == p.turn && a.size == p.size
                &&& a.captured_by_black == p.captured_by_black
                &&& a.captured_by_white == p.captured_by_white
                &&& a.pass_count == p.pass_count
                &&& a.move_count == p.move_count + 1
                &&& a.last == q
                &&& !a.ko_active
            }
        }),
        forall|other: int| other != 1 && other != 2 ==> #[trigger] place_code(p, q, other) == -2,
{
    if inb(p.size, q) {
        reveal(idx);
        lemma_area(p.size);
    }
}

/// Playing, passing, setting up, taking back, making again and going back to a snapshot
/// touch nothing but the position and its record (and the snapshot that is used up); saving
/// a snapshot touches nothing else.
pub proof fn law_moves_leave_the_rest(g: State, q: Pt, c: u8)
    ensures
        forall|h: State|
            (h == played(g, q) || h == passed(g) || h == placed(g, q, c) || h == undone(g) || h
                == redone(g)) ==> (#[trigger] h.rule) == g.rule && h.snap == g.snap && h.analysis
                == g.analysis && h.ai == g.ai,
        popped(g).rule == g.rule,
        popped(g).analysis == g.analysis,
        popped(g).ai == g.ai,
        popped(g).pos == g.snap.pos,
        popped(g).hist == g.snap.hist,
        !popped(g).snap.saved,
        snapped(g) == (State { snap: snapped(g).snap, ..g }),
        snapped(g).snap.saved,
        snapped(g).snap.pos == g.pos,
        snapped(g).snap.hist == g.hist,
        played(g, q).pos == play_result(g.pos, q),
        passed(g).pos == pass_result(g.pos),
        placed(g, q, c).pos == place_result(g.pos, q, c),
{
}

/// The record grows by one with every move, pass and set-up stone while fewer than 1024 are
/// held and, with the stones captured, at most 3696 places for captured stones are taken;
/// else it starts anew with this one. What could be made again is forgotten either way.
pub proof fn law_record_holds_1024(g: State, q: Pt, c: u8)
    requires
        state_ok(g),
    ensures
        ({
            let n = number_of(g.pos, foe(g.pos.turn)) - number_of(
                play_result(g.pos, q),
                foe(g.pos.turn),
            );
            &&& play_code(g.pos, q) == 0 ==> played(g, q).hist.len == (if g.hist.len < 1024
                && g.hist.cap_top + n <= 3696 {
                g.hist.len + 1
            } else {
                1
            })
            &&& played(g, q).hist.redo_top == played(g, q).hist.len
            &&& play_code(g.pos, q) == 0 ==> played(g, q).hist.cap_top == (if g.hist.len < 1024
                && g.hist.cap_top + n <= 3696 {
                g.hist.cap_top + n
            } else {
                0
            })
            &&& play_code(g.pos, q) == 0 && g.hist.len < 1024 && g.hist.cap_top + n <= 3696 ==> {
                &&& undone(played(g, q)).hist.len == g.hist.len
                &&& undone(played(g, q)).hist.cap_top == g.hist.cap_top
                &&& undone(played(g, q)).hist.redo_top == g.hist.len + 1
            }
        }),
        passed(g).hist.len == (if g.hist.len < 1024 && g.hist.cap_top <= 3696 {
            g.hist.len + 1
        } else {
            1
        }),
        passed(g).hist.redo_top == passed(g).hist.len,
        ({
            let n = number_of(g.pos, foe(c)) - number_of(place_result(g.pos, q, c), foe(c));
            &&& place_code(g.pos, q, c as int) == 0 ==> placed(g, q, c).hist.len == (if g.hist.len
                < 1024 && g.hist.cap_top + n <= 3696 {
                g.hist.len + 1
            } else {
                1
            })
            &&& placed(g, q, c).hist.redo_top == placed(g, q, c).hist.len
        }),
{
    if place_code(g.pos, q, c as int) == OK {
        lemma_stones_counted(g.pos, q, c, place_result(g.pos, q, c));
        lemma_capture_list(g.pos, q, c);
    }
    if play_code(g.pos, q) == OK {
        lemma_stones_counted(g.pos, q, g.pos.turn, play_result(g.pos, q));
        lemma_capture_list(g.pos, q, g.pos.turn);
    }
}

/// A new game starts on an empty board with as many lines as asked for, at least 5 and at
/// most 19, with Black to move and nothing counted.
pub proof fn law_new_board_is_empty(n: int, ko: Pt, i: int)
    requires
        0 <= i < CELLS,
    ensures
        ({
            let p = empty_position(board_lines(n), ko);
            &&& 5 <= n <= 19 ==> p.size == n
            &&& n < 5 ==> p.size == 5
            &&& n > 19 ==> p.size == 19
            &&& p.board[i] == 0 && p.moveno[i] == 0
            &&& p.turn == 1 && p.move_count == 0 && p.pass_count == 0
            &&& p.captured_by_black == 0 && p.captured_by_white == 0
            &&& p.last == (-1i32, -1i32) && !p.ko_active
        }),
{
}

/// The region of empty points around `q` borders on a stone of colour `c`.
pub open spec fn borders(p: Pos, q: Pt, c: u8) -> bool {
    exists|r: Pt, e: Pt| #[trigger]
        connected(p.size, p.board, q, r) && #[trigger] adj(r, e) && inb(p.size, e)
            && p.board[e.1 * p.size + e.0] == c
}

/// The empty points whose region borders on stones of `c` and on none of the other side.
pub open spec fn territory_points(p: Pos, c: u8) -> Set<int> {
    Set::new(
        |i: int|
            0 <= i < p.size * p.size && p.board[i] == 0 && borders(p, pt(p.size, i), c)
                && !borders(p, pt(p.size, i), (3 - c) as u8),
    )
}

proof fn lemma_territory(p: Pos, c: u8)
    requires
        0 < p.size <= MAX,
        c == BLACK || c == WHITE,
    ensures
        territory_of(p.size, p.board, c) == territory_points(p, c).len(),
        stones_of(p.size, p.board, c) == number_of(p, c),
{
    let s = p.size;
    let b = p.board;
    lemma_area(s);
    reveal(area);
    assert forall|q: Pt, x: u8| #[trigger] borders(p, q, x) == touches(s, b, q, x) by {
        reveal(idx);
        if borders(p, q, x) {
            let (r, e) = choose|r: Pt, e: Pt| #[trigger]
                connected(p.size, p.board, q, r) && #[trigger] adj(r, e) && inb(p.size, e)
                    && p.board[e.1 * p.size + e.0] == x;
            assert(cell(s, b, e) == x);
        }
        if touches(s, b, q, x) {
            let (r, e) = choose|r: Pt, e: Pt| #[trigger]
                connected(s, b, q, r) && #[trigger] adj(r, e) && inb(s, e) && cell(s, b, e) == x;
            assert(p.board[e.1 * p.size + e.0] == x);
        }
    }
    assert(below(area(s), owned(s, b, c)) =~= territory_points(p, c)) by {
        assert forall|i: int|
            below(area(s), owned(s, b, c)).contains(i) <==> territory_points(p, c).contains(i) by {
            assert(borders(p, pt(s, i), c) == touches(s, b, pt(s, i), c));
            assert(borders(p, pt(s, i), (3 - c) as u8) == touches(s, b, pt(s, i), foe(c)));
        }
    }
    assert(below(area(s), held(b, c)) =~= points_with(p, c));
}

/// What a score is made of. Under Chinese rules a side has its stones and its territory,
/// and White 7 points of compensation; under any other its territory and its prisoners, and
/// White 6 points.
pub proof fn law_score_counts(p: Pos, rule: u8)
    requires
        0 < p.size <= MAX,
    ensures
        rule == 0 ==> scores(p, rule).0 == number_of(p, 1) + territory_points(p, 1).len(),
        rule == 0 ==> scores(p, rule).1 == number_of(p, 2) + territory_points(p, 2).len() + 7,
        rule != 0 ==> scores(p, rule).0 == p.captured_by_black + territory_points(p, 1).len(),
        rule != 0 ==> scores(p, rule).1 == p.captured_by_white + territory_points(p, 2).len() + 6,
{
    lemma_territory(p, BLACK);
    lemma_territory(p, WHITE);
}

/// One prisoner more is one point more under territory rules, however many there are, and
/// makes no difference under Chinese rules: scores of two positions with the same stones
/// differ by the difference of the prisoners, or not at all.
pub proof fn law_each_prisoner_is_a_point(p: Pos, r: Pos, rule: u8)
    requires
        p.size == r.size,
        p.board == r.board,
    ensures
        rule != 0 ==> scores(r, rule).0 - scores(p, rule).0 == r.captured_by_black
            - p.captured_by_black,
        rule != 0 ==> scores(r, rule).1 - scores(p, rule).1 == r.captured_by_white
            - p.captured_by_white,
        rule == 0 ==> scores(r, rule) == scores(p, rule),
{
}

/// Japanese and Korean rules, and all others but the Chinese, score alike.
pub proof fn law_territory_rules_agree(p: Pos, rule: u8, other: u8)
    requires
        rule != 0,
        other != 0,
    ensures
        scores(p, rule) == scores(p, other),
{
}

/// Under territory rules a move brings the side that makes it a point for each stone that
/// leaves the board, beside what its territory changes by.
pub proof fn law_capture_scores(p: Pos, q: Pt, rule: u8)
    requires
        pos_ok(p),
        play_code(p, q) == OK,
        rule != 0,
    ensures
        ({
            let r = play_result(p, q);
            let gone = number_of(p, foe(p.turn)) - number_of(r, foe(p.turn));
            let before = scores(p, rule);
            let after = scores(r, rule);
            &&& p.turn == 1 ==> after.0 - before.0 == gone + territory_points(r, 1).len()
                - territory_points(p, 1).len()
            &&& p.turn == 2 ==> after.1 - before.1 == gone + territory_points(r, 2).len()
                - territory_points(p, 2).len()
        }),
{
    law_prisoners_left_the_board(p, q);
    law_score_counts(p, rule);
    law_score_counts(play_result(p, q), rule);
}

/// One step along a line leads from one point of the board to another that holds the same.
pub open spec fn alike_beside(p: Pos, m: Pt, r: Pt) -> bool {
    &&& 0 <= m.0 < p.size && 0 <= m.1 < p.size && 0 <= r.0 < p.size && 0 <= r.1 < p.size
    &&& (m.0 == r.0 && (m.1 == r.1 - 1 || m.1 == r.1 + 1)) || (m.1 == r.1 && (m.0 == r.0 - 1
        || m.0 == r.0 + 1))
    &&& p.board[m.1 * p.size + m.0] == p.board[r.1 * p.size + r.0]
}

/// A chain or a region holds its own point and with every point the like ones beside it, and
/// nothing that a set with these two properties could do without.
pub proof fn law_chain_is_least_closed(p: Pos, q: Pt, m: Pt, r: Pt, inside: spec_fn(Pt) -> bool)
    requires
        0 < p.size <= MAX,
        inb(p.size, q),
    ensures
        connected(p.size, p.board, q, q),
        connected(p.size, p.board, q, m) && alike_beside(p, m, r) ==> connected(
            p.size,
            p.board,
            q,
            r,
        ),
        inside(q) && (forall|x: Pt, y: Pt| #[trigger]
            inside(x) && #[trigger] alike_beside(p, x, y) ==> inside(y)) && connected(
            p.size,
            p.board,
            q,
            r,
        ) ==> inside(r),
{
    let s = p.size;
    let b = p.board;
    reveal(idx);
    lemma_connected_refl(s, b, q);
    if connected(s, b, q, m) && alike_beside(p, m, r) {
        assert(link(s, b, m, r));
        lemma_connected_step(s, b, q, m, r);
    }
    if inside(q) && (forall|x: Pt, y: Pt| #[trigger]
        inside(x) && #[trigger] alike_beside(p, x, y) ==> inside(y)) && connected(s, b, q, r) {
        assert forall|x: Pt, y: Pt| #[trigger] inside(x) && #[trigger] link(
            s,
            b,
            x,
            y,
        ) implies inside(y) by {
            assert(alike_beside(p, x, y));
        }
        lemma_closed(s, b, q, r, inside);
    }
}

/// The point `e` is beside a stone of the chain on `q`.
pub open spec fn beside_chain(p: Pos, q: Pt, e: Pt) -> bool {
    exists|r: Pt| #[trigger]
        connected(p.size, p.board, q, r) && ((r.0 == e.0 && (r.1 == e.1 - 1 || r.1 == e.1 + 1)) || (
        r.1 == e.1 && (r.0 == e.0 - 1 || r.0 == e.0 + 1)))
}

/// The liberties of a chain are the empty points beside it. It is in contact where a stone of
/// another colour is beside it.
pub proof fn law_liberties_and_contact(p: Pos, q: Pt)
    requires
        0 < p.size <= MAX,
        inb(p.size, q),
    ensures
        forall|e: Pt| #[trigger]
            is_liberty(p.size, p.board, q, e) <==> 0 <= e.0 < p.size && 0 <= e.1 < p.size
                && p.board[e.1 * p.size + e.0] == 0 && beside_chain(p, q, e),
        has_contact(p.size, p.board, q) <==> exists|e: Pt| #[trigger]
            beside_chain(p, q, e) && 0 <= e.0 < p.size && 0 <= e.1 < p.size && p.board[e.1 * p.size
                + e.0] != 0 && p.board[e.1 * p.size + e.0] != p.board[q.1 * p.size + q.0],
{
    let s = p.size;
    let b = p.board;
    reveal(idx);
    assert forall|e: Pt| #[trigger] is_liberty(s, b, q, e) <==> 0 <= e.0 < s && 0 <= e.1 < s && b[e.1
        * s + e.0] == 0 && beside_chain(p, q, e) by {
        if is_liberty(s, b, q, e) {
            let r = choose|r: Pt| #[trigger] connected(s, b, q, r) && adj(r, e);
            assert(connected(s, b, q, r));
        }
        if beside_chain(p, q, e) {
            let r = choose|r: Pt| #[trigger]
                connected(s, b, q, r) && ((r.0 == e.0 && (r.1 == e.1 - 1 || r.1 == e.1 + 1)) || (
                r.1 == e.1 && (r.0 == e.0 - 1 || r.0 == e.0 + 1)));
            assert(connected(s, b, q, r) && adj(r, e));
        }
    }
    if has_contact(s, b, q) {
        let (r, e) = choose|r: Pt, e: Pt|
            #[trigger] connected(s, b, q, r) && #[trigger] adj(r, e) && inb(s, e) && cell(s, b, e)
                != EMPTY && cell(s, b, e) != cell(s, b, q);
        assert(connected(s, b, q, r));
        assert(beside_chain(p, q, e));
    }
    if exists|e: Pt| #[trigger]
        beside_chain(p, q, e) && 0 <= e.0 < s && 0 <= e.1 < s && b[e.1 * s + e.0] != 0 && b[e.1 * s
            + e.0] != b[q.1 * s + q.0] {
        let e = choose|e: Pt| #[trigger]
            beside_chain(p, q, e) && 0 <= e.0 < s && 0 <= e.1 < s && b[e.1 * s + e.0] != 0 && b[e.1
                * s + e.0] != b[q.1 * s + q.0];
        let r = choose|r: Pt| #[trigger]
            connected(s, b, q, r) && ((r.0 == e.0 && (r.1 == e.1 - 1 || r.1 == e.1 + 1)) || (r.1
                == e.1 && (r.0 == e.0 - 1 || r.0 == e.0 + 1)));
        assert(connected(s, b, q, r) && adj(r, e));
    }
}

/// Neighbours are looked at to the right, to the left, below and above, diagonal ones above
/// before below and on the left before the right.
pub proof fn law_order_of_neighbours(q: Pt)
    requires
        inb(MAX as int, q),
    ensures
        nb(q, 0).0 == q.0 + 1 && nb(q, 0).1 == q.1,
        nb(q, 1).0 == q.0 - 1 && nb(q, 1).1 == q.1,
        nb(q, 2).0 == q.0 && nb(q, 2).1 == q.1 + 1,
        nb(q, 3).0 == q.0 && nb(q, 3).1 == q.1 - 1,
        diag(q, 0).0 == q.0 - 1 && diag(q, 0).1 == q.1 - 1,
        diag(q, 1).0 == q.0 + 1 && diag(q, 1).1 == q.1 - 1,
        diag(q, 2).0 == q.0 - 1 && diag(q, 2).1 == q.1 + 1,
        diag(q, 3).0 == q.0 + 1 && diag(q, 3).1 == q.1 + 1,
{
}

/// Taking back goes one step back in the record and frees the places of the stones that were
/// captured; making again goes one step on and takes them anew, as far as the 4096 places
/// reach. Neither changes what is on record, nor how much can be made again in all.
pub proof fn law_record_goes_back_and_on(g: State)
    requires
        state_ok(g),
    ensures
        g.hist.len > 0 ==> {
            let h = undone(g).hist;
            let rec = g.hist.records[g.hist.len - 1];
            &&& h.len == g.hist.len - 1
            &&& h.redo_top == g.hist.redo_top
            &&& h.records == g.hist.records && h.caps == g.hist.caps
            &&& rec.n_cap == 0 ==> h.cap_top == g.hist.cap_top
            &&& rec.n_cap > 0 && rec.kind != KIND_PASS ==> h.cap_top == rec.cap_start
        },
        g.hist.len < g.hist.redo_top ==> {
            let h = redone(g).hist;
            let n = g.hist.caps[g.hist.len].len();
            &&& h.len == g.hist.len + 1
            &&& h.redo_top == g.hist.redo_top
            &&& h.records == g.hist.records && h.caps == g.hist.caps
            &&& h.cap_top == (if g.hist.cap_top + n < 4096 {
                g.hist.cap_top + n
            } else {
                4096
            })
        },
{
}

} // verus!
