//! What the records of a game stand for: the position before each move and the position
//! that it leads to.

use crate::board::{
    cell, foe, group_points, idx, inb, lemma_area, pos_ok, Pos, Pt, BLACK, CELLS, EMPTY,
    ERR_OCCUPIED, ERR_OFFBOARD, ERR_SUICIDE, OK, WHITE,
};
use crate::chain::has_liberty;
use crate::history::{
    caps_on, capturing, entered, hist_full, hist_ok, lemma_entered_ok, places, rec_ok, Hist,
    MoveRec, KIND_PASS, KIND_PLACE, KIND_PLAY,
};
use crate::liveness::{all_alive, law_play_keeps_all_alive, law_stones_stay_alive};
use crate::rules::{
    board_after, capture_list, counters_fit, lemma_capture_list, lemma_stone_stays,
    lemma_stone_unset, play_code, play_result, stone_set, stone_unset,
};
use vstd::prelude::*;

verus! {

broadcast use group_points;

/// Coordinate of a move that is on no point.
pub const NOWHERE: i32 = -1;

/// The position after the side to move has passed.
pub open spec fn pass_result(p: Pos) -> Pos {
    Pos {
        pass_count: p.pass_count + 1,
        ko_active: false,
        last: (NOWHERE, NOWHERE),
        move_count: p.move_count + 1,
        turn: foe(p.turn),
        ..p
    }
}

/// Record of a pass in `p`.
pub open spec fn pass_record(p: Pos) -> MoveRec {
    MoveRec {
        kind: KIND_PASS,
        x: NOWHERE,
        y: NOWHERE,
        color: 0,
        cap_start: 0,
        n_cap: 0,
        prev_turn: p.turn,
        prev_move_count: p.move_count as i32,
        prev_last_x: p.last.0,
        prev_last_y: p.last.1,
        prev_ko_active: p.ko_active,
        prev_ko_x: p.ko.0,
        prev_ko_y: p.ko.1,
        prev_cap_b: p.captured_by_black as i32,
        prev_cap_w: p.captured_by_white as i32,
        prev_pass: p.pass_count as i32,
        prev_moveno: 0,
    }
}

/// The counters have room for one more pass.
pub open spec fn pass_fits(p: Pos) -> bool {
    p.move_count < i32::MAX && p.pass_count < i32::MAX
}

/// The position after a stone of colour `c` has been set up on `q`.
pub open spec fn place_result(p: Pos, q: Pt, c: u8) -> Pos {
    let after = stone_set(p, q, c);
    Pos {
        moveno: after.moveno.update(idx(p.size, q), (-(p.move_count + 1)) as i32),
        move_count: p.move_count + 1,
        ko_active: false,
        last: q,
        ..after
    }
}

/// Code with which setting up a stone is answered.
pub open spec fn place_code(p: Pos, q: Pt, color: int) -> i32 {
    if !inb(p.size, q) || (color != BLACK && color != WHITE) {
        ERR_OFFBOARD
    } else if cell(p.size, p.board, q) != EMPTY {
        ERR_OCCUPIED
    } else if !has_liberty(p.size, board_after(p.size, p.board, q, color as u8), q) {
        ERR_SUICIDE
    } else {
        OK
    }
}

/// Record of a stone of colour `c` set up on `q` in `p`, but for the stones that it
/// captures.
pub open spec fn place_record(p: Pos, q: Pt, c: u8) -> MoveRec {
    MoveRec {
        kind: KIND_PLACE,
        x: q.0,
        y: q.1,
        color: c,
        cap_start: 0,
        n_cap: 0,
        prev_turn: p.turn,
        prev_move_count: p.move_count as i32,
        prev_last_x: p.last.0,
        prev_last_y: p.last.1,
        prev_ko_active: p.ko_active,
        prev_ko_x: p.ko.0,
        prev_ko_y: p.ko.1,
        prev_cap_b: p.captured_by_black as i32,
        prev_cap_w: p.captured_by_white as i32,
        prev_pass: p.pass_count as i32,
        prev_moveno: p.moveno[idx(p.size, q)],
    }
}

/// Record of a move on `q` in `p`, but for the stones that it captures.
pub open spec fn play_record(p: Pos, q: Pt) -> MoveRec {
    MoveRec {
        kind: KIND_PLAY,
        x: q.0,
        y: q.1,
        color: p.turn,
        cap_start: 0,
        n_cap: 0,
        prev_turn: p.turn,
        prev_move_count: p.move_count as i32,
        prev_last_x: p.last.0,
        prev_last_y: p.last.1,
        prev_ko_active: p.ko_active,
        prev_ko_x: p.ko.0,
        prev_ko_y: p.ko.1,
        prev_cap_b: p.captured_by_black as i32,
        prev_cap_w: p.captured_by_white as i32,
        prev_pass: p.pass_count as i32,
        prev_moveno: 0,
    }
}

/// The position after the move of `rec` has been taken back; `caps` are the stones
/// that it captured.
pub open spec fn unplayed(p: Pos, rec: MoveRec, caps: Seq<(u16, i32)>) -> Pos {
    let back = if rec.kind != KIND_PASS {
        stone_unset(p, (rec.x, rec.y), caps, foe(rec.color))
    } else {
        p
    };
    Pos {
        size: p.size,
        board: back.board,
        moveno: back.moveno,
        turn: rec.prev_turn,
        move_count: rec.prev_move_count as int,
        last: (rec.prev_last_x, rec.prev_last_y),
        ko_active: rec.prev_ko_active,
        ko: (rec.prev_ko_x, rec.prev_ko_y),
        captured_by_black: rec.prev_cap_b as int,
        captured_by_white: rec.prev_cap_w as int,
        pass_count: rec.prev_pass as int,
    }
}

/// The stones that the move of `rec` captures in `p`.
pub open spec fn rec_taken(p: Pos, rec: MoveRec) -> Seq<(u16, i32)> {
    if rec.kind == KIND_PASS {
        seq![]
    } else {
        capture_list(p, (rec.x, rec.y), rec.color)
    }
}

/// The position that the move of `rec` leads to from `p`.
pub open spec fn rec_result(p: Pos, rec: MoveRec) -> Pos {
    if rec.kind == KIND_PLAY {
        play_result(p, (rec.x, rec.y))
    } else if rec.kind == KIND_PASS {
        pass_result(p)
    } else {
        place_result(p, (rec.x, rec.y), rec.color)
    }
}

/// The record stands for a move, a pass or a set-up stone that is legal in `p` and for
/// which the counters have room, and keeps what is needed to come back to `p`.
pub open spec fn rec_of(rec: MoveRec, p: Pos) -> bool {
    let q: Pt = (rec.x, rec.y);
    if rec.kind == KIND_PLAY {
        &&& play_code(p, q) == OK
        &&& counters_fit(p)
        &&& capturing(rec, 0, 0) == play_record(p, q)
    } else if rec.kind == KIND_PASS {
        &&& pass_fits(p)
        &&& capturing(rec, 0, 0) == pass_record(p)
    } else {
        &&& place_code(p, q, rec.color as int) == OK
        &&& p.move_count < i32::MAX
        &&& capturing(rec, 0, 0) == place_record(p, q, rec.color)
    }
}

/// The position is one that play can reach: each chain on it has a liberty.
pub open spec fn sound(p: Pos) -> bool {
    pos_ok(p) && all_alive(p.size, p.board)
}

/// The positions of `line` are those that the game has gone through: one before each
/// recorded move, those that can be made again among them, and one after the last. The
/// game stands at `p`, and each recorded move has the stones that it captured beside it.
pub open spec fn line_ok(p: Pos, h: Hist, line: Seq<Pos>) -> bool {
    &&& line.len() == h.redo_top + 1
    &&& line[h.len] == p
    &&& forall|i: int|
        0 <= i <= h.redo_top ==> sound(#[trigger] line[i]) && line[i].size == p.size
    &&& forall|i: int|
        0 <= i < h.redo_top ==> {
            &&& rec_of(#[trigger] h.records[i], line[i])
            &&& line[i + 1] == rec_result(line[i], h.records[i])
            &&& h.caps[i] == rec_taken(line[i], h.records[i])
            &&& h.records[i].n_cap == places(
                h.records[i].cap_start as int,
                h.caps[i].len() as int,
            )
        }
}

/// The history records how the game came to `p`, and what can be made again from there.
#[verifier::opaque]
pub open spec fn traced(p: Pos, h: Hist) -> bool {
    exists|line: Seq<Pos>| line_ok(p, h, line)
}

/// The line of a game with a history that is empty.
pub proof fn lemma_traced_start(p: Pos, h: Hist)
    requires
        sound(p),
        h.len == 0,
        h.redo_top == 0,
    ensures
        line_ok(p, h, seq![p]),
        traced(p, h),
{
    reveal(traced);
    assert(line_ok(p, h, seq![p]));
}

/// A recorded move leads to a position that play can reach.
pub proof fn lemma_rec_result(p: Pos, rec: MoveRec)
    requires
        sound(p),
        rec_of(rec, p),
    ensures
        sound(rec_result(p, rec)),
        rec_result(p, rec).size == p.size,
        rec_taken(p, rec).len() <= CELLS,
        caps_on(rec_taken(p, rec), p.size),
        rec_ok(capturing(rec, 0, 0), p.size),
{
    let q: Pt = (rec.x, rec.y);
    lemma_area(p.size);
    if rec.kind != KIND_PASS {
        lemma_capture_list(p, q, rec.color);
        lemma_stone_stays(p.size, p.board, q, rec.color);
        let after = rec_result(p, rec);
        assert(after.board == board_after(p.size, p.board, q, rec.color));
        if rec.kind == KIND_PLAY {
            law_play_keeps_all_alive(p, q);
        } else {
            law_stones_stay_alive(p.size, p.board, q, rec.color);
        }
    }
}

/// Taking back the move of `rec` gives the position in which it was made.
pub proof fn lemma_unplayed(p: Pos, rec: MoveRec)
    requires
        pos_ok(p),
        rec_of(rec, p),
    ensures
        unplayed(rec_result(p, rec), rec, rec_taken(p, rec)) == p,
{
    let q: Pt = (rec.x, rec.y);
    let caps = rec_taken(p, rec);
    if rec.kind != KIND_PASS {
        lemma_capture_list(p, q, rec.color);
        let no = if rec.kind == KIND_PLAY {
            (p.move_count + 1) as i32
        } else {
            (-(p.move_count + 1)) as i32
        };
        lemma_stone_unset(p, q, rec.color, caps, no);
    }
    assert(unplayed(rec_result(p, rec), rec, caps) =~= p);
}

/// The line of a game with one more move recorded: what could be made again is cut off,
/// and a full history keeps the last move alone.
pub open spec fn grown(p: Pos, h: Hist, line: Seq<Pos>, rec: MoveRec) -> Seq<Pos> {
    if hist_full(h, rec_taken(p, rec).len() as int) {
        seq![p, rec_result(p, rec)]
    } else {
        line.take(h.len + 1).push(rec_result(p, rec))
    }
}

/// Recording a move continues the line of the game.
pub proof fn lemma_line_grows(p: Pos, h: Hist, line: Seq<Pos>, rec: MoveRec)
    requires
        hist_ok(h, p.size),
        line_ok(p, h, line),
        rec_of(rec, p),
    ensures
        ({
            let n = entered(h, rec, rec_taken(p, rec));
            &&& hist_ok(n, p.size)
            &&& line_ok(rec_result(p, rec), n, grown(p, h, line, rec))
        }),
{
    let caps = rec_taken(p, rec);
    let n = entered(h, rec, caps);
    let at = n.len - 1;
    let next = rec_result(p, rec);
    let l = grown(p, h, line, rec);
    assert(sound(line[h.len]));
    lemma_rec_result(p, rec);
    lemma_entered_ok(h, rec, caps, p.size);
    let full = capturing(rec, h.cap_top, places(h.cap_top, caps.len() as int));
    assert(n.records[at] == full && n.caps[at] == caps);
    assert(rec_of(full, p) && rec_result(p, full) == next && rec_taken(p, full) == caps);
    assert(l[at] == p && l[at + 1] == next);
    assert forall|i: int| 0 <= i < n.redo_top implies {
        &&& rec_of(#[trigger] n.records[i], l[i])
        &&& l[i + 1] == rec_result(l[i], n.records[i])
        &&& n.caps[i] == rec_taken(l[i], n.records[i])
        &&& n.records[i].n_cap == places(n.records[i].cap_start as int, n.caps[i].len() as int)
    } by {
        if i < at {
            assert(n.records[i] == h.records[i] && n.caps[i] == h.caps[i]);
            assert(l[i] == line[i] && l[i + 1] == line[i + 1]);
        }
    }
}

/// The history after the last recorded move has been taken back.
pub open spec fn stepped_back(h: Hist) -> Hist {
    let rec = h.records[h.len - 1];
    Hist {
        len: h.len - 1,
        cap_top: if rec.kind != KIND_PASS && rec.n_cap > 0 {
            rec.cap_start as int
        } else {
            h.cap_top
        },
        ..h
    }
}

/// Taking back the last recorded move goes one step back along the line of the game.
pub proof fn lemma_line_back(p: Pos, h: Hist, line: Seq<Pos>)
    requires
        hist_ok(h, p.size),
        line_ok(p, h, line),
        h.len > 0,
    ensures
        ({
            let back = unplayed(p, h.records[h.len - 1], h.caps[h.len - 1]);
            &&& back == line[h.len - 1]
            &&& line_ok(back, stepped_back(h), line)
        }),
{
    let rec = h.records[h.len - 1];
    let before = line[h.len - 1];
    assert(sound(before));
    lemma_unplayed(before, rec);
}

/// The history after the next recorded move has been made again.
pub open spec fn stepped_on(h: Hist) -> Hist {
    Hist {
        len: h.len + 1,
        cap_top: h.cap_top + places(h.cap_top, h.caps[h.len].len() as int),
        ..h
    }
}

/// Making the next recorded move again goes one step on along the line of the game.
pub proof fn lemma_line_on(p: Pos, h: Hist, line: Seq<Pos>)
    requires
        hist_ok(h, p.size),
        line_ok(p, h, line),
        h.len < h.redo_top,
    ensures
        ({
            let rec = h.records[h.len];
            &&& rec_of(rec, p)
            &&& sound(p)
            &&& rec_taken(p, rec) == h.caps[h.len]
            &&& rec_result(p, rec) == line[h.len + 1]
            &&& hist_ok(stepped_on(h), p.size)
            &&& line_ok(rec_result(p, rec), stepped_on(h), line)
        }),
{
    assert(sound(line[h.len]));
    assert(h.records[h.len] == h.records[h.len]);
    assert(line[h.len + 1].size == p.size);
}

} // verus!
