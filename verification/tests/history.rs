//! Taking moves back, making them again, and snapshots.

use ugo::board::{ERR_KO, ERR_OFFBOARD, OK};
use ugo::game::{
    ugo_captured_black, ugo_captured_white, ugo_get, ugo_last_x, ugo_last_y, ugo_move_count,
    ugo_new, ugo_pass, ugo_pass_count, ugo_place, ugo_play, ugo_redo, ugo_redo_count,
    ugo_snapshot_pop, ugo_snapshot_push, ugo_turn, ugo_undo, Game,
};
use ugo::history::{History, CAP_MAX, CAP_RESERVE, MAX_HIST};

fn new_game(size: i32) -> Game {
    let mut g = Game::new();
    ugo_new(&mut g, size, 0);
    g
}

/// The whole position: stones, numbers, turn, counters, last move and ko.
fn position(g: &Game) -> (Vec<u8>, Vec<i32>, [i32; 5], [i32; 4], bool) {
    let p = &g.pos;
    (
        p.board.clone(),
        p.moveno.clone(),
        [
            ugo_turn(g),
            ugo_move_count(g),
            ugo_captured_black(g),
            ugo_captured_white(g),
            ugo_pass_count(g),
        ],
        [ugo_last_x(g), ugo_last_y(g), p.ko_x, p.ko_y],
        p.ko_active,
    )
}

#[test]
fn nothing_to_take_back_or_to_make_again() {
    let mut g = new_game(9);
    assert_eq!(ugo_undo(&mut g), ERR_OFFBOARD);
    assert_eq!(ugo_redo(&mut g), ERR_OFFBOARD);
    assert_eq!(ugo_redo_count(&g), 0);
}

#[test]
fn a_capture_is_taken_back_and_made_again() {
    let mut g = new_game(5);
    for (x, y) in [(1, 0), (0, 0), (0, 1)] {
        let before = position(&g);
        assert_eq!(ugo_play(&mut g, x, y), OK);
        let after = position(&g);
        assert_eq!(ugo_undo(&mut g), OK);
        assert_eq!(position(&g), before);
        assert_eq!(ugo_redo_count(&g), 1);
        assert_eq!(ugo_redo(&mut g), OK);
        assert_eq!(position(&g), after);
        assert_eq!((ugo_last_x(&g), ugo_last_y(&g)), (x, y));
    }
    assert_eq!(ugo_captured_black(&g), 1);
    assert_eq!(ugo_get(&g, 0, 0), 0);
    assert_eq!(ugo_undo(&mut g), OK);
    assert_eq!(ugo_get(&g, 0, 0), 2);
    assert_eq!(g.pos.moveno[0], 2);
}

#[test]
fn a_whole_game_is_taken_back_and_made_again() {
    let mut g = new_game(5);
    let mut seen = vec![position(&g)];
    let mut x: u32 = 5;
    while seen.len() < 60 {
        x = x.wrapping_mul(1664525).wrapping_add(1013904223);
        let r = ((x >> 16) % 27) as i32;
        let made = if r == 25 {
            ugo_pass(&mut g);
            true
        } else if r == 26 {
            ugo_place(&mut g, (x % 5) as i32, (x / 5 % 5) as i32, 2) == OK
        } else {
            ugo_play(&mut g, r % 5, r / 5) == OK
        };
        if made {
            seen.push(position(&g));
        }
    }
    for i in (0..seen.len() - 1).rev() {
        assert_eq!(ugo_undo(&mut g), OK);
        assert_eq!(position(&g), seen[i]);
    }
    assert_eq!(ugo_undo(&mut g), ERR_OFFBOARD);
    assert_eq!(ugo_redo_count(&g), seen.len() as i32 - 1);
    for s in &seen[1..] {
        assert_eq!(ugo_redo(&mut g), OK);
        assert_eq!(&position(&g), s);
    }
    assert_eq!(ugo_redo(&mut g), ERR_OFFBOARD);
}

#[test]
fn a_pass_is_taken_back_and_made_again() {
    let mut g = new_game(5);
    assert_eq!(ugo_play(&mut g, 2, 2), OK);
    ugo_pass(&mut g);
    assert_eq!(ugo_undo(&mut g), OK);
    assert_eq!((ugo_turn(&g), ugo_move_count(&g), ugo_pass_count(&g)), (2, 1, 0));
    assert_eq!((ugo_last_x(&g), ugo_last_y(&g)), (2, 2));
    assert_eq!(ugo_redo(&mut g), OK);
    assert_eq!((ugo_turn(&g), ugo_move_count(&g), ugo_pass_count(&g)), (1, 2, 1));
    assert_eq!((ugo_last_x(&g), ugo_last_y(&g)), (-1, -1));
}

#[test]
fn taking_a_move_back_gives_the_passes_before_it_back() {
    let mut g = new_game(9);
    ugo_pass(&mut g);
    assert_eq!(ugo_play(&mut g, 4, 4), OK);
    assert_eq!(ugo_pass_count(&g), 0);
    assert_eq!(ugo_undo(&mut g), OK);
    assert_eq!((ugo_pass_count(&g), ugo_turn(&g), ugo_move_count(&g)), (1, 2, 1));
    assert_eq!(ugo_get(&g, 4, 4), 0);
    assert_eq!(ugo_undo(&mut g), OK);
    assert_eq!(ugo_pass_count(&g), 0);
    assert_eq!(ugo_redo(&mut g), OK);
    assert_eq!(ugo_pass_count(&g), 1);
    assert_eq!(ugo_redo(&mut g), OK);
    assert_eq!((ugo_pass_count(&g), ugo_get(&g, 4, 4)), (0, 2));
}

#[test]
fn taking_a_set_up_stone_back_gives_the_last_move_back() {
    let mut g = new_game(9);
    assert_eq!(ugo_play(&mut g, 2, 2), OK);
    assert_eq!(ugo_place(&mut g, 4, 4, 2), OK);
    assert_eq!((ugo_last_x(&g), ugo_last_y(&g)), (4, 4));
    assert_eq!(ugo_undo(&mut g), OK);
    assert_eq!(ugo_get(&g, 4, 4), 0);
    assert_eq!((ugo_last_x(&g), ugo_last_y(&g)), (2, 2));
    assert_eq!((ugo_move_count(&g), ugo_turn(&g)), (1, 2));
}

#[test]
fn a_set_up_stone_is_taken_back_and_made_again() {
    let mut g = new_game(5);
    assert_eq!(ugo_play(&mut g, 1, 1), OK);
    assert_eq!(ugo_place(&mut g, 3, 3, 1), OK);
    let after = position(&g);
    assert_eq!(ugo_undo(&mut g), OK);
    assert_eq!(ugo_get(&g, 3, 3), 0);
    assert_eq!((ugo_turn(&g), ugo_move_count(&g)), (2, 1));
    assert_eq!((ugo_last_x(&g), ugo_last_y(&g)), (1, 1));
    assert_eq!(ugo_redo(&mut g), OK);
    assert_eq!(position(&g), after);
    assert_eq!(g.pos.moveno[18], -2);
}

#[test]
fn a_ko_comes_back_when_the_move_after_it_is_taken_back() {
    let mut g = new_game(5);
    for (x, y, c) in [(1, 0, 1), (2, 0, 2), (0, 1, 1), (3, 1, 2), (1, 2, 1), (2, 2, 2), (2, 1, 1)] {
        assert_eq!(ugo_place(&mut g, x, y, c), OK);
    }
    ugo_pass(&mut g);
    assert_eq!(ugo_play(&mut g, 1, 1), OK);
    assert!(g.pos.ko_active);
    assert_eq!(ugo_play(&mut g, 4, 4), OK);
    assert!(!g.pos.ko_active);
    assert_eq!(ugo_undo(&mut g), OK);
    assert!(g.pos.ko_active);
    assert_eq!((g.pos.ko_x, g.pos.ko_y), (2, 1));
    assert_eq!(ugo_undo(&mut g), OK);
    assert!(!g.pos.ko_active);
    assert_eq!(ugo_redo(&mut g), OK);
    assert!(g.pos.ko_active);
}

#[test]
fn a_ko_comes_back_when_a_set_up_stone_is_taken_back() {
    let mut g = new_game(5);
    for (x, y, c) in [(0, 0, 2), (2, 0, 2), (0, 1, 1), (1, 1, 2), (0, 2, 1)] {
        assert_eq!(ugo_place(&mut g, x, y, c), OK);
    }
    assert_eq!(ugo_play(&mut g, 1, 0), OK);
    assert_eq!(ugo_play(&mut g, 0, 0), ERR_KO);
    let before = position(&g);
    assert_eq!(ugo_place(&mut g, 4, 4, 1), OK);
    assert!(!g.pos.ko_active);
    assert_eq!(ugo_undo(&mut g), OK);
    assert_eq!(position(&g), before);
    assert_eq!(ugo_play(&mut g, 0, 0), ERR_KO);
}

#[test]
fn a_new_move_drops_what_was_taken_back() {
    let mut g = new_game(9);
    assert_eq!(ugo_play(&mut g, 1, 1), OK);
    assert_eq!(ugo_play(&mut g, 2, 2), OK);
    assert_eq!(ugo_undo(&mut g), OK);
    assert_eq!(ugo_redo_count(&g), 1);
    assert_eq!(ugo_play(&mut g, 3, 3), OK);
    assert_eq!(ugo_redo_count(&g), 0);
    assert_eq!(ugo_redo(&mut g), ERR_OFFBOARD);
}

#[test]
fn a_refused_move_keeps_what_was_taken_back() {
    let mut g = new_game(9);
    assert_eq!(ugo_play(&mut g, 1, 1), OK);
    assert_eq!(ugo_play(&mut g, 2, 2), OK);
    assert_eq!(ugo_undo(&mut g), OK);
    assert_ne!(ugo_play(&mut g, 1, 1), OK);
    assert_eq!(ugo_redo_count(&g), 1);
}

#[test]
fn a_full_history_is_dropped() {
    let mut g = new_game(9);
    for _ in 0..MAX_HIST {
        ugo_pass(&mut g);
    }
    assert_eq!(g.hist.len, 1024);
    ugo_pass(&mut g);
    assert_eq!(g.hist.len, 1);
    assert_eq!(ugo_undo(&mut g), OK);
    assert_eq!(ugo_undo(&mut g), ERR_OFFBOARD);
    assert_eq!(ugo_move_count(&g), 1024);
    assert_eq!(CAP_MAX, 4096);
    assert_eq!(CAP_RESERVE, 400);
}

#[test]
fn a_move_that_finds_the_history_full_can_be_taken_back() {
    let mut g = new_game(5);
    for (x, y, c) in [(0, 0, 2), (0, 1, 1), (4, 4, 2), (4, 3, 1)] {
        assert_eq!(ugo_place(&mut g, x, y, c), OK);
    }
    while g.hist.len < MAX_HIST {
        ugo_pass(&mut g);
    }
    assert_eq!(ugo_turn(&g), 1);
    let mut seen = vec![position(&g)];
    assert_eq!(ugo_play(&mut g, 1, 0), OK);
    assert_eq!((g.hist.len, g.hist.cap_top), (1, 0));
    seen.push(position(&g));
    ugo_pass(&mut g);
    seen.push(position(&g));
    assert_eq!(ugo_play(&mut g, 3, 4), OK);
    assert_eq!(ugo_captured_black(&g), 2);
    for p in seen.iter().rev() {
        assert_eq!(ugo_undo(&mut g), OK);
        assert_eq!(&position(&g), p);
    }
    assert_eq!(ugo_undo(&mut g), ERR_OFFBOARD);
    assert_eq!((ugo_get(&g, 0, 0), ugo_get(&g, 4, 4)), (2, 2));
}

fn captured(n: u16) -> Vec<(u16, i32)> {
    (0..n).map(|i| (i, 7)).collect()
}

#[test]
fn the_places_for_captured_stones_run_out() {
    let mut h = History::new();
    let rec = h.records[0];
    h.push_rec(rec, captured(3));
    assert_eq!((h.len, h.cap_top), (1, 3));
    assert_eq!((h.records[0].cap_start, h.records[0].n_cap), (0, 3));
    h.cap_top = CAP_MAX - CAP_RESERVE;
    h.push_rec(rec, captured(0));
    assert_eq!((h.len, h.cap_top), (2, 3696));
    // one more finds the history full; the count then starts anew
    h.push_rec(rec, captured(1));
    assert_eq!((h.len, h.redo_top, h.cap_top), (1, 1, 0));
    assert_eq!((h.records[0].cap_start, h.records[0].n_cap), (3696, 1));
    for _ in 0..10 {
        h.push_rec(rec, captured(361));
    }
    h.push_rec(rec, captured(86));
    assert_eq!((h.len, h.cap_top), (12, 3696));
    assert_eq!(h.caps[0], captured(1));
    assert_eq!(h.caps[10], captured(361));
    h.push_rec(rec, captured(1));
    assert_eq!((h.len, h.cap_top), (1, 0));
}

#[test]
fn places_are_counted_back_and_forth() {
    let mut g = new_game(5);
    for (x, y, c) in [(0, 0, 2), (0, 1, 1)] {
        assert_eq!(ugo_place(&mut g, x, y, c), OK);
    }
    assert_eq!(ugo_play(&mut g, 1, 0), OK);
    assert_eq!(g.hist.cap_top, 1);
    assert_eq!(ugo_undo(&mut g), OK);
    assert_eq!(g.hist.cap_top, 0);
    assert_eq!(ugo_redo(&mut g), OK);
    assert_eq!(g.hist.cap_top, 1);
    // a move without captures that finds the history full
    while g.hist.len < MAX_HIST {
        ugo_pass(&mut g);
    }
    assert_eq!(ugo_place(&mut g, 4, 4, 2), OK);
    assert_eq!((g.hist.len, g.hist.cap_top), (1, 0));
    assert_eq!(g.hist.records[0].cap_start, 1);
    assert_eq!(ugo_undo(&mut g), OK);
    assert_eq!((g.hist.len, g.hist.cap_top), (0, 0));
    assert_eq!(ugo_redo(&mut g), OK);
    assert_eq!((g.hist.len, g.hist.cap_top), (1, 0));
}

#[test]
fn moves_are_made_again_until_none_is_left() {
    let mut g = new_game(9);
    for i in 0..7 {
        assert_eq!(ugo_play(&mut g, i, i), OK);
    }
    for _ in 0..7 {
        assert_eq!(ugo_undo(&mut g), OK);
    }
    for left in (0..7).rev() {
        assert_eq!(ugo_redo(&mut g), OK);
        assert_eq!(ugo_redo_count(&g), left);
    }
    assert_eq!(ugo_redo(&mut g), ERR_OFFBOARD);
    assert_eq!(ugo_move_count(&g), 7);
}

#[test]
fn a_snapshot_restores_the_position() {
    let mut g = new_game(5);
    assert_eq!(ugo_snapshot_pop(&mut g), ERR_OFFBOARD);
    assert_eq!(ugo_play(&mut g, 1, 1), OK);
    assert_eq!(ugo_play(&mut g, 2, 2), OK);
    assert_eq!(ugo_undo(&mut g), OK);
    let before = position(&g);
    ugo_snapshot_push(&mut g);
    assert_eq!(ugo_place(&mut g, 4, 4, 1), OK);
    ugo_pass(&mut g);
    assert_eq!(ugo_play(&mut g, 0, 0), OK);
    assert_eq!(ugo_snapshot_pop(&mut g), OK);
    assert_eq!(position(&g), before);
    assert_eq!((ugo_last_x(&g), ugo_last_y(&g)), (1, 1));
    assert_eq!(ugo_redo_count(&g), 1);
    assert_eq!(ugo_snapshot_pop(&mut g), ERR_OFFBOARD);
}

#[test]
fn a_snapshot_restores_the_history() {
    let mut g = new_game(5);
    assert_eq!(ugo_play(&mut g, 1, 1), OK);
    assert_eq!(ugo_play(&mut g, 2, 2), OK);
    ugo_snapshot_push(&mut g);
    assert_eq!(ugo_undo(&mut g), OK);
    assert_eq!(ugo_undo(&mut g), OK);
    assert_eq!(ugo_play(&mut g, 4, 4), OK);
    assert_eq!(ugo_snapshot_pop(&mut g), OK);
    assert_eq!(ugo_get(&g, 4, 4), 0);
    assert_eq!(ugo_undo(&mut g), OK);
    assert_eq!((ugo_get(&g, 1, 1), ugo_get(&g, 2, 2)), (1, 0));
    assert_eq!(ugo_undo(&mut g), OK);
    assert_eq!((ugo_get(&g, 1, 1), ugo_get(&g, 2, 2)), (0, 0));
    assert_eq!(ugo_redo(&mut g), OK);
    assert_eq!(ugo_get(&g, 1, 1), 1);
}

#[test]
fn a_new_game_drops_history_and_snapshot() {
    let mut g = new_game(9);
    assert_eq!(ugo_play(&mut g, 1, 1), OK);
    ugo_snapshot_push(&mut g);
    ugo_new(&mut g, 7, 1);
    assert_eq!(ugo_undo(&mut g), ERR_OFFBOARD);
    assert_eq!(ugo_snapshot_pop(&mut g), ERR_OFFBOARD);
    assert_eq!(ugo_move_count(&g), 0);
}
