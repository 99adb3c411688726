//! The rules of play: answers, captures, ko, passes and set-up stones.

use ugo::board::{
    diagonal, in_board, index_of, neighbour, opponent, point_of, BLACK, EMPTY, ERR_KO,
    ERR_OCCUPIED, ERR_OFFBOARD, ERR_SUICIDE, OK, WHITE,
};
use ugo::chain::{count_friendly_diagonals, group_info, is_eye_for, Filler};
use ugo::game::{
    ugo_board_ptr, ugo_captured_black, ugo_captured_white, ugo_get, ugo_last_x, ugo_last_y,
    ugo_move_count, ugo_moveno_ptr, ugo_new, ugo_pass, ugo_pass_count, ugo_place, ugo_play,
    ugo_set_rule, ugo_turn, Game,
};
use ugo::rules::{block_has_liberty, try_play, untry_play};

fn new_game(size: i32) -> Game {
    let mut g = Game::new();
    ugo_new(&mut g, size, 0);
    g
}

/// A game with the given stones set up, '#' for Black and 'o' for White.
fn set_up(rows: &[&str]) -> Game {
    let mut g = new_game(rows.len() as i32);
    for (y, row) in rows.iter().enumerate() {
        for (x, c) in row.chars().enumerate() {
            let color = match c {
                '#' => 1,
                'o' => 2,
                _ => continue,
            };
            assert_eq!(ugo_place(&mut g, x as i32, y as i32, color), OK);
        }
    }
    g
}

fn rows(g: &Game) -> Vec<String> {
    let n = g.pos.size;
    let mut out: Vec<String> = Vec::new();
    for y in 0..n {
        let mut row = String::new();
        for x in 0..n {
            row.push(match ugo_get(g, x as i32, y as i32) {
                1 => '#',
                2 => 'o',
                _ => '.',
            });
        }
        out.push(row);
    }
    out
}

/// Every chain on the board has a liberty.
fn all_alive(g: &Game) -> bool {
    let n = g.pos.size as i32;
    (0..n).all(|y| {
        (0..n).all(|x| ugo_get(g, x, y) == 0 || block_has_liberty(&g.pos, x, y))
    })
}

#[test]
fn a_new_engine_has_an_empty_large_board() {
    let g = Game::new();
    assert_eq!(g.pos.size, 19);
    assert_eq!(ugo_turn(&g), 1);
    assert_eq!(ugo_move_count(&g), 0);
    assert_eq!((ugo_last_x(&g), ugo_last_y(&g)), (-1, -1));
    assert!(ugo_board_ptr(&g).iter().all(|v| *v == EMPTY));
    assert!(ugo_moveno_ptr(&g).iter().all(|v| *v == 0));
    assert_eq!(ugo_board_ptr(&g).len(), 361);
}

#[test]
fn board_sizes_are_held_to_their_range() {
    assert_eq!(new_game(-3).pos.size, 5);
    assert_eq!(new_game(4).pos.size, 5);
    assert_eq!(new_game(13).pos.size, 13);
    assert_eq!(new_game(20).pos.size, 19);
}

#[test]
fn points_and_indices() {
    assert_eq!(index_of(9, 4, 2), 22);
    assert_eq!(point_of(9, 22), (4, 2));
    assert_eq!(neighbour(3, 3, 0), (4, 3));
    assert_eq!(neighbour(3, 3, 1), (2, 3));
    assert_eq!(neighbour(3, 3, 2), (3, 4));
    assert_eq!(neighbour(3, 3, 3), (3, 2));
    assert_eq!(diagonal(3, 3, 0), (2, 2));
    assert_eq!(diagonal(3, 3, 3), (4, 4));
    assert_eq!(opponent(BLACK), WHITE);
    assert_eq!(opponent(WHITE), BLACK);
    let g = new_game(5);
    assert!(in_board(&g.pos, 4, 0));
    assert!(!in_board(&g.pos, 5, 0));
    assert!(!in_board(&g.pos, 0, -1));
}

#[test]
fn a_move_is_numbered_and_passes_the_turn() {
    let mut g = new_game(9);
    assert_eq!(ugo_play(&mut g, 2, 3), OK);
    assert_eq!(ugo_get(&g, 2, 3), 1);
    assert_eq!(ugo_turn(&g), 2);
    assert_eq!(ugo_move_count(&g), 1);
    assert_eq!((ugo_last_x(&g), ugo_last_y(&g)), (2, 3));
    assert_eq!(ugo_moveno_ptr(&g)[3 * 9 + 2], 1);
    assert_eq!(ugo_play(&mut g, 6, 6), OK);
    assert_eq!(ugo_get(&g, 6, 6), 2);
    assert_eq!(ugo_moveno_ptr(&g)[6 * 9 + 6], 2);
}

#[test]
fn off_the_board() {
    let mut g = new_game(9);
    assert_eq!(ugo_play(&mut g, 9, 0), ERR_OFFBOARD);
    assert_eq!(ugo_play(&mut g, 0, -1), ERR_OFFBOARD);
    assert_eq!(ugo_get(&g, 9, 0), ERR_OFFBOARD);
    assert_eq!(ugo_move_count(&g), 0);
}

#[test]
fn occupied_points_are_refused() {
    let mut g = new_game(9);
    assert_eq!(ugo_play(&mut g, 4, 4), OK);
    assert_eq!(ugo_play(&mut g, 4, 4), ERR_OCCUPIED);
    assert_eq!(ugo_turn(&g), 2);
}

#[test]
fn suicide_is_refused_and_changes_nothing() {
    let mut g = set_up(&[".o...", "o....", ".....", ".....", "....."]);
    assert_eq!(ugo_turn(&g), 1);
    assert_eq!(ugo_play(&mut g, 0, 0), ERR_SUICIDE);
    assert_eq!(rows(&g), [".o...", "o....", ".....", ".....", "....."]);
    assert_eq!(ugo_turn(&g), 1);
    assert_eq!(ugo_move_count(&g), 2);
}

#[test]
fn suicide_of_a_chain_is_refused() {
    let mut g = set_up(&["#.o..", "oo...", ".....", ".....", "....."]);
    assert_eq!(ugo_play(&mut g, 1, 0), ERR_SUICIDE);
}

#[test]
fn filling_the_last_liberty_is_legal_when_it_captures() {
    let mut g = set_up(&[".o#..", "o#...", "#....", ".....", "....."]);
    assert_eq!(ugo_play(&mut g, 0, 0), OK);
    assert_eq!(rows(&g), ["#.#..", ".#...", "#....", ".....", "....."]);
    assert_eq!(ugo_captured_black(&g), 2);
    assert!(all_alive(&g));
}

#[test]
fn a_chain_is_captured_whole() {
    let mut g = set_up(&["ooo..", "###..", ".....", ".....", "....."]);
    assert_eq!(ugo_play(&mut g, 3, 0), OK);
    assert_eq!(rows(&g), ["...#.", "###..", ".....", ".....", "....."]);
    assert_eq!(ugo_captured_black(&g), 3);
    assert_eq!(ugo_captured_white(&g), 0);
    assert_eq!(ugo_moveno_ptr(&g)[0], 0);
    assert!(!g.pos.ko_active);
}

#[test]
fn ko_bars_the_recapture_until_a_move_elsewhere() {
    let mut g = set_up(&[".#o..", "#.#o.", ".#o..", ".....", "....."]);
    // White takes first, on the point between its stones
    ugo_pass(&mut g);
    assert_eq!(ugo_turn(&g), 2);
    assert_eq!(ugo_play(&mut g, 1, 1), OK);
    assert_eq!(ugo_captured_white(&g), 1);
    assert!(g.pos.ko_active);
    assert_eq!((g.pos.ko_x, g.pos.ko_y), (2, 1));
    assert_eq!(ugo_play(&mut g, 2, 1), ERR_KO);
    assert_eq!(ugo_play(&mut g, 4, 4), OK);
    assert_eq!(ugo_play(&mut g, 0, 4), OK);
    assert_eq!(ugo_play(&mut g, 2, 1), OK);
    assert_eq!(ugo_captured_black(&g), 1);
}

#[test]
fn a_pass_lifts_the_ko() {
    let mut g = set_up(&[".#o..", "#.#o.", ".#o..", ".....", "....."]);
    ugo_pass(&mut g);
    assert_eq!(ugo_play(&mut g, 1, 1), OK);
    assert_eq!(ugo_play(&mut g, 2, 1), ERR_KO);
    ugo_pass(&mut g);
    assert!(!g.pos.ko_active);
    ugo_pass(&mut g);
    assert_eq!(ugo_pass_count(&g), 2);
    assert_eq!(ugo_play(&mut g, 2, 1), OK);
    assert_eq!(ugo_pass_count(&g), 0);
}

#[test]
fn a_legal_answer_never_repeats_the_board() {
    let mut g = set_up(&[".#o..", "#.#o.", ".#o..", ".....", "....."]);
    ugo_pass(&mut g);
    let before = rows(&g);
    assert_eq!(ugo_play(&mut g, 1, 1), OK);
    for y in 0..5 {
        for x in 0..5 {
            let (r, u) = try_play(&mut g.pos, x, y);
            if r == OK {
                assert_ne!(rows(&g), before);
                untry_play(&mut g.pos, x, y, u);
            }
        }
    }
}

#[test]
fn capturing_two_stones_makes_no_ko() {
    let mut g = set_up(&[".oo#.", "o##..", ".....", ".....", "....."]);
    assert_eq!(ugo_play(&mut g, 0, 0), OK);
    assert_eq!(rows(&g), ["#..#.", "o##..", ".....", ".....", "....."]);
    assert!(!g.pos.ko_active);
}

#[test]
fn trying_a_move_out_leaves_no_trace() {
    let mut g = set_up(&["ooo..", "###..", ".....", ".....", "....."]);
    let (board, moveno) = (g.pos.board.clone(), g.pos.moveno.clone());
    let (r, u) = try_play(&mut g.pos, 3, 0);
    assert_eq!(r, OK);
    assert_eq!(u.captured.len(), 3);
    assert_ne!(g.pos.board, board);
    untry_play(&mut g.pos, 3, 0, u);
    assert_eq!(g.pos.board, board);
    assert_eq!(g.pos.moveno, moveno);
    assert_eq!((ugo_turn(&g), ugo_move_count(&g)), (1, 6));
    assert_eq!((ugo_captured_black(&g), ugo_last_x(&g), ugo_last_y(&g)), (0, 2, 1));
}

#[test]
fn passing() {
    let mut g = new_game(9);
    ugo_pass(&mut g);
    assert_eq!(ugo_turn(&g), 2);
    assert_eq!(ugo_move_count(&g), 1);
    assert_eq!(ugo_pass_count(&g), 1);
    assert_eq!((ugo_last_x(&g), ugo_last_y(&g)), (-1, -1));
}

#[test]
fn setting_up_stones() {
    let mut g = new_game(5);
    assert_eq!(ugo_place(&mut g, 2, 2, 2), OK);
    assert_eq!(ugo_turn(&g), 1);
    assert_eq!(ugo_get(&g, 2, 2), 2);
    assert_eq!(ugo_moveno_ptr(&g)[12], -1);
    assert_eq!(ugo_move_count(&g), 1);
    assert_eq!((ugo_last_x(&g), ugo_last_y(&g)), (2, 2));
    assert_eq!(ugo_place(&mut g, 2, 2, 1), ERR_OCCUPIED);
    assert_eq!(ugo_place(&mut g, 5, 2, 1), ERR_OFFBOARD);
    assert_eq!(ugo_place(&mut g, 0, 0, 0), ERR_OFFBOARD);
    assert_eq!(ugo_place(&mut g, 0, 0, 3), ERR_OFFBOARD);
    assert_eq!(ugo_place(&mut g, 1, 0, 2), OK);
    assert_eq!(ugo_place(&mut g, 0, 1, 2), OK);
    assert_eq!(ugo_place(&mut g, 0, 0, 1), ERR_SUICIDE);
    assert_eq!(rows(&g), [".o...", "o....", "..o..", ".....", "....."]);
}

#[test]
fn set_up_stones_capture_without_being_counted() {
    let mut g = set_up(&["ooo..", "###..", ".....", ".....", "....."]);
    assert_eq!(ugo_place(&mut g, 3, 0, 1), OK);
    assert_eq!(rows(&g), ["...#.", "###..", ".....", ".....", "....."]);
    assert_eq!(ugo_captured_black(&g), 0);
    assert!(all_alive(&g));
}

#[test]
fn every_chain_stays_alive_through_a_game() {
    let mut g = new_game(5);
    let mut x: u32 = 77;
    for _ in 0..200 {
        x = x.wrapping_mul(1664525).wrapping_add(1013904223);
        let r = ((x >> 16) % 25) as i32;
        ugo_play(&mut g, r % 5, r / 5);
        assert!(all_alive(&g));
    }
}

#[test]
fn rules_can_be_changed() {
    let mut g = new_game(5);
    ugo_set_rule(&mut g, 2);
    assert_eq!(g.rule, 2);
}

#[test]
fn filling_a_chain() {
    let g = set_up(&["##o..", "#.o..", ".....", ".....", "....#"]);
    let mut f = Filler::new(0, 0);
    let mut members: Vec<(i32, i32)> = Vec::new();
    let (liberty, count) = f.run(&g.pos, &mut members);
    assert!(liberty);
    assert_eq!(count, 3);
    members.sort();
    assert_eq!(members, [(0, 0), (0, 1), (1, 0)]);
}

#[test]
fn filling_a_region_of_empty_points() {
    let g = set_up(&["..#..", "###..", ".....", ".....", "....."]);
    let mut f = Filler::new(0, 0);
    let mut members: Vec<(i32, i32)> = Vec::new();
    let (_, count) = f.run(&g.pos, &mut members);
    assert_eq!(count, 2);
    members.sort();
    assert_eq!(members, [(0, 0), (1, 0)]);
}

#[test]
fn a_chain_with_its_liberties() {
    let g = set_up(&["##o..", "#.o..", ".....", ".....", "....#"]);
    let c = group_info(&g.pos, 0, 0);
    assert_eq!(c.members.len(), 3);
    assert!(c.contact);
    let mut libs = c.libs;
    libs.sort();
    assert_eq!(libs, [(0, 2), (1, 1)]);
    let far = group_info(&g.pos, 4, 4);
    assert!(!far.contact);
    assert_eq!(far.libs.len(), 2);
}

#[test]
fn eyes_in_the_corner_at_the_edge_and_in_the_centre() {
    let g = set_up(&[".#...", "##...", ".....", ".....", "....."]);
    assert!(is_eye_for(&g.pos, 0, 0, BLACK));
    assert!(!is_eye_for(&g.pos, 0, 0, WHITE));
    let g = set_up(&[".#...", "#o...", ".....", ".....", "....."]);
    assert!(!is_eye_for(&g.pos, 0, 0, BLACK));
    let g = set_up(&[".....", ".###.", ".#.#.", "..##.", "....."]);
    assert!(is_eye_for(&g.pos, 2, 2, BLACK));
    assert_eq!(count_friendly_diagonals(&g.pos, 2, 2, BLACK), 3);
    let g = set_up(&[".....", "..##.", ".#.#.", "..#..", "....."]);
    assert!(!is_eye_for(&g.pos, 2, 2, BLACK));
    let g = set_up(&[".#.#.", ".###.", ".....", ".....", "....."]);
    assert!(is_eye_for(&g.pos, 2, 0, BLACK));
}
