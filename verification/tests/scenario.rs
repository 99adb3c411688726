//! Whole games on several boards, held to sums worked out beforehand.

use ugo::advisor::{
    ugo_ai_action, ugo_ai_config, ugo_ai_genmove, ugo_ai_set_seed, ugo_ai_x, ugo_ai_y, ugo_dbg_n,
    ugo_dbg_nodes, ugo_dbg_v, ugo_dbg_xy,
};
use ugo::advisor::ugo_dbg_eval;
use ugo::estimate::{
    ugo_analyze, ugo_est_black, ugo_est_white, ugo_influence_ptr, ugo_terr_ptr,
};
use ugo::game::{
    ugo_board_ptr, ugo_captured_black, ugo_captured_white, ugo_last_x, ugo_last_y,
    ugo_move_count, ugo_moveno_ptr, ugo_new, ugo_pass, ugo_pass_count, ugo_play, ugo_turn, Game,
};
use ugo::score::{ugo_score_black, ugo_score_white};

fn mix(h: u32, v: i32) -> u32 {
    h.wrapping_mul(31).wrapping_add(v as u32)
}

/// Plays `moves` pseudo-random moves, and sums up the answers.
fn random_game(size: i32, rule: u8, moves: usize, seed: u32) -> (Game, u32) {
    let mut g = Game::new();
    ugo_new(&mut g, size, rule);
    let mut x: u32 = seed;
    let mut codes: u32 = 0;
    for _ in 0..moves {
        x = x.wrapping_mul(1664525).wrapping_add(1013904223);
        let r = ((x >> 16) % ((size * size + 2) as u32)) as i32;
        if r >= size * size {
            ugo_pass(&mut g);
        } else {
            codes = mix(codes, ugo_play(&mut g, r % size, r / size));
        }
    }
    (g, codes)
}

fn position_sum(g: &Game, size: i32) -> u32 {
    let n = (size * size) as usize;
    let mut h: u32 = 0;
    for v in &ugo_board_ptr(g)[..n] {
        h = mix(h, *v as i32);
    }
    for v in &ugo_moveno_ptr(g)[..n] {
        h = mix(h, *v);
    }
    for v in [
        ugo_turn(g),
        ugo_move_count(g),
        ugo_last_x(g),
        ugo_last_y(g),
        ugo_captured_black(g),
        ugo_captured_white(g),
        ugo_pass_count(g),
    ] {
        h = mix(h, v);
    }
    h
}

fn analysis_sum(g: &Game, size: i32) -> u32 {
    let n = (size * size) as usize;
    let mut h: u32 = 0;
    for v in &ugo_influence_ptr(g)[..n] {
        h = mix(h, *v);
    }
    for v in &ugo_terr_ptr(g)[..n] {
        h = mix(h, *v as i32);
    }
    mix(mix(h, ugo_est_black(g)), ugo_est_white(g))
}

fn check_game(
    (size, rule, moves, seed): (i32, u8, usize, u32),
    codes: u32,
    position: u32,
    scores: (i32, i32),
    analysis: u32,
    estimate: (i32, i32),
    value: i32,
) {
    let (mut g, c) = random_game(size, rule, moves, seed);
    assert_eq!(c, codes);
    assert_eq!(position_sum(&g, size), position);
    assert_eq!((ugo_score_black(&g), ugo_score_white(&g)), scores);
    ugo_analyze(&mut g, 0, 0);
    assert_eq!(analysis_sum(&g, size), analysis);
    assert_eq!((ugo_est_black(&g), ugo_est_white(&g)), estimate);
    assert_eq!(ugo_dbg_eval(&mut g), value);
    assert_eq!(position_sum(&g, size), position);
}

fn check_advice(
    (size, rule, moves, seed): (i32, u8, usize, u32),
    (level, ai_seed): (i32, u32),
    (action, x, y): (i32, i32, i32),
    nodes: i32,
    (n, candidates): (i32, u32),
    analysis: u32,
) {
    let (mut g, _) = random_game(size, rule, moves, seed);
    let before = position_sum(&g, size);
    ugo_ai_config(&mut g, level, 50, 50, 50, 50);
    ugo_ai_set_seed(&mut g, ai_seed);
    assert_eq!(ugo_ai_genmove(&mut g), action);
    assert_eq!((ugo_ai_action(&g), ugo_ai_x(&g), ugo_ai_y(&g)), (action, x, y));
    assert_eq!(ugo_dbg_nodes(&g), nodes);
    assert_eq!(ugo_dbg_n(&g), n);
    let mut h: u32 = 0;
    for i in 0..n {
        let v = ugo_dbg_xy(&g, i);
        // scores lie between -50000 and 50000 here
        let head = (v + 50000) / 100000;
        h = mix(mix(mix(h, head / 100), head % 100), v - head * 100000);
    }
    for i in 0..n {
        h = mix(h, ugo_dbg_v(&g, i));
    }
    assert_eq!(h, candidates);
    assert_eq!(analysis_sum(&g, size), analysis);
    assert_eq!(position_sum(&g, size), before);
}

#[test]
fn game_on_five_lines() {
    check_game((5, 0, 60, 1), 1062471800, 1860136045, (6, 25), 636377820, (3, 19), 386);
}

#[test]
fn game_on_seven_lines() {
    check_game((7, 1, 90, 2), 855022911, 3573286434, (4, 10), 2816216040, (6, 24), 229);
}

#[test]
fn game_on_nine_lines() {
    check_game((9, 0, 140, 3), 1245504223, 1730371252, (31, 42), 3549067077, (33, 34), 165);
}

#[test]
fn game_on_thirteen_lines() {
    check_game((13, 2, 260, 4), 1676156933, 244715094, (8, 9), 3995939346, (32, 28), 292);
}

#[test]
fn game_on_nineteen_lines() {
    check_game((19, 0, 500, 5), 2362393811, 3519039654, (131, 142), 1649278435, (148, 132), 357);
}

#[test]
fn advice_of_level_one() {
    check_advice((5, 0, 6, 1), (1, 7), (1, 4, 3), 10, (10, 1728256932), 852324850);
}

#[test]
fn advice_of_level_two() {
    check_advice((7, 0, 8, 2), (2, 9), (1, 3, 1), 14, (14, 115760798), 2936320988);
}

#[test]
fn advice_of_level_three() {
    check_advice((7, 1, 10, 3), (3, 11), (1, 1, 3), 70, (12, 1237228529), 846713160);
}

#[test]
fn advice_of_level_four() {
    check_advice((9, 0, 12, 4), (4, 13), (1, 3, 4), 78, (14, 1719080412), 1586938032);
}

#[test]
fn advice_of_level_five() {
    check_advice((9, 2, 20, 5), (5, 15), (1, 7, 0), 606, (14, 2962737075), 130781366);
}

#[test]
fn advice_of_level_six() {
    check_advice((7, 0, 14, 6), (6, 17), (1, 1, 4), 715, (18, 1463538186), 545105906);
}

#[test]
fn advice_of_level_seven_on_an_urgent_point() {
    check_advice((7, 0, 4, 7), (7, 19), (1, 0, 5), 72, (1, 314748), 1640129751);
}

#[test]
fn advice_of_level_eight() {
    check_advice((6, 0, 9, 8), (8, 21), (1, 2, 2), 1165, (18, 1938964455), 3175722959);
}

#[test]
fn advice_of_level_nine() {
    check_advice((5, 0, 5, 9), (9, 23), (1, 1, 4), 6768, (16, 3859921915), 402662920);
}

#[test]
fn advice_of_level_nine_beyond_its_budget() {
    check_advice((5, 0, 8, 24), (9, 6), (1, 2, 3), 8015, (16, 2527422811), 1395075408);
}

#[test]
fn advice_of_level_ten() {
    check_advice((5, 1, 7, 10), (10, 25), (1, 1, 3), 11689, (19, 300542157), 2666910509);
}

#[test]
fn advice_late_in_a_game_on_an_urgent_point() {
    check_advice((9, 0, 60, 11), (3, 27), (1, 7, 7), 9, (1, 525298), 443042686);
}

#[test]
fn advice_late_in_a_game() {
    check_advice((7, 0, 40, 12), (4, 29), (1, 5, 0), 56, (14, 3401620764), 1251462769);
}

#[test]
fn advice_late_in_a_game_under_territory_rules() {
    check_advice((7, 1, 45, 13), (5, 31), (1, 5, 2), 126, (3, 537996551), 2854202316);
}

#[test]
fn advice_late_in_a_game_leaves_an_urgent_point_that_gains_nothing() {
    check_advice((5, 0, 20, 1), (2, 1), (1, 2, 3), 1, (1, 431996), 3271374342);
    check_advice((6, 0, 40, 3), (3, 3), (1, 2, 1), 9, (1, 429077), 3339833890);
    check_advice((5, 1, 30, 3), (2, 3), (1, 2, 2), 2, (2, 1203711369), 4083402849);
}
