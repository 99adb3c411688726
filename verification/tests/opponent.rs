//! The searching opponent.

use ugo::advisor::{
    ugo_ai_action, ugo_ai_config, ugo_ai_genmove, ugo_ai_set_seed, ugo_ai_x, ugo_ai_y,
    ugo_dbg_eval, ugo_dbg_n, ugo_dbg_nodes, ugo_dbg_probe, ugo_dbg_v, ugo_dbg_xy, DEFAULT_SEED,
};
use ugo::board::{BLACK, CELLS, EMPTY, OK, WHITE};
use ugo::candidates::{build_exp, gen_candidates, rank, Candidate, Plan};
use ugo::census::scan_groups;
use ugo::estimate::{assess, ugo_analyze};
use ugo::game::{ugo_get, ugo_new, ugo_pass, ugo_place, ugo_play, ugo_undo, Game, Style};
use ugo::influence::radiation;
use ugo::opening::{compute_opening_guide, corner_norm, guide_add};
use ugo::random::{rng_below, rng_next};
use ugo::search::{eval_leaf, lead_of, search, MAX_EXT};

fn set_up(rows: &[&str], rule: u8) -> Game {
    let mut g = Game::new();
    ugo_new(&mut g, rows.len() as i32, rule);
    for (y, row) in rows.iter().enumerate() {
        for (x, c) in row.chars().enumerate() {
            let color = match c {
                '#' => 1,
                'o' => 2,
                _ => continue,
            };
            assert_eq!(ugo_place(&mut g, x as i32, y as i32, color), OK);
        }
    }
    g
}

fn even_style() -> Style {
    Style { attack: 50, defence: 50, territory: 50, moyo: 50 }
}

fn plan(depth: i32, budget: i32) -> Plan {
    Plan {
        rule: 0,
        style: even_style(),
        depth,
        w0: 6,
        w1: 5,
        w2: 4,
        w3: 3,
        budget,
        opening: 9,
    }
}

const FIGHT: [&str; 7] =
    ["..#....", ".#o#...", ".......", ".......", "...o...", ".......", "......."];

const WHITE_WON: [&str; 5] = ["oo.oo", "ooooo", "o.ooo", "ooooo", "ooooo"];

const BLACK_WON: [&str; 5] = ["##.##", "#####", "#.###", "#####", "#####"];

const DIVIDED: [&str; 5] = ["..#o.", "..#o.", "..#o.", "..#o.", "..#o."];

#[test]
fn random_states() {
    let mut seed: u32 = 1;
    assert_eq!(rng_next(&mut seed), 270369);
    assert_eq!(seed, 270369);
    let mut seed: u32 = DEFAULT_SEED;
    assert_eq!(rng_next(&mut seed), 1359758873);
    assert_eq!(rng_next(&mut seed), 3761132862);
    assert_eq!(rng_next(&mut seed), 2075758394);
}

#[test]
fn random_draws() {
    let mut seed: u32 = DEFAULT_SEED;
    let drawn: Vec<i32> = (0..5).map(|_| rng_below(&mut seed, 10)).collect();
    assert_eq!(drawn, [8, 0, 3, 7, 1]);
    assert_eq!(rng_below(&mut seed, 1), 0);
    assert_eq!(rng_below(&mut seed, 0), 0);
    assert_eq!(rng_below(&mut seed, -4), 0);
    for _ in 0..1000 {
        let r = rng_below(&mut seed, 7);
        assert!((0..7).contains(&r));
        assert_ne!(seed, 0);
    }
}

#[test]
fn corners_are_reflections() {
    assert_eq!(corner_norm(0, 2, 5, 9), (2, 5));
    assert_eq!(corner_norm(1, 2, 5, 9), (6, 5));
    assert_eq!(corner_norm(2, 2, 5, 9), (2, 3));
    assert_eq!(corner_norm(3, 2, 5, 9), (6, 3));
    for c in 0..4u8 {
        let (a, b) = corner_norm(c, 7, 1, 13);
        assert_eq!(corner_norm(c, a, b, 13), (7, 1));
    }
}

#[test]
fn the_guide_keeps_the_higher_offer() {
    let g = set_up(&["....."; 5], 0);
    let mut guide = vec![0i32; CELLS];
    guide_add(&g.pos, &mut guide, 3, 2, 3, 100);
    assert_eq!(guide[5 + 2], 100);
    guide_add(&g.pos, &mut guide, 3, 2, 3, 50);
    assert_eq!(guide[5 + 2], 100);
    guide_add(&g.pos, &mut guide, 3, 2, 3, 150);
    assert_eq!(guide[5 + 2], 150);
    guide_add(&g.pos, &mut guide, 0, 1, 3, 999);
    guide_add(&g.pos, &mut guide, 0, 2, 5, 999);
    assert!(guide.iter().all(|v| *v <= 150));
}

#[test]
fn the_guide_offers_empty_corners() {
    let g = set_up(&["........."; 9], 0);
    let v = compute_opening_guide(&g.pos, BLACK, 100);
    assert_eq!(&v[18..27], &[0, 0, 260, 290, 0, 290, 260, 0, 0]);
    assert_eq!(&v[27..36], &[0, 0, 290, 300, 0, 300, 290, 0, 0]);
    assert_eq!(&v[36..45], &[0; 9]);
    assert_eq!(&v[54..63], &[0, 0, 260, 290, 0, 290, 260, 0, 0]);
    assert!(compute_opening_guide(&g.pos, BLACK, 0).iter().all(|v| *v == 0));
}

#[test]
fn the_guide_encloses_and_approaches() {
    let mut g = set_up(&["........."; 9], 0);
    assert_eq!(ugo_play(&mut g, 2, 2), OK);
    for side in [BLACK, WHITE] {
        let v = compute_opening_guide(&g.pos, side, 100);
        assert_eq!(&v[27..36], &[0, 0, 0, 0, 240, 240, 0, 0, 0]);
        assert_eq!(&v[36..45], &[0, 0, 0, 240, 0, 0, 0, 0, 0]);
        assert_eq!(&v[45..54], &[0, 0, 0, 240, 0, 0, 0, 0, 0]);
    }
}

#[test]
fn the_guide_answers_an_approach_with_a_pincer() {
    let mut g = set_up(&["........."; 9], 0);
    assert_eq!(ugo_play(&mut g, 2, 2), OK);
    assert_eq!(ugo_play(&mut g, 4, 3), OK);
    let v = compute_opening_guide(&g.pos, BLACK, 100);
    assert_eq!(&v[27..36], &[0, 0, 0, 0, 0, 220, 0, 0, 0]);
    assert_eq!(&v[36..45], &[0, 0, 0, 220, 0, 0, 200, 0, 0]);
    assert_eq!(&v[45..54], &[0, 0, 0, 220, 0, 0, 0, 0, 0]);
    assert!(compute_opening_guide(&g.pos, WHITE, 100).iter().all(|v| *v == 0));
}

#[test]
fn room_for_expansion() {
    let mut g = set_up(&FIGHT, 0);
    let c = scan_groups(&mut g.pos, 0, 0);
    let mut a = vec![0i32; CELLS];
    radiation(&g.pos, &c.strength, &mut a);
    let e = build_exp(&g.pos, &a);
    assert_eq!(e.len(), 49);
    assert_eq!(&e[0..7], &[60, 108, 84, 108, 61, 27, 9]);
    assert_eq!(&e[28..35], &[89, 144, 186, 194, 233, 208, 168]);
    // without influence the whole neighbourhood counts in full
    let blank = vec![0i32; CELLS];
    assert_eq!(build_exp(&g.pos, &blank)[24], 480);
}

fn found(v: &Vec<Candidate>, n: usize) -> Vec<(i32, i32, i32)> {
    v[..n].iter().map(|c| (c.x, c.y, c.score)).collect()
}

#[test]
fn candidates_in_a_fight() {
    let mut g = set_up(&FIGHT, 0);
    let c = scan_groups(&mut g.pos, 0, 0);
    let mut a = vec![0i32; CELLS];
    radiation(&g.pos, &c.strength, &mut a);
    let k = plan(3, 1000);
    let mut seed: u32 = 9;
    let v = gen_candidates(&mut g.pos, &c, &a, &k, 5, 0, false, &mut seed);
    assert_eq!(v.len(), 44);
    assert_eq!(seed, 9);
    assert_eq!(
        found(&v, 8),
        [
            (2, 2, 1015),
            (1, 0, 302),
            (3, 0, 302),
            (4, 4, 98),
            (3, 3, 96),
            (6, 0, 0),
            (0, 1, 2),
            (4, 1, -40),
        ]
    );
    let v = gen_candidates(&mut g.pos, &c, &a, &k, 5, 0, true, &mut seed);
    assert_eq!(found(&v, v.len()), [(2, 2, 920), (3, 0, 300), (1, 0, 300)]);
    g.pos.turn = WHITE;
    let v = gen_candidates(&mut g.pos, &c, &a, &k, 5, 0, false, &mut seed);
    assert_eq!(
        found(&v, 5),
        [(2, 2, 1021), (4, 2, 312), (0, 3, 212), (6, 3, 199), (4, 1, 183)]
    );
    let v = gen_candidates(&mut g.pos, &c, &a, &k, 5, 0, true, &mut seed);
    assert_eq!(found(&v, v.len()), [(2, 2, 700)]);
}

#[test]
fn noise_disturbs_scores_within_its_range() {
    let mut g = set_up(&FIGHT, 0);
    let c = scan_groups(&mut g.pos, 0, 0);
    let mut a = vec![0i32; CELLS];
    radiation(&g.pos, &c.strength, &mut a);
    let k = plan(3, 1000);
    let mut seed: u32 = 9;
    let mut calm = gen_candidates(&mut g.pos, &c, &a, &k, 0, 0, false, &mut seed);
    let mut noisy = gen_candidates(&mut g.pos, &c, &a, &k, 0, 20, false, &mut seed);
    assert_ne!(seed, 9);
    calm.sort_by_key(|c| (c.x, c.y));
    noisy.sort_by_key(|c| (c.x, c.y));
    assert_eq!(calm.len(), noisy.len());
    for (p, q) in calm.iter().zip(&noisy) {
        assert_eq!((p.x, p.y), (q.x, q.y));
        assert!((p.score - q.score).abs() <= 20);
    }
}

#[test]
fn ranking_sorts_the_front_and_loses_nothing() {
    let scores = [3, 9, 9, 1, 7, 4];
    let mut v: Vec<Candidate> = scores
        .iter()
        .enumerate()
        .map(|(i, s)| Candidate { x: i as i32, y: 0, score: *s, value: -*s })
        .collect();
    rank(&mut v, 3, false);
    let order: Vec<i32> = v.iter().map(|c| c.x).collect();
    assert_eq!(order, [1, 2, 4, 3, 0, 5]);
    rank(&mut v, 6, true);
    let order: Vec<i32> = v.iter().map(|c| c.score).collect();
    assert_eq!(order, [1, 3, 4, 7, 9, 9]);
}

#[test]
fn the_lead_counts_points_spheres_and_compensation() {
    assert_eq!(lead_of(0, 50, (20, 15, 0, 0)), 5 * 8 - 60);
    assert_eq!(lead_of(1, 50, (20, 15, 0, 0)), 5 * 8 - 52);
    assert_eq!(lead_of(0, 60, (0, 0, 10, 0)), 8 - 60);
    assert_eq!(lead_of(0, 50, (0, 0, 0, 4)), -2 - 60);
    assert_eq!(lead_of(0, 0, (0, 0, 300, 0)), -60);
}

#[test]
fn a_value_is_seen_from_the_side_to_move() {
    let mut g = set_up(&["........."; 9], 0);
    assert_eq!(ugo_dbg_eval(&mut g), -60);
    ugo_pass(&mut g);
    assert_eq!(ugo_dbg_eval(&mut g), 60);
    let mut g = set_up(&[".....", "..#..", ".#o#.", ".....", "....."], 1);
    assert_eq!(ugo_dbg_eval(&mut g), 132);
    ugo_pass(&mut g);
    assert_eq!(ugo_dbg_eval(&mut g), -116);
}

/// Value of the whole tree, without pruning.
fn full_value(g: &mut Game, k: &Plan, depth: i32) -> i32 {
    let leaf = eval_leaf(&mut g.pos, 0, 50, &mut g.analysis);
    if depth <= 0 {
        return leaf;
    }
    let c = scan_groups(&mut g.pos, 0, 0);
    let mut a = vec![0i32; CELLS];
    radiation(&g.pos, &c.strength, &mut a);
    let w = [k.w0, k.w1, k.w2, k.w3][(k.depth - depth) as usize];
    let mut seed: u32 = 0;
    let v = gen_candidates(&mut g.pos, &c, &a, k, w, 0, false, &mut seed);
    let mut best = if v.is_empty() { leaf } else { -1000000 };
    for m in v.iter().take(w) {
        let (r, u) = ugo::rules::try_play(&mut g.pos, m.x, m.y);
        if r == OK {
            best = best.max(-full_value(g, k, depth - 1));
            ugo::rules::untry_play(&mut g.pos, m.x, m.y, u);
        }
    }
    best
}

#[test]
fn the_pruned_search_finds_the_value_of_the_whole_tree() {
    let mut g = set_up(&FIGHT, 0);
    let k = plan(3, 1000000);
    for depth in 0..4 {
        let whole = full_value(&mut g, &k, depth);
        let mut nodes: i32 = 0;
        let board = g.pos.board.clone();
        let v = search(
            &mut g.pos, &k, depth, -2000000, 2000000, MAX_EXT, &mut nodes, &mut g.analysis,
        );
        assert_eq!(v, whole);
        assert_eq!(g.pos.board, board);
        // with bounds on either side of the value, a limit is found
        let low = search(
            &mut g.pos, &k, depth, whole + 5, whole + 9, MAX_EXT, &mut nodes, &mut g.analysis,
        );
        assert!(low <= whole + 5 && whole <= low);
        let high = search(
            &mut g.pos, &k, depth, whole - 9, whole - 5, MAX_EXT, &mut nodes, &mut g.analysis,
        );
        assert!(high >= whole - 5 && whole >= high);
    }
}

#[test]
fn beyond_its_budget_a_search_only_evaluates() {
    let mut g = set_up(&FIGHT, 0);
    let k = plan(3, 0);
    let mut nodes: i32 = 0;
    let leaf = eval_leaf(&mut g.pos, 0, 50, &mut g.analysis);
    let v = search(&mut g.pos, &k, 3, -2000000, 2000000, MAX_EXT, &mut nodes, &mut g.analysis);
    assert_eq!((v, nodes), (leaf, 1));
}

#[test]
fn settings_are_held_to_their_ranges() {
    let mut g = Game::new();
    ugo_ai_config(&mut g, 11, -5, 101, 0, 100);
    assert_eq!(g.ai.level, 10);
    let w = g.ai.style;
    assert_eq!((w.attack, w.defence, w.territory, w.moyo), (0, 100, 0, 100));
    ugo_ai_config(&mut g, -1, 1, 2, 3, 4);
    assert_eq!(g.ai.level, 0);
    ugo_ai_set_seed(&mut g, 0);
    assert_eq!(g.ai.seed, 0x9E37_79B9);
    ugo_ai_set_seed(&mut g, 12);
    assert_eq!(g.ai.seed, 12);
}

#[test]
fn switched_off_it_passes() {
    let mut g = set_up(&FIGHT, 0);
    assert_eq!(ugo_ai_genmove(&mut g), 0);
    assert_eq!((ugo_ai_action(&g), ugo_ai_x(&g), ugo_ai_y(&g)), (0, -1, -1));
    assert_eq!(ugo_dbg_n(&g), 0);
}

#[test]
fn the_first_move() {
    let mut g = set_up(&["........."; 9], 0);
    ugo_ai_config(&mut g, 7, 50, 50, 50, 50);
    assert_eq!(ugo_ai_genmove(&mut g), 1);
    assert_eq!((ugo_ai_x(&g), ugo_ai_y(&g)), (3, 3));
    assert_eq!(ugo_get(&g, 3, 3), EMPTY as i32);
    assert_eq!(ugo_dbg_nodes(&g), 674);
    assert_eq!(ugo_dbg_n(&g), 14);
    assert_eq!(ugo_dbg_xy(&g, 0), 303 * 100000 + 520);
    assert_eq!(ugo_dbg_xy(&g, 12), 202 * 100000 + 480);
    assert_eq!(ugo_dbg_v(&g, 0), -20);
    assert_eq!(ugo_dbg_v(&g, 13), -22);
    assert_eq!(ugo_dbg_probe(&g, 6, 2), -22 * 100000 + 480);
}

#[test]
fn candidates_that_are_not_there() {
    let mut g = set_up(&["........."; 9], 0);
    assert_eq!((ugo_dbg_xy(&g, 0), ugo_dbg_v(&g, 0), ugo_dbg_probe(&g, 0, 0)), (-1, -1, -1));
    ugo_ai_config(&mut g, 1, 50, 50, 50, 50);
    ugo_ai_genmove(&mut g);
    let n = ugo_dbg_n(&g);
    assert_eq!((ugo_dbg_xy(&g, n), ugo_dbg_v(&g, n)), (-1, -1));
    assert_eq!((ugo_dbg_xy(&g, -1), ugo_dbg_v(&g, -1)), (-1, -1));
    assert_eq!(ugo_dbg_probe(&g, 9, 9), -1);
}

#[test]
fn it_captures_a_stone_in_atari() {
    let mut g = set_up(&FIGHT, 0);
    ugo_ai_config(&mut g, 7, 50, 50, 50, 50);
    assert_eq!(ugo_ai_genmove(&mut g), 1);
    assert_eq!((ugo_ai_x(&g), ugo_ai_y(&g)), (2, 2));
    assert_eq!((ugo_dbg_n(&g), ugo_dbg_nodes(&g)), (1, 86));
    assert_eq!(ugo_dbg_xy(&g, 0), 202 * 100000 + 10000);
    assert_eq!(ugo_dbg_v(&g, 0), 44);
}

#[test]
fn it_saves_a_stone_in_atari() {
    let mut g = set_up(&FIGHT, 0);
    ugo_pass(&mut g);
    ugo_ai_config(&mut g, 7, 50, 50, 50, 50);
    assert_eq!(ugo_ai_genmove(&mut g), 1);
    assert_eq!((ugo_ai_x(&g), ugo_ai_y(&g)), (2, 2));
    assert_eq!(ugo_dbg_n(&g), 1);
}

#[test]
fn it_resigns_a_lost_game() {
    let mut g = set_up(&WHITE_WON, 0);
    ugo_ai_config(&mut g, 3, 50, 50, 50, 50);
    assert_eq!(ugo_ai_genmove(&mut g), 2);
    assert_eq!((ugo_ai_action(&g), ugo_ai_x(&g), ugo_ai_y(&g)), (2, -1, -1));
}

#[test]
fn it_passes_on_a_pass_when_ahead() {
    let mut g = set_up(&WHITE_WON, 0);
    ugo_pass(&mut g);
    ugo_ai_config(&mut g, 3, 50, 50, 50, 50);
    assert_eq!(ugo_ai_genmove(&mut g), 0);
    assert_eq!(ugo_dbg_nodes(&g), 0);
}

#[test]
fn it_passes_without_a_legal_candidate() {
    let mut g = set_up(&BLACK_WON, 0);
    ugo_pass(&mut g);
    ugo_ai_config(&mut g, 3, 50, 50, 50, 50);
    assert_eq!(ugo_ai_genmove(&mut g), 0);
    assert_eq!((ugo_dbg_n(&g), ugo_dbg_nodes(&g)), (0, 0));
}

#[test]
fn it_passes_when_no_move_brings_a_profit() {
    let mut g = set_up(&DIVIDED, 1);
    ugo_ai_config(&mut g, 3, 50, 50, 50, 50);
    ugo_ai_set_seed(&mut g, 5);
    assert_eq!(ugo_ai_genmove(&mut g), 0);
    assert_eq!((ugo_ai_x(&g), ugo_ai_y(&g)), (-1, -1));
    assert_eq!((ugo_dbg_n(&g), ugo_dbg_nodes(&g)), (12, 54));
    let mut g = set_up(&DIVIDED, 0);
    ugo_ai_config(&mut g, 3, 50, 50, 50, 50);
    ugo_ai_set_seed(&mut g, 5);
    assert_eq!(ugo_ai_genmove(&mut g), 1);
    assert_eq!((ugo_ai_x(&g), ugo_ai_y(&g)), (4, 1));
}

#[test]
fn advice_leaves_the_game_alone() {
    let mut g = set_up(&FIGHT, 0);
    ugo_ai_config(&mut g, 5, 50, 50, 50, 50);
    let (board, moveno) = (g.pos.board.clone(), g.pos.moveno.clone());
    let (len, top) = (g.hist.len, g.hist.cap_top);
    ugo_ai_genmove(&mut g);
    assert_eq!(g.pos.board, board);
    assert_eq!(g.pos.moveno, moveno);
    assert_eq!((g.hist.len, g.hist.cap_top), (len, top));
    assert_eq!((g.pos.turn, g.pos.move_count), (BLACK, 5));
    assert_ne!(g.ai.seed, 0);
}

#[test]
fn advised_moves_are_legal_through_a_game() {
    let mut g = set_up(&["......"; 6], 0);
    ugo_ai_config(&mut g, 2, 60, 40, 50, 50);
    for i in 0..60 {
        ugo_ai_set_seed(&mut g, i + 1);
        match ugo_ai_genmove(&mut g) {
            1 => {
                let (x, y) = (ugo_ai_x(&g), ugo_ai_y(&g));
                assert_eq!(ugo_get(&g, x, y), 0);
                assert_eq!(ugo_play(&mut g, x, y), OK);
            }
            0 => ugo_pass(&mut g),
            _ => return,
        }
    }
}

#[test]
fn a_stone_that_took_a_ko_is_not_captured_back_at_once() {
    let mut g = set_up(&["o.o..", "#o...", "#....", ".....", "....."], 0);
    assert_eq!(ugo_play(&mut g, 1, 0), OK);
    assert_eq!((g.pos.ko_active, g.pos.ko_x, g.pos.ko_y), (true, 0, 0));
    for (level, n, nodes) in [(1, 10, 10), (3, 12, 39), (5, 14, 545), (7, 14, 939)] {
        ugo_ai_config(&mut g, level, 50, 50, 50, 50);
        ugo_ai_set_seed(&mut g, 5);
        assert_eq!(ugo_ai_genmove(&mut g), 1);
        assert_eq!((ugo_ai_x(&g), ugo_ai_y(&g)), (1, 2));
        assert_eq!((ugo_dbg_n(&g), ugo_dbg_nodes(&g)), (n, nodes));
    }
    assert_eq!(ugo_play(&mut g, 1, 2), OK);
}

#[test]
fn many_captured_stones_leave_values_alone_where_they_do_not_count() {
    let mut g = set_up(&FIGHT, 0);
    let value = ugo_dbg_eval(&mut g);
    ugo_ai_config(&mut g, 3, 50, 50, 50, 50);
    ugo_ai_set_seed(&mut g, 5);
    let advice = (ugo_ai_genmove(&mut g), ugo_ai_x(&g), ugo_ai_y(&g));
    g.pos.captured_by_black = 2_000_000_000;
    assert_eq!(ugo_dbg_eval(&mut g), value);
    ugo_ai_set_seed(&mut g, 5);
    assert_eq!((ugo_ai_genmove(&mut g), ugo_ai_x(&g), ugo_ai_y(&g)), advice);
    // under the other rules only the difference has to fit
    let mut g = set_up(&FIGHT, 1);
    let value = ugo_dbg_eval(&mut g);
    g.pos.captured_by_black = 2_000_000_003;
    g.pos.captured_by_white = 2_000_000_000;
    assert_eq!(ugo_dbg_eval(&mut g), value + 3 * 8);
}

/// Estimated points of the side that is not to move.
fn points_after(g: &mut Game, side: u8) -> i32 {
    let c = scan_groups(&mut g.pos, 0, 0);
    let e = assess(&g.pos, g.rule, &c, &mut g.analysis);
    if side == BLACK {
        e.0
    } else {
        e.1
    }
}

#[test]
fn late_advice_gains_points() {
    for seed in 1..12 {
        let mut g = set_up(&["......"; 6], (seed % 2) as u8);
        let mut x: u32 = seed;
        for _ in 0..30 {
            x = x.wrapping_mul(1664525).wrapping_add(1013904223);
            let r = ((x >> 16) % 36) as i32;
            ugo_play(&mut g, r % 6, r / 6);
        }
        if g.pos.move_count <= 12 {
            continue;
        }
        ugo_ai_config(&mut g, 1, 50, 50, 50, 50);
        ugo_ai_set_seed(&mut g, seed);
        let me = g.pos.turn;
        // the census at the first level reads no chains out
        let base = points_after(&mut g, me);
        if ugo_ai_genmove(&mut g) == 1 {
            let (x, y) = (ugo_ai_x(&g), ugo_ai_y(&g));
            assert_eq!(ugo_play(&mut g, x, y), OK);
            assert!(points_after(&mut g, me) > base);
        }
    }
}

#[test]
fn the_same_position_gives_the_same_advice() {
    for level in [1, 3, 5] {
        let mut fresh = set_up(&FIGHT, 0);
        ugo_ai_config(&mut fresh, level, 30, 70, 60, 40);
        ugo_ai_set_seed(&mut fresh, 77);
        let first = (ugo_ai_genmove(&mut fresh), ugo_ai_x(&fresh), ugo_ai_y(&fresh));
        let mut used = set_up(&FIGHT, 0);
        ugo_pass(&mut used);
        ugo_ai_config(&mut used, 4, 50, 50, 50, 50);
        ugo_ai_genmove(&mut used);
        ugo_analyze(&mut used, 6, 300);
        assert_eq!(ugo_undo(&mut used), OK);
        ugo_ai_config(&mut used, level, 30, 70, 60, 40);
        ugo_ai_set_seed(&mut used, 77);
        assert_eq!((ugo_ai_genmove(&mut used), ugo_ai_x(&used), ugo_ai_y(&used)), first);
        assert_eq!(used.ai.seed, fresh.ai.seed);
    }
}

#[test]
fn at_no_depth_a_search_evaluates_whatever_its_bounds() {
    let mut g = set_up(&FIGHT, 0);
    let k = plan(3, 1000);
    let leaf = eval_leaf(&mut g.pos, 0, 50, &mut g.analysis);
    let board = g.pos.board.clone();
    for depth in [0, -1, i32::MIN] {
        for (alpha, beta) in [(i32::MIN, i32::MAX), (i32::MAX, i32::MIN), (0, 0)] {
            let mut nodes: i32 = 7;
            let v = search(
                &mut g.pos, &k, depth, alpha, beta, MAX_EXT, &mut nodes, &mut g.analysis,
            );
            assert_eq!((v, nodes), (leaf, 8));
            assert_eq!(g.pos.board, board);
        }
    }
}

#[test]
fn without_a_move_to_try_a_search_evaluates() {
    let mut g = set_up(&BLACK_WON, 0);
    ugo_pass(&mut g);
    let k = plan(3, 1000);
    let leaf = eval_leaf(&mut g.pos, 0, 50, &mut g.analysis);
    let mut nodes: i32 = 0;
    let v = search(&mut g.pos, &k, 2, -2000000, 2000000, MAX_EXT, &mut nodes, &mut g.analysis);
    assert_eq!((v, nodes), (leaf, 1));
}
