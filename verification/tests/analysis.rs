//! Reading, the census of chains, influence and territory.

use ugo::board::{CELLS, OK, WHITE};
use ugo::census::{scan_groups, Census};
use ugo::estimate::{
    assess, classify_and_est, morphology, ugo_analyze, ugo_est_black, ugo_est_white,
    ugo_influence_ptr, ugo_terr_ptr, CAP_PLATEAU, T_PLATEAU,
};
use ugo::game::{ugo_new, ugo_pass, ugo_place, ugo_set_rule, Game};
use ugo::influence::radiation;
use ugo::reading::{has_point, read_cap};

fn set_up(rows: &[&str]) -> Game {
    let mut g = Game::new();
    ugo_new(&mut g, rows.len() as i32, 0);
    for (y, row) in rows.iter().enumerate() {
        for (x, c) in row.chars().enumerate() {
            let color = match c {
                '#' => 1,
                'o' => 2,
                _ => continue,
            };
            assert_eq!(ugo_place(&mut g, x as i32, y as i32, color), OK);
        }
    }
    g
}

const MIXED: [&str; 7] =
    ["..#....", ".#o#...", "...o...", ".......", "...o...", ".#.....", "......."];

/// A white stone that runs into a ladder if it moves first.
fn ladder() -> Game {
    set_up(&[
        ".........",
        ".........",
        "...##....",
        "..#o.....",
        "...#.....",
        ".........",
        ".........",
        ".........",
        ".........",
    ])
}

fn read(g: &mut Game, x: i32, y: i32, depth: i32, att: bool, budget: i32) -> (bool, i32) {
    let mut ops: i32 = 0;
    let r = read_cap(&mut g.pos, x, y, depth, att, &mut ops, budget);
    (r, ops)
}

#[test]
fn a_stone_in_atari_is_captured_at_once() {
    let mut g = ladder();
    assert_eq!(read(&mut g, 3, 3, 1, true, 6000), (true, 1));
}

#[test]
fn a_ladder_is_read_to_its_end() {
    let mut g = ladder();
    assert_eq!(read(&mut g, 3, 3, 4, false, 6000), (false, 5));
    assert_eq!(read(&mut g, 3, 3, 16, false, 6000), (false, 24));
    assert_eq!(read(&mut g, 3, 3, 20, false, 6000), (true, 23));
}

#[test]
fn a_ladder_breaker_saves_the_stone() {
    let mut g = ladder();
    assert_eq!(ugo_place(&mut g, 7, 7, 2), OK);
    assert!(!read(&mut g, 3, 3, 20, false, 6000).0);
}

#[test]
fn a_stone_with_room_gets_away() {
    let mut g = set_up(&[
        ".........", ".........", "...#.....", "..#o.....", "...#.....", ".........", ".........",
        ".........", ".........",
    ]);
    assert_eq!(read(&mut g, 3, 3, 30, false, 6000), (false, 1));
}

#[test]
fn without_depth_or_budget_a_chain_counts_as_safe() {
    let mut g = set_up(&["o.#..", "o##..", "##...", ".....", "....."]);
    assert_eq!(read(&mut g, 0, 0, 0, true, 100), (false, 0));
    assert_eq!(read(&mut g, 0, 0, 3, true, 0), (false, 1));
    assert_eq!(read(&mut g, 0, 0, 3, true, 100), (true, 1));
    assert_eq!(read(&mut g, 0, 0, 3, false, 100), (true, 1));
}

#[test]
fn reading_leaves_the_position_alone() {
    let mut g = ladder();
    let (board, moveno, turn) = (g.pos.board.clone(), g.pos.moveno.clone(), g.pos.turn);
    read(&mut g, 3, 3, 20, false, 6000);
    assert_eq!(g.pos.board, board);
    assert_eq!(g.pos.moveno, moveno);
    assert_eq!(g.pos.turn, turn);
}

#[test]
fn points_in_a_list() {
    assert!(has_point(&vec![(1, 2), (3, 4)], 3, 4));
    assert!(!has_point(&vec![(1, 2), (3, 4)], 4, 3));
}

#[test]
fn a_census_of_two_colours() {
    let mut g = set_up(&[".....", "..#..", ".#o#.", ".....", "....."]);
    let c: Census = scan_groups(&mut g.pos, 0, 0);
    assert_eq!((c.libs[12], c.size[12], c.contact[12]), (1, 1, true));
    assert!(c.dead[12]);
    assert_eq!(c.strength[12], 8);
    assert_eq!((c.libs[7], c.dead[7], c.strength[7]), (3, false, 7));
    assert_eq!((c.libs[0], c.size[0], c.strength[0]), (0, 0, 0));
}

#[test]
fn a_census_gives_each_chain_one_entry_on_all_its_points() {
    let mut g = set_up(&["###..", "..#..", "oo#..", "..o..", "....."]);
    let c: Census = scan_groups(&mut g.pos, 4, 100);
    for i in [1, 2, 7, 12] {
        assert_eq!(c.size[i], 5);
        assert_eq!(c.libs[i], c.libs[0]);
        assert_eq!(c.strength[i], c.strength[0]);
        assert_eq!(c.dead[i], c.dead[0]);
        assert_eq!(c.contact[i], c.contact[0]);
    }
}

#[test]
fn a_last_eye_that_cannot_be_filled_keeps_a_chain_alive() {
    let mut g = set_up(&[".#o..", "##o..", "ooo..", ".....", "....."]);
    let c: Census = scan_groups(&mut g.pos, 0, 0);
    assert_eq!((c.libs[1], c.dead[1], c.strength[1]), (1, false, 3));
}

#[test]
fn a_chain_that_is_read_to_be_dead() {
    let mut g = set_up(&[
        ".........",
        ".........",
        "...#.....",
        "..#o.....",
        "...o#....",
        "...#.....",
        ".........",
        ".........",
        ".........",
    ]);
    let shallow: Census = scan_groups(&mut g.pos, 0, 0);
    assert_eq!((shallow.libs[30], shallow.dead[30]), (2, false));
    let deep: Census = scan_groups(&mut g.pos, 12, 600);
    let captured = read(&mut g, 3, 3, 12, true, 600).0;
    assert_eq!(deep.dead[30], captured);
    assert_eq!(deep.strength[30], if captured { 8 } else { -6 });
}

#[test]
fn influence_of_one_stone() {
    let mut g = set_up(&[
        ".........", ".........", ".........", ".........", "....#....", ".........", ".........",
        ".........", ".........",
    ]);
    ugo_analyze(&mut g, 0, 0);
    let v = ugo_influence_ptr(&g);
    assert_eq!(&v[0..9], &[1, 2, 4, 5, 7, 5, 4, 2, 1]);
    assert_eq!(&v[27..36], &[5, 7, 8, 10, 12, 10, 8, 7, 5]);
    assert_eq!(&v[36..45], &[7, 8, 10, 12, 0, 12, 10, 8, 7]);
    let t = ugo_terr_ptr(&g);
    assert_eq!(&t[0..9], &[0, 0, 0, 1, 1, 1, 0, 0, 0]);
    assert_eq!(&t[36..45], &[1, 1, 1, 1, 0, 1, 1, 1, 1]);
    assert_eq!((ugo_est_black(&g), ugo_est_white(&g)), (1, 0));
}

#[test]
fn influence_is_stopped_by_the_other_side_and_spares_stones() {
    let g = set_up(&["#o...", "oo...", ".....", ".....", "....."]);
    let mut strength = vec![0i32; CELLS];
    strength[0] = 8;
    let mut a = vec![7i32; CELLS];
    radiation(&g.pos, &strength, &mut a);
    assert!(a[..25].iter().all(|v| *v == 0));
    assert!(a[25..].iter().all(|v| *v == 7));
}

#[test]
fn influence_passes_over_stones_of_its_own() {
    let g = set_up(&["##...", ".....", ".....", ".....", "....."]);
    let mut strength = vec![0i32; CELLS];
    strength[0] = 9;
    let mut a = vec![0i32; CELLS];
    radiation(&g.pos, &strength, &mut a);
    // 12, 10 and 8 times nine eighths, rounded towards zero
    assert_eq!((a[5], a[2], a[3], a[1]), (13, 11, 9, 0));
    strength[0] = -9;
    let mut b = vec![0i32; CELLS];
    radiation(&g.pos, &strength, &mut b);
    // the way round the stone has four steps
    assert_eq!((b[5], b[2], b[1]), (-13, -7, 0));
}

#[test]
fn a_dead_stone_belongs_to_the_other_side() {
    let mut g = set_up(&[".....", "..#..", ".#o#.", ".....", "....."]);
    ugo_analyze(&mut g, 1, 2);
    assert_eq!(&ugo_influence_ptr(&g)[0..5], &[25, 30, 34, 30, 25]);
    assert_eq!(&ugo_influence_ptr(&g)[10..15], &[31, 0, 0, 0, 31]);
    assert_eq!(&ugo_terr_ptr(&g)[10..15], &[2, 0, 2, 0, 2]);
    assert_eq!((ugo_est_black(&g), ugo_est_white(&g)), (25, 0));
    ugo_set_rule(&mut g, 1);
    ugo_analyze(&mut g, 0, 0);
    assert_eq!((ugo_est_black(&g), ugo_est_white(&g)), (23, 0));
}

#[test]
fn analysing_again_changes_nothing() {
    let mut g = set_up(&MIXED);
    ugo_analyze(&mut g, 0, 0);
    let (v, t) = (g.analysis.influence.clone(), g.analysis.territory.clone());
    let e = (ugo_est_black(&g), ugo_est_white(&g));
    ugo_analyze(&mut g, 0, 0);
    assert_eq!(g.analysis.influence, v);
    assert_eq!(g.analysis.territory, t);
    assert_eq!((ugo_est_black(&g), ugo_est_white(&g)), e);
}

#[test]
fn erosion_weakens_claims() {
    let mut g = set_up(&MIXED);
    let c: Census = scan_groups(&mut g.pos, 0, 0);
    let mut a = vec![0i32; CELLS];
    radiation(&g.pos, &c.strength, &mut a);
    let e = morphology(&g.pos, &c.strength, &a);
    for i in 0..49 {
        if g.pos.board[i] == 0 {
            let claim = if a[i].abs() >= T_PLATEAU { CAP_PLATEAU } else { a[i].abs() };
            assert!(e[i].abs() <= claim);
            assert!(e[i] == 0 || (e[i] > 0) == (a[i] > 0));
        } else {
            assert_eq!(e[i].abs(), CAP_PLATEAU);
        }
    }
}

#[test]
fn an_isolated_claim_is_worn_away() {
    let g = set_up(&[".....", ".....", ".....", ".....", "....."]);
    let strength = vec![0i32; CELLS];
    let mut a = vec![0i32; CELLS];
    a[12] = 40;
    assert!(morphology(&g.pos, &strength, &a)[..25].iter().all(|v| *v == 0));
    for i in 0..25 {
        a[i] = -20;
    }
    assert!(morphology(&g.pos, &strength, &a)[..25].iter().all(|v| *v == -16));
}

#[test]
fn no_territory_beside_a_live_stone_of_the_other_side() {
    let mut g = set_up(&[".....", ".....", "..o..", ".....", "....."]);
    let mut e = vec![16i32; CELLS];
    let dead = vec![false; CELLS];
    e[0] = 9;
    let r = classify_and_est(&g.pos, 0, &dead, &e, &mut g.analysis);
    let t = &g.analysis.territory;
    assert_eq!((t[0], t[1], t[7], t[11], t[13], t[17], t[12]), (0, 2, 1, 1, 1, 1, 0));
    // 25 points less the stone, the weak claim and the four beside the stone
    assert_eq!(r, (19, 1, 4, 0));
}

#[test]
fn estimates_under_territory_rules_count_captures() {
    let mut g = set_up(&["##...", ".....", ".....", ".....", "...oo"]);
    g.pos.captured_by_black = 3;
    g.pos.captured_by_white = 5;
    let c: Census = scan_groups(&mut g.pos, 0, 0);
    let area = assess(&g.pos, 0, &c, &mut g.analysis);
    let points = assess(&g.pos, 1, &c, &mut g.analysis);
    assert_eq!(points.0, area.0 - 2 + 3);
    assert_eq!(points.1, area.1 - 2 + 5);
    assert_eq!((area.2, area.3), (points.2, points.3));
}

#[test]
fn analysis_does_not_depend_on_who_moves() {
    let mut g = set_up(&MIXED);
    ugo_analyze(&mut g, 0, 0);
    let v = g.analysis.influence.clone();
    ugo_pass(&mut g);
    assert_eq!(g.pos.turn, WHITE);
    ugo_analyze(&mut g, 0, 0);
    assert_eq!(g.analysis.influence, v);
}

#[test]
fn exchanging_the_colours_exchanges_the_analysis() {
    let swapped: Vec<String> = MIXED
        .iter()
        .map(|r| {
            r.chars()
                .map(|c| match c {
                    '#' => 'o',
                    'o' => '#',
                    c => c,
                })
                .collect()
        })
        .collect();
    let other: Vec<&str> = swapped.iter().map(|r| r.as_str()).collect();
    let mut g = set_up(&MIXED);
    let mut h = set_up(&other);
    ugo_analyze(&mut g, 0, 0);
    ugo_analyze(&mut h, 0, 0);
    for i in 0..49 {
        assert_eq!(ugo_influence_ptr(&g)[i], -ugo_influence_ptr(&h)[i]);
        assert_eq!(ugo_terr_ptr(&g)[i], -ugo_terr_ptr(&h)[i]);
    }
    assert_eq!((ugo_est_black(&g), ugo_est_white(&g)), (ugo_est_white(&h), ugo_est_black(&h)));
}

#[test]
fn an_enclosed_pocket_is_kept() {
    let g = set_up(&["..#....", "..#....", "###....", ".......", ".......", ".......", "......."]);
    let mut strength = vec![0i32; CELLS];
    for i in [2, 9, 14, 15, 16] {
        strength[i] = 8;
    }
    let mut a = vec![0i32; CELLS];
    for i in [0, 1, 7, 8] {
        a[i] = 12;
    }
    let e = morphology(&g.pos, &strength, &a);
    for i in [0, 1, 7, 8] {
        assert_eq!(e[i], CAP_PLATEAU);
    }
    assert_eq!(e[24], 0);
}
