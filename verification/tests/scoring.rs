//! Points at the end of a game.

use ugo::board::OK;
use ugo::game::{ugo_new, ugo_pass, ugo_place, ugo_play, ugo_set_rule, Game};
use ugo::score::{score_both, territory, ugo_score_black, ugo_score_white};

fn set_up(rows: &[&str]) -> Game {
    let mut g = Game::new();
    ugo_new(&mut g, rows.len() as i32, 0);
    for (y, row) in rows.iter().enumerate() {
        for (x, c) in row.chars().enumerate() {
            let color = match c {
                '#' => 1,
                'o' => 2,
                _ => continue,
            };
            assert_eq!(ugo_place(&mut g, x as i32, y as i32, color), OK);
        }
    }
    g
}

#[test]
fn an_empty_board_belongs_to_nobody() {
    let mut g = set_up(&[".....", ".....", ".....", ".....", "....."]);
    assert_eq!(territory(&g.pos), (0, 0));
    assert_eq!((ugo_score_black(&g), ugo_score_white(&g)), (0, 7));
    ugo_set_rule(&mut g, 1);
    assert_eq!((ugo_score_black(&g), ugo_score_white(&g)), (0, 6));
}

#[test]
fn a_lone_stone_owns_the_board() {
    let g = set_up(&[".....", ".....", "..#..", ".....", "....."]);
    assert_eq!(territory(&g.pos), (24, 0));
    assert_eq!((ugo_score_black(&g), ugo_score_white(&g)), (25, 7));
}

#[test]
fn a_divided_board() {
    let mut g = set_up(&["..#o.", "..#o.", "..#o.", "..#o.", "..#o."]);
    assert_eq!(territory(&g.pos), (10, 5));
    assert_eq!((ugo_score_black(&g), ugo_score_white(&g)), (15, 17));
    ugo_set_rule(&mut g, 1);
    assert_eq!((ugo_score_black(&g), ugo_score_white(&g)), (10, 11));
    ugo_set_rule(&mut g, 2);
    assert_eq!((ugo_score_black(&g), ugo_score_white(&g)), (10, 11));
}

#[test]
fn a_region_that_touches_both_sides_is_neutral() {
    let g = set_up(&["..#.o", "..#.o", "..#.o", "..#.o", "..#.o"]);
    assert_eq!(territory(&g.pos), (10, 0));
    assert_eq!(score_both(&g.pos, 0), (15, 12));
}

#[test]
fn captured_stones_count_under_territory_rules() {
    let mut g = set_up(&["ooo..", "###..", ".....", ".....", "...o."]);
    assert_eq!(ugo_play(&mut g, 3, 0), OK);
    ugo_pass(&mut g);
    assert_eq!((g.pos.captured_by_black, g.pos.captured_by_white), (3, 0));
    assert_eq!(territory(&g.pos), (3, 0));
    assert_eq!(score_both(&g.pos, 1), (6, 6));
    assert_eq!(score_both(&g.pos, 0), (7, 8));
}

#[test]
fn a_prisoner_counts_for_its_captor() {
    let mut g = Game::new();
    ugo_new(&mut g, 5, 1);
    for (x, y) in [(1, 0), (0, 0), (0, 1)] {
        assert_eq!(ugo_play(&mut g, x, y), OK);
    }
    assert_eq!(g.pos.captured_by_black, 1);
    assert_eq!((ugo_score_black(&g), ugo_score_white(&g)), (24, 6));
}

#[test]
fn area_scores_never_exceed_the_board() {
    let mut g = Game::new();
    ugo_new(&mut g, 7, 0);
    let mut x: u32 = 99;
    for _ in 0..150 {
        x = x.wrapping_mul(1664525).wrapping_add(1013904223);
        let r = ((x >> 16) % 49) as i32;
        ugo_play(&mut g, r % 7, r / 7);
        assert!(ugo_score_black(&g) + ugo_score_white(&g) <= 49 + 7);
    }
}
