use algorithms::game2048::game::{Command, Game, SQUARE};
use algorithms::game2048::slide::sum;

#[test]
fn test_sum() {
    assert_eq!((false, vec![0, 0, 0, 4]), sum(vec![0, 0, 0, 4]));
    assert_eq!((false, vec![1, 2, 3, 4]), sum(vec![1, 2, 3, 4]));
    assert_eq!((true, vec![0, 0, 2, 4]), sum(vec![1, 1, 2, 2]));
    assert_eq!((true, vec![0, 0, 0, 64]), sum(vec![0, 16, 16, 32]));
}

#[test]
fn sum_repeats_passes_until_nothing_moves() {
    assert_eq!((true, vec![0, 0, 0, 8]), sum(vec![2, 2, 2, 2]));
    assert_eq!((true, vec![0, 0, 0, 2]), sum(vec![2, 0, 0, 0]));
}

#[test]
fn a_new_game_is_empty_and_alive() {
    let g = Game::default();
    assert!(g.alive);
    assert_eq!(0, g.get_score());
    assert_eq!([[0u32; SQUARE]; SQUARE], g.get_grid());
}

#[test]
fn start_places_two_tiles_of_two_or_four() {
    let mut g = Game::default();
    g.start();
    let tiles: Vec<u32> = g.get_grid().iter().flatten().copied().filter(|v| *v != 0).collect();
    assert_eq!(2, tiles.len());
    assert!(tiles.iter().all(|v| *v == 2 || *v == 4));
    assert!(g.get_score() >= 4 && g.get_score() <= 8);
}

#[test]
fn place_tile_puts_the_picked_tile() {
    let mut g = Game::default();
    g.place_tile(0, 0);
    assert_eq!(2, g.get_grid()[0][0]);
    g.place_tile(0, 9);
    assert_eq!(4, g.get_grid()[0][1]);
}

#[test]
fn a_move_keeps_the_score_and_adds_a_tile() {
    let mut g = Game::default();
    g.place_tile(0, 0);
    g.place_tile(0, 0);
    let before = g.get_score();
    assert_eq!(4, before);
    g.next_tick(Command::Left);
    let after = g.get_score();
    assert!(after == before + 2 || after == before + 4);
    assert!(g.alive);
}

#[test]
fn sliding_twice_changes_nothing_more() {
    let (changed, once) = sum(vec![2, 2, 4, 0]);
    assert!(changed);
    assert_eq!(vec![0, 0, 0, 8], once);
    assert_eq!((false, once.clone()), sum(once));
}

#[test]
fn a_move_that_changes_nothing_adds_no_tile() {
    let mut g = Game::default();
    g.place_tile(0, 0);
    let before = g.get_grid();
    g.next_tick(Command::Left);
    assert_eq!(before, g.get_grid());
    g.next_tick(Command::Up);
    assert_eq!(before, g.get_grid());
    g.next_tick(Command::Right);
    let score = g.get_score();
    assert!(score == 4 || score == 6);
}

#[test]
fn do_next_tick_reports_whether_the_board_changed() {
    let mut g = Game::default();
    g.place_tile(0, 0);
    g.place_tile(0, 0);
    assert!(g.do_next_tick(Command::Right));
    let grid = g.get_grid();
    assert_eq!(4, grid[0][3]);
    assert_eq!(4, g.get_score());
    assert!(!g.do_next_tick(Command::Right));
    assert_eq!(grid, g.get_grid());
    assert!(g.alive);
}
