use rust_2048::sweep::{fits, resolve};
use rust_2048::{Board, Settings, Tile, TileState};

fn sweep_settings() -> Settings {
    Settings::new(4, 4, 100, 80, 60).unwrap()
}

fn fixed(value: i32, x: i32, y: i32) -> Tile {
    Tile { value, x, y, status: TileState::Static, remaining: 0, combined: false }
}

fn merged(value: i32, x: i32, y: i32) -> Tile {
    Tile { value, x, y, status: TileState::Spawning, remaining: 60, combined: true }
}

#[test]
fn two_tiles_on_one_cell_merge_into_their_sum() {
    let s = sweep_settings();
    let mut board = Board::with_tiles(&s, vec![fixed(2, 1, 2), fixed(2, 1, 2)], 10).unwrap();
    assert!(!board.is_locking());
    assert!(board.can_update());
    board.update(0);
    assert_eq!(board.tiles().len(), 1);
    assert_eq!(board.tiles()[0], merged(4, 1, 2));
    assert_eq!(board.score(), 14);
}

#[test]
fn merge_value_is_the_exact_sum_of_unequal_sources() {
    let s = sweep_settings();
    let (tiles, gained) = resolve(&s, &vec![fixed(2, 0, 0), fixed(32, 0, 0)]);
    assert_eq!(tiles, vec![merged(34, 0, 0)]);
    assert_eq!(gained, 34);
}

#[test]
fn sweep_without_shared_cells_changes_nothing() {
    let s = sweep_settings();
    let before = vec![fixed(2, 0, 0), fixed(2, 1, 0), fixed(4, 0, 1)];
    let (tiles, gained) = resolve(&s, &before);
    assert_eq!(tiles, before);
    assert_eq!(gained, 0);
}

#[test]
fn sweep_of_no_tiles_is_empty() {
    let s = sweep_settings();
    let (tiles, gained) = resolve(&s, &Vec::new());
    assert!(tiles.is_empty());
    assert_eq!(gained, 0);
}

#[test]
fn sweep_keeps_untouched_tiles_in_order_and_appends_newest_first() {
    let s = sweep_settings();
    let before = vec![
        fixed(2, 0, 0),
        fixed(8, 3, 3),
        fixed(4, 1, 1),
        fixed(2, 0, 0),
        fixed(16, 2, 0),
        fixed(4, 1, 1),
    ];
    let (tiles, gained) = resolve(&s, &before);
    assert_eq!(tiles, vec![fixed(8, 3, 3), fixed(16, 2, 0), merged(8, 1, 1), merged(4, 0, 0)]);
    assert_eq!(gained, 12);
}

#[test]
fn three_tiles_on_one_cell_merge_only_the_first_two() {
    let s = sweep_settings();
    let before = vec![fixed(2, 1, 1), fixed(4, 1, 1), fixed(8, 1, 1)];
    let (tiles, gained) = resolve(&s, &before);
    assert_eq!(tiles, vec![fixed(8, 1, 1), merged(6, 1, 1)]);
    assert_eq!(gained, 6);
}

#[test]
fn four_tiles_on_one_cell_merge_only_the_first_two() {
    let s = sweep_settings();
    let before = vec![fixed(2, 1, 1), fixed(4, 1, 1), fixed(8, 1, 1), fixed(16, 1, 1)];
    let (tiles, gained) = resolve(&s, &before);
    assert_eq!(tiles, vec![fixed(8, 1, 1), fixed(16, 1, 1), merged(6, 1, 1)]);
    assert_eq!(gained, 6);
}

#[test]
fn leftover_tile_merges_on_a_later_update() {
    let s = sweep_settings();
    let before = vec![fixed(2, 1, 1), fixed(2, 1, 1), fixed(4, 1, 1)];
    let mut board = Board::with_tiles(&s, before, 0).unwrap();
    board.update(0);
    assert_eq!(board.tiles(), &vec![fixed(4, 1, 1), merged(4, 1, 1)]);
    assert_eq!(board.score(), 4);
    assert!(board.is_locking());
    board.update(59);
    assert_eq!(board.tiles().len(), 2);
    assert_eq!(board.score(), 4);
    board.update(1);
    assert_eq!(board.tiles(), &vec![merged(8, 1, 1)]);
    assert_eq!(board.score(), 12);
}

#[test]
fn every_tile_takes_part_in_at_most_one_merge() {
    let s = sweep_settings();
    let before = vec![
        fixed(2, 0, 0),
        fixed(2, 0, 0),
        fixed(2, 0, 0),
        fixed(4, 1, 0),
        fixed(4, 1, 0),
        fixed(8, 2, 0),
    ];
    let (tiles, gained) = resolve(&s, &before);
    assert_eq!(tiles.len(), before.len() - 2);
    assert_eq!(gained, 12);
    let total_before: i32 = before.iter().map(|t| t.value).sum();
    let total_after: i32 = tiles.iter().map(|t| t.value).sum();
    assert_eq!(total_before, total_after);
}

#[test]
fn fits_tells_whether_the_score_has_room() {
    let s = sweep_settings();
    let tiles = vec![fixed(2, 0, 0), fixed(2, 0, 0), fixed(4, 1, 0)];
    assert!(fits(&s, &tiles, 0));
    assert!(fits(&s, &tiles, i32::MAX - 4));
    assert!(!fits(&s, &tiles, i32::MAX - 3));
    assert!(!fits(&s, &tiles, i32::MAX));
    let none = vec![fixed(2, 0, 0), fixed(2, 1, 0)];
    assert!(fits(&s, &none, i32::MAX));
    let huge = vec![fixed(i32::MAX, 0, 0), fixed(1, 0, 0)];
    assert!(!fits(&s, &huge, 0));
    let many = vec![
        fixed(i32::MAX, 0, 0),
        fixed(i32::MAX, 0, 0),
        fixed(i32::MAX, 1, 0),
        fixed(i32::MAX, 1, 0),
    ];
    assert!(!fits(&s, &many, 0));
}

#[test]
fn can_update_tells_whether_the_score_has_room() {
    let s = sweep_settings();
    let tiles = vec![fixed(2, 0, 0), fixed(2, 0, 0)];
    assert!(Board::with_tiles(&s, tiles.clone(), i32::MAX - 4).unwrap().can_update());
    assert!(!Board::with_tiles(&s, tiles, i32::MAX - 3).unwrap().can_update());
}

#[test]
fn merge_adds_up_to_the_largest_score() {
    let s = sweep_settings();
    let tiles = vec![fixed(2, 0, 0), fixed(2, 0, 0)];
    let mut board = Board::with_tiles(&s, tiles, i32::MAX - 4).unwrap();
    board.update(0);
    assert_eq!(board.score(), i32::MAX);
}
