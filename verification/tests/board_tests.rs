use rust_2048::grid::{
    cells_distinct, find_from, find_next, get_mut_next_tile, get_mut_tile, settled,
};
use rust_2048::{Board, Direction, Settings, Tile, TileState};

fn board_settings() -> Settings {
    Settings::new(4, 4, 100, 80, 60).unwrap()
}

fn placed(value: i32, x: i32, y: i32) -> Tile {
    Tile { value, x, y, status: TileState::Static, remaining: 0, combined: false }
}

fn moving(value: i32, x: i32, y: i32, remaining: u32) -> Tile {
    Tile { value, x, y, status: TileState::Sliding, remaining, combined: false }
}

#[test]
fn with_tiles_keeps_what_it_is_given() {
    let s = board_settings();
    let tiles = vec![placed(2, 0, 0), moving(4, 3, 3, 5), placed(2, 0, 0)];
    let b = Board::with_tiles(&s, tiles.clone(), 42).unwrap();
    assert_eq!(b.tiles(), &tiles);
    assert_eq!(b.score(), 42);
    assert!(!b.has_pending_spawn());
    assert_eq!(b.settings().grid_width, 4);
    assert_eq!(b.settings().slide_time, 80);
}

#[test]
fn with_tiles_rejects_tiles_off_the_grid() {
    let s = board_settings();
    assert!(Board::with_tiles(&s, vec![placed(2, 4, 0)], 0).is_none());
    assert!(Board::with_tiles(&s, vec![placed(2, 0, 4)], 0).is_none());
    assert!(Board::with_tiles(&s, vec![placed(2, -1, 0)], 0).is_none());
    assert!(Board::with_tiles(&s, vec![placed(2, 0, 0), placed(2, 0, -1)], 0).is_none());
    assert!(Board::with_tiles(&s, vec![placed(2, 3, 3)], 0).is_some());
}

#[test]
fn with_tiles_rejects_values_that_are_not_positive() {
    let s = board_settings();
    assert!(Board::with_tiles(&s, vec![placed(0, 0, 0)], 0).is_none());
    assert!(Board::with_tiles(&s, vec![placed(2, 1, 1), placed(-2, 0, 0)], 0).is_none());
    assert!(Board::with_tiles(&s, vec![placed(1, 0, 0)], 0).is_some());
}

#[test]
fn with_tiles_rejects_more_tiles_than_cells() {
    let s = Settings::new(2, 1, 1, 1, 1).unwrap();
    assert!(Board::with_tiles(&s, vec![placed(2, 0, 0), placed(2, 0, 0)], 0).is_some());
    assert!(Board::with_tiles(&s, vec![placed(2, 0, 0), placed(2, 1, 0), placed(2, 1, 0)], 0)
        .is_none());
}

#[test]
fn with_tiles_rejects_negative_scores_and_bad_settings() {
    let s = board_settings();
    assert!(Board::with_tiles(&s, Vec::new(), -1).is_none());
    assert!(Board::with_tiles(&s, Vec::new(), 0).is_some());
    assert!(Board::with_tiles(&s, Vec::new(), i32::MAX).is_some());
    let bad =
        Settings { grid_width: 0, grid_height: 4, spawn_time: 1, slide_time: 1, combine_time: 1 };
    assert!(Board::with_tiles(&bad, Vec::new(), 0).is_none());
}

#[test]
fn is_locking_while_any_tile_animates() {
    let s = board_settings();
    assert!(!Board::with_tiles(&s, Vec::new(), 0).unwrap().is_locking());
    assert!(!Board::with_tiles(&s, vec![placed(2, 0, 0), placed(4, 1, 0)], 0).unwrap().is_locking());
    assert!(Board::with_tiles(&s, vec![placed(2, 0, 0), moving(4, 1, 0, 0)], 0)
        .unwrap()
        .is_locking());
    assert!(Board::with_tiles(&s, vec![Tile::new(&s, 2, 0, 0)], 0).unwrap().is_locking());
    assert!(settled(&vec![placed(2, 0, 0)]));
    assert!(!settled(&vec![placed(2, 0, 0), moving(2, 0, 0, 3)]));
}

#[test]
fn get_tile_finds_the_first_tile_on_a_cell() {
    let s = board_settings();
    let b = Board::with_tiles(&s, vec![placed(2, 1, 0), placed(4, 2, 3), moving(8, 2, 3, 9)], 0)
        .unwrap();
    assert_eq!(b.get_tile(1, 0), Some(&placed(2, 1, 0)));
    assert_eq!(b.get_tile(2, 3), Some(&placed(4, 2, 3)));
    assert_eq!(b.get_tile(0, 1), None);
    assert_eq!(b.get_tile(3, 2), None);
    assert_eq!(b.get_tile(-1, 0), None);
    assert_eq!(b.get_tile(4, 4), None);
}

#[test]
fn get_tile_count_counts_every_tile_on_the_cell() {
    let s = board_settings();
    let b = Board::with_tiles(
        &s,
        vec![placed(2, 1, 0), placed(4, 2, 3), moving(8, 2, 3, 9), placed(2, 2, 3)],
        0,
    )
    .unwrap();
    assert_eq!(b.get_tile_count(1, 0), 1);
    assert_eq!(b.get_tile_count(2, 3), 3);
    assert_eq!(b.get_tile_count(0, 0), 0);
    assert_eq!(b.get_tile_count(9, 9), 0);
}

#[test]
fn get_next_tile_walks_until_it_meets_a_tile() {
    let s = board_settings();
    let b = Board::with_tiles(&s, vec![placed(2, 3, 1), placed(4, 1, 1), placed(8, 1, 3)], 0)
        .unwrap();
    assert_eq!(b.get_next_tile(0, 1, 1, 0), Some(&placed(4, 1, 1)));
    assert_eq!(b.get_next_tile(1, 1, 1, 0), Some(&placed(2, 3, 1)));
    assert_eq!(b.get_next_tile(3, 1, 1, 0), None);
    assert_eq!(b.get_next_tile(3, 1, -1, 0), Some(&placed(4, 1, 1)));
    assert_eq!(b.get_next_tile(1, 1, -1, 0), None);
    assert_eq!(b.get_next_tile(1, 0, 0, 1), Some(&placed(4, 1, 1)));
    assert_eq!(b.get_next_tile(1, 1, 0, 1), Some(&placed(8, 1, 3)));
    assert_eq!(b.get_next_tile(1, 3, 0, -1), Some(&placed(4, 1, 1)));
    assert_eq!(b.get_next_tile(0, 0, 0, 1), None);
}

#[test]
fn get_next_tile_starts_beyond_the_given_cell() {
    let s = board_settings();
    let b = Board::with_tiles(&s, vec![placed(2, 1, 1)], 0).unwrap();
    assert_eq!(b.get_next_tile(1, 1, 1, 0), None);
    assert_eq!(b.get_next_tile(1, 1, 0, -1), None);
    assert_eq!(b.get_next_tile(-1, 1, 1, 0), Some(&placed(2, 1, 1)));
    assert_eq!(b.get_next_tile(-2, 1, 1, 0), None);
    assert_eq!(b.get_next_tile(4, 1, -1, 0), Some(&placed(2, 1, 1)));
}

#[test]
fn get_next_tile_takes_any_step() {
    let s = board_settings();
    let b = Board::with_tiles(&s, vec![placed(2, 2, 2), placed(4, 3, 3), placed(8, 3, 0)], 0)
        .unwrap();
    assert_eq!(b.get_next_tile(0, 0, 1, 1), Some(&placed(2, 2, 2)));
    assert_eq!(b.get_next_tile(1, 1, 2, 2), Some(&placed(4, 3, 3)));
    assert_eq!(b.get_next_tile(0, 0, 3, 0), Some(&placed(8, 3, 0)));
    assert_eq!(b.get_next_tile(0, 0, 2, 0), None);
    assert_eq!(b.get_next_tile(0, 0, i32::MAX, i32::MAX), None);
    assert_eq!(b.get_next_tile(i32::MAX, i32::MAX, i32::MAX, i32::MAX), None);
    assert_eq!(b.get_next_tile(i32::MIN, i32::MIN, i32::MIN, i32::MIN), None);
    assert_eq!(b.get_next_tile(3, 3, i32::MIN, i32::MIN), None);
}

#[test]
fn find_functions_return_indices() {
    let s = board_settings();
    let tiles = vec![placed(2, 0, 0), placed(4, 1, 0), placed(8, 0, 0)];
    assert_eq!(find_from(&tiles, 0, 0, 0), 0);
    assert_eq!(find_from(&tiles, 1, 0, 0), 2);
    assert_eq!(find_from(&tiles, 3, 0, 0), 3);
    assert_eq!(find_from(&tiles, 0, 1, 0), 1);
    assert_eq!(find_from(&tiles, 0, 1, 1), 3);
    assert_eq!(find_next(&tiles, &s, 3, 0, -1, 0), 1);
    assert_eq!(find_next(&tiles, &s, 1, 0, -1, 0), 0);
    assert_eq!(find_next(&tiles, &s, 0, 0, -1, 0), 3);
    assert!(!cells_distinct(&tiles));
    assert!(cells_distinct(&tiles[..2].to_vec()));
    assert!(cells_distinct(&Vec::new()));
}

#[test]
fn add_score_adds() {
    let s = board_settings();
    let mut b = Board::with_tiles(&s, vec![placed(2, 0, 0)], 3).unwrap();
    b.add_score(0);
    assert_eq!(b.score(), 3);
    b.add_score(4);
    assert_eq!(b.score(), 7);
    b.add_score(i32::MAX - 7);
    assert_eq!(b.score(), i32::MAX);
    assert_eq!(b.tiles(), &vec![placed(2, 0, 0)]);
}

#[test]
fn update_advances_every_tile() {
    let s = board_settings();
    let mut b = Board::with_tiles(
        &s,
        vec![placed(2, 0, 0), moving(4, 1, 0, 50), moving(8, 2, 0, 80)],
        0,
    )
    .unwrap();
    b.update(50);
    assert_eq!(b.tiles(), &vec![placed(2, 0, 0), placed(4, 1, 0), moving(8, 2, 0, 30)]);
    b.update(30);
    assert_eq!(b.tiles(), &vec![placed(2, 0, 0), placed(4, 1, 0), placed(8, 2, 0)]);
}

#[test]
fn update_does_not_merge_while_a_tile_animates() {
    let s = board_settings();
    let mut b = Board::with_tiles(
        &s,
        vec![placed(2, 0, 0), moving(2, 0, 0, 80), placed(4, 1, 1), placed(4, 1, 1)],
        1,
    )
    .unwrap();
    b.update(79);
    assert_eq!(b.tiles().len(), 4);
    assert_eq!(b.score(), 1);
    assert!(b.is_locking());
    b.update(0);
    assert_eq!(b.tiles().len(), 4);
    assert_eq!(b.score(), 1);
    b.update(1);
    assert_eq!(b.tiles().len(), 2);
    assert_eq!(b.score(), 13);
}

#[test]
fn update_does_not_spawn_while_a_tile_animates() {
    let s = board_settings();
    let mut b = Board::with_tiles(&s, vec![placed(2, 3, 0), placed(4, 1, 0)], 0).unwrap();
    b.merge_from_right_to_left();
    assert!(b.has_pending_spawn());
    for _ in 0..7 {
        b.update(10);
        assert_eq!(b.tiles().len(), 2);
        assert!(b.has_pending_spawn());
    }
    b.update(10);
    assert_eq!(b.tiles().len(), 3);
    assert!(!b.has_pending_spawn());
}

#[test]
fn update_with_is_update_with_given_draws() {
    let s = board_settings();
    let mut b = Board::with_tiles(&s, vec![placed(2, 3, 0)], 0).unwrap();
    b.merge_from_right_to_left();
    b.update_with(80, 14, 30);
    assert_eq!(b.tiles(), &vec![placed(2, 0, 0), Tile::new(&s, 4, 3, 3)]);
    assert!(!b.has_pending_spawn());
    let mut quiet = Board::with_tiles(&s, vec![placed(2, 3, 0)], 0).unwrap();
    quiet.update_with(80, 14, 30);
    assert_eq!(quiet.tiles(), &vec![placed(2, 3, 0)]);
}

#[test]
fn pending_spawn_on_a_full_grid_is_dropped() {
    let s = Settings::new(2, 1, 1, 1, 1).unwrap();
    let mut b = Board::with_tiles(&s, vec![placed(2, 1, 0)], 0).unwrap();
    b.merge_from_right_to_left();
    b.update_with(1, 0, 1);
    assert_eq!(b.tiles().len(), 2);
    b.update_with(1, 0, 1);
    assert!(!b.is_locking());
    let before = b.tiles().clone();
    b.merge_from_left_to_right();
    if b.has_pending_spawn() {
        b.update_with(1, 0, 1);
        b.update_with(1, 0, 1);
        assert!(b.tiles().len() <= 2);
    } else {
        assert_eq!(b.tiles(), &before);
    }
}

#[test]
fn settled_board_has_one_tile_per_cell_after_update() {
    let s = board_settings();
    let mut b = Board::with_tiles(
        &s,
        vec![placed(2, 0, 0), placed(2, 0, 0), placed(2, 0, 0), placed(4, 1, 0), placed(4, 1, 0)],
        0,
    )
    .unwrap();
    for _ in 0..6 {
        b.update(60);
        if !b.is_locking() {
            assert!(cells_distinct(b.tiles()));
        }
    }
    assert!(!b.is_locking());
    assert!(cells_distinct(b.tiles()));
    assert_eq!(b.score(), 18);
    assert_eq!(b.tiles().len(), 2);
    assert_eq!(b.get_tile(0, 0).unwrap().value, 6);
    assert_eq!(b.get_tile(1, 0).unwrap().value, 8);
}

#[test]
fn score_never_decreases_and_count_stays_in_bounds() {
    let s = board_settings();
    let mut b = Board::new(&s);
    let mut last = b.score();
    let moves = [Direction::Left, Direction::Up, Direction::Right, Direction::Down];
    for round in 0..400 {
        let count = b.tiles().len();
        b.shift(moves[round % 4]);
        assert_eq!(b.tiles().len(), count);
        assert_eq!(b.score(), last);
        let resting: Vec<Tile> =
            b.tiles().iter().filter(|t| t.status == TileState::Static).cloned().collect();
        assert!(cells_distinct(&resting));
        assert!(b.score() >= last);
        last = b.score();
        for _ in 0..3 {
            assert!(b.can_update());
            b.update(100);
            assert!(b.score() >= last);
            last = b.score();
            assert!(b.tiles().len() <= 16);
            if !b.is_locking() {
                assert!(cells_distinct(b.tiles()));
            }
        }
        for t in b.tiles().iter() {
            assert!(t.value > 0 && t.value & (t.value - 1) == 0);
            assert!(s.contains(t.x, t.y));
        }
        let resting: Vec<Tile> =
            b.tiles().iter().filter(|t| t.status == TileState::Static).cloned().collect();
        assert!(cells_distinct(&resting));
        for t in b.tiles().iter() {
            assert!(b.get_tile_count(t.x, t.y) <= 2);
        }
    }
    assert!(last > 0);
}

#[test]
fn get_mut_tile_lends_the_first_tile_on_a_cell() {
    let mut tiles = vec![placed(2, 1, 0), placed(4, 2, 3), placed(8, 2, 3)];
    match get_mut_tile(&mut tiles, 2, 3) {
        Some(t) => {
            assert_eq!(*t, placed(4, 2, 3));
            t.value = 64;
        }
        None => panic!("the cell holds a tile"),
    }
    assert_eq!(tiles, vec![placed(2, 1, 0), placed(64, 2, 3), placed(8, 2, 3)]);
    assert!(get_mut_tile(&mut tiles, 0, 0).is_none());
    assert!(get_mut_tile(&mut tiles, -1, 7).is_none());
    assert_eq!(tiles, vec![placed(2, 1, 0), placed(64, 2, 3), placed(8, 2, 3)]);
}

#[test]
fn get_mut_next_tile_lends_the_tile_the_walk_meets() {
    let s = board_settings();
    let mut tiles = vec![placed(2, 3, 1), placed(4, 1, 1), placed(8, 1, 3)];
    match get_mut_next_tile(&mut tiles, &s, 0, 1, 1, 0) {
        Some(t) => {
            assert_eq!(*t, placed(4, 1, 1));
            t.start_moving(&s, 0, 1);
        }
        None => panic!("the walk meets a tile"),
    }
    assert_eq!(tiles, vec![placed(2, 3, 1), moving(4, 0, 1, 80), placed(8, 1, 3)]);
    match get_mut_next_tile(&mut tiles, &s, 1, 0, 0, 1) {
        Some(t) => assert_eq!(*t, placed(8, 1, 3)),
        None => panic!("the walk meets a tile"),
    }
    assert!(get_mut_next_tile(&mut tiles, &s, 3, 1, 1, 0).is_none());
    assert!(get_mut_next_tile(&mut tiles, &s, 3, 1, 0, -1).is_none());
    assert!(get_mut_next_tile(&mut tiles, &s, 0, 0, 1, 0).is_none());
}
