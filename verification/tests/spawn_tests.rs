use rust_2048::spawn::place;
use rust_2048::{Board, Settings, Tile, TileState};

fn spawn_settings() -> Settings {
    Settings::new(4, 4, 100, 80, 60).unwrap()
}

fn still(value: i32, x: i32, y: i32) -> Tile {
    Tile { value, x, y, status: TileState::Static, remaining: 0, combined: false }
}

fn distinct_cells(tiles: &Vec<Tile>) -> bool {
    for i in 0..tiles.len() {
        for j in i + 1..tiles.len() {
            if tiles[i].x == tiles[j].x && tiles[i].y == tiles[j].y {
                return false;
            }
        }
    }
    true
}

#[test]
fn two_spawns_on_an_empty_grid() {
    let s = spawn_settings();
    let mut b = Board::with_tiles(&s, Vec::new(), 0).unwrap();
    b.generate_tile();
    b.generate_tile();
    assert_eq!(b.tiles().len(), 2);
    for t in b.tiles().iter() {
        assert!(t.value == 2 || t.value == 4);
        assert!(s.contains(t.x, t.y));
        assert_eq!(t.status, TileState::Spawning);
        assert_eq!(t.remaining, 100);
        assert!(!t.combined);
    }
    assert!(distinct_cells(b.tiles()));
    assert_eq!(b.score(), 0);
}

#[test]
fn new_board_holds_two_spawned_tiles() {
    let s = spawn_settings();
    for _ in 0..50 {
        let b = Board::new(&s);
        assert_eq!(b.tiles().len(), 2);
        assert!(distinct_cells(b.tiles()));
        for t in b.tiles().iter() {
            assert!(t.value == 2 || t.value == 4);
            assert!(s.contains(t.x, t.y));
            assert_eq!(t.status, TileState::Spawning);
        }
        assert_eq!(b.score(), 0);
        assert!(!b.has_pending_spawn());
        assert!(b.is_locking());
        assert_eq!(b.settings().grid_width, 4);
        assert_eq!(b.settings().grid_height, 4);
    }
}

#[test]
fn new_board_on_a_single_cell_holds_one_tile() {
    let s = Settings::new(1, 1, 5, 5, 5).unwrap();
    let b = Board::new(&s);
    assert_eq!(b.tiles().len(), 1);
    assert_eq!((b.tiles()[0].x, b.tiles()[0].y), (0, 0));
}

#[test]
fn spawning_fills_the_grid_and_then_stops() {
    let s = spawn_settings();
    let mut b = Board::with_tiles(&s, Vec::new(), 0).unwrap();
    for n in 1..=16 {
        b.generate_tile();
        assert_eq!(b.tiles().len(), n);
        assert!(distinct_cells(b.tiles()));
    }
    let full = b.tiles().clone();
    b.generate_tile();
    assert_eq!(b.tiles(), &full);
    b.spawn_with(3, 0);
    assert_eq!(b.tiles(), &full);
}

#[test]
fn spawn_on_a_full_grid_changes_nothing() {
    let s = Settings::new(2, 1, 1, 1, 1).unwrap();
    let tiles = vec![still(2, 0, 0), still(4, 1, 0)];
    let mut b = Board::with_tiles(&s, tiles.clone(), 9).unwrap();
    b.generate_tile();
    assert_eq!(b.tiles(), &tiles);
    assert_eq!(b.score(), 9);
}

#[test]
fn spawn_counts_tiles_not_cells() {
    let s = Settings::new(2, 1, 1, 1, 1).unwrap();
    let tiles = vec![still(2, 0, 0), still(2, 0, 0)];
    let mut b = Board::with_tiles(&s, tiles.clone(), 0).unwrap();
    b.generate_tile();
    assert_eq!(b.tiles(), &tiles);
}

#[test]
fn pick_selects_among_the_free_cells_row_by_row() {
    let s = Settings::new(2, 2, 7, 1, 1).unwrap();
    let start = vec![still(2, 0, 0), still(2, 1, 1)];
    let spawned = |value, x, y| Tile {
        value,
        x,
        y,
        status: TileState::Spawning,
        remaining: 7,
        combined: false,
    };
    let mut b = Board::with_tiles(&s, start.clone(), 0).unwrap();
    b.spawn_with(0, 1);
    assert_eq!(b.tiles()[2], spawned(2, 1, 0));
    let mut b = Board::with_tiles(&s, start.clone(), 0).unwrap();
    b.spawn_with(1, 1);
    assert_eq!(b.tiles()[2], spawned(2, 0, 1));
    let mut b = Board::with_tiles(&s, start.clone(), 0).unwrap();
    b.spawn_with(5, 20);
    assert_eq!(b.tiles()[2], spawned(4, 0, 1));
    let mut b = Board::with_tiles(&s, start.clone(), 0).unwrap();
    b.spawn_with(u32::MAX, u32::MAX);
    assert_eq!(b.tiles()[2], spawned(2, 0, 1));
    assert_eq!(&b.tiles()[..2], &start[..]);
}

#[test]
fn roll_decides_the_value() {
    let s = spawn_settings();
    for roll in [0u32, 10, 20, 4294967290] {
        let mut tiles = Vec::new();
        place(&s, &mut tiles, 0, roll);
        assert_eq!(tiles, vec![Tile::new(&s, 4, 0, 0)]);
    }
    for roll in [1u32, 2, 9, 11, 19, 4294967295] {
        let mut tiles = Vec::new();
        place(&s, &mut tiles, 0, roll);
        assert_eq!(tiles, vec![Tile::new(&s, 2, 0, 0)]);
    }
}

#[test]
fn pick_walks_the_rows_of_an_empty_grid() {
    let s = Settings::new(3, 2, 1, 1, 1).unwrap();
    let expected = [(0, 0), (1, 0), (2, 0), (0, 1), (1, 1), (2, 1), (0, 0)];
    for (pick, cell) in expected.iter().enumerate() {
        let mut tiles = Vec::new();
        place(&s, &mut tiles, pick as u32, 1);
        assert_eq!((tiles[0].x, tiles[0].y), *cell);
    }
}

#[test]
fn spawn_avoids_animating_tiles_too() {
    let s = Settings::new(2, 1, 1, 1, 1).unwrap();
    let moving =
        Tile { value: 2, x: 1, y: 0, status: TileState::Sliding, remaining: 1, combined: false };
    for pick in 0..10 {
        let mut b = Board::with_tiles(&s, vec![moving], 0).unwrap();
        b.spawn_with(pick, 3);
        assert_eq!((b.tiles()[1].x, b.tiles()[1].y), (0, 0));
    }
}

#[test]
fn random_spawns_reach_different_cells() {
    let s = spawn_settings();
    let mut seen = Vec::new();
    for _ in 0..200 {
        let mut b = Board::with_tiles(&s, Vec::new(), 0).unwrap();
        b.generate_tile();
        let at = (b.tiles()[0].x, b.tiles()[0].y);
        if !seen.contains(&at) {
            seen.push(at);
        }
    }
    assert!(seen.len() > 1);
}

#[test]
fn random_spawns_find_the_last_free_cell() {
    let s = Settings::new(3, 3, 1, 1, 1).unwrap();
    let mut tiles = Vec::new();
    for y in 0..3 {
        for x in 0..3 {
            if (x, y) != (1, 2) {
                tiles.push(still(2, x, y));
            }
        }
    }
    for _ in 0..20 {
        let mut b = Board::with_tiles(&s, tiles.clone(), 0).unwrap();
        b.generate_tile();
        assert_eq!(b.tiles().len(), 9);
        assert_eq!((b.tiles()[8].x, b.tiles()[8].y), (1, 2));
    }
}
