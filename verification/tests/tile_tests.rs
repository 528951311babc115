use rust_2048::{Settings, Tile, TileState};

fn tile_settings() -> Settings {
    Settings::new(4, 4, 100, 80, 60).unwrap()
}

#[test]
fn settings_accepts_positive_dimensions() {
    let s = Settings::new(4, 5, 1, 2, 3).unwrap();
    assert_eq!(s.grid_width, 4);
    assert_eq!(s.grid_height, 5);
    assert_eq!(s.spawn_time, 1);
    assert_eq!(s.slide_time, 2);
    assert_eq!(s.combine_time, 3);
    assert!(s.is_valid());
    assert_eq!(s.cell_count(), 20);
}

#[test]
fn settings_rejects_empty_grids() {
    assert!(Settings::new(0, 4, 1, 1, 1).is_none());
    assert!(Settings::new(4, 0, 1, 1, 1).is_none());
    assert!(Settings::new(-1, 4, 1, 1, 1).is_none());
    assert!(Settings::new(4, -3, 1, 1, 1).is_none());
}

#[test]
fn settings_rejects_grids_with_too_many_cells() {
    assert!(Settings::new(65536, 32768, 1, 1, 1).is_none());
    assert!(Settings::new(i32::MAX, 2, 1, 1, 1).is_none());
    assert!(Settings::new(i32::MAX, 1, 1, 1, 1).is_some());
    assert!(Settings::new(46340, 46340, 1, 1, 1).is_some());
    assert!(Settings::new(46341, 46341, 1, 1, 1).is_none());
}

#[test]
fn settings_contains_exactly_the_grid() {
    let s = Settings::new(3, 2, 1, 1, 1).unwrap();
    assert!(s.contains(0, 0));
    assert!(s.contains(2, 1));
    assert!(!s.contains(3, 0));
    assert!(!s.contains(0, 2));
    assert!(!s.contains(-1, 0));
    assert!(!s.contains(0, -1));
}

#[test]
fn new_tile_is_spawning() {
    let s = tile_settings();
    let t = Tile::new(&s, 2, 1, 3);
    assert_eq!(
        t,
        Tile { value: 2, x: 1, y: 3, status: TileState::Spawning, remaining: 100, combined: false }
    );
    assert!(!t.is_static());
}

#[test]
fn combined_tile_is_spawning_with_its_own_duration() {
    let s = tile_settings();
    let t = Tile::new_combined(&s, 8, 0, 2);
    assert_eq!(
        t,
        Tile { value: 8, x: 0, y: 2, status: TileState::Spawning, remaining: 60, combined: true }
    );
}

#[test]
fn advance_counts_down_and_settles_at_the_threshold() {
    let s = tile_settings();
    let mut t = Tile::new(&s, 2, 0, 0);
    t.advance(30);
    assert_eq!(t.status, TileState::Spawning);
    assert_eq!(t.remaining, 70);
    t.advance(69);
    assert_eq!(t.status, TileState::Spawning);
    assert_eq!(t.remaining, 1);
    t.advance(1);
    assert_eq!(t.status, TileState::Static);
    assert_eq!(t.remaining, 0);
    assert!(t.is_static());
}

#[test]
fn advance_past_the_threshold_settles() {
    let s = tile_settings();
    let mut t = Tile::new(&s, 4, 2, 2);
    t.advance(u32::MAX);
    assert_eq!(t.status, TileState::Static);
    assert_eq!(t.remaining, 0);
    assert_eq!(t.value, 4);
    assert_eq!((t.x, t.y), (2, 2));
}

#[test]
fn advance_by_zero_keeps_an_animating_tile() {
    let s = tile_settings();
    let mut t = Tile::new(&s, 2, 0, 0);
    t.advance(0);
    assert_eq!(t, Tile::new(&s, 2, 0, 0));
}

#[test]
fn advance_settles_a_tile_with_no_time_left() {
    let s = Settings::new(4, 4, 0, 0, 0).unwrap();
    let mut t = Tile::new(&s, 2, 0, 0);
    assert_eq!(t.status, TileState::Spawning);
    t.advance(0);
    assert_eq!(t.status, TileState::Static);
}

#[test]
fn advance_leaves_a_static_tile_alone() {
    let mut t =
        Tile { value: 16, x: 3, y: 1, status: TileState::Static, remaining: 0, combined: true };
    let before = t;
    t.advance(0);
    assert_eq!(t, before);
    t.advance(500);
    assert_eq!(t, before);
}

#[test]
fn advance_in_two_steps_equals_one_step() {
    let s = tile_settings();
    for (a, b) in [(0u32, 0u32), (10, 20), (99, 1), (100, 0), (40, 70), (0, 100), (1, 98)] {
        let mut two = Tile::new(&s, 2, 1, 1);
        two.advance(a);
        two.advance(b);
        let mut one = Tile::new(&s, 2, 1, 1);
        one.advance(a + b);
        assert_eq!(two, one);
    }
}

#[test]
fn start_moving_sets_target_and_slide_time() {
    let s = tile_settings();
    let mut t =
        Tile { value: 8, x: 3, y: 1, status: TileState::Static, remaining: 0, combined: true };
    t.start_moving(&s, 0, 1);
    assert_eq!(
        t,
        Tile { value: 8, x: 0, y: 1, status: TileState::Sliding, remaining: 80, combined: true }
    );
    t.advance(80);
    assert_eq!(t.status, TileState::Static);
    assert_eq!((t.x, t.y), (0, 1));
}
