//! Directional moves: every line of the grid is compacted towards one wall,
//! and a tile that meets an equal tile which has not merged in this move
//! travels onto that tile's cell.

use vstd::prelude::*;
use crate::grid::{
    all_wf,
    distinct_cells,
    find_from,
    first_from,
    lemma_first_from,
    occupied,
    same_cell,
    value_at,
};
use crate::settings::Settings;
use crate::tile::Tile;

verus! {

/// The wall towards which the tiles travel.
#[derive(Clone, Copy, PartialEq, Eq, Structural, Debug)]
pub enum Direction {
    /// Towards row `0`.
    Up,
    /// Towards the last row.
    Down,
    /// Towards column `0`.
    Left,
    /// Towards the last column.
    Right,
}

impl Direction {
    /// The tiles travel along rows.
    pub open spec fn horizontal(self) -> bool {
        self == Direction::Left || self == Direction::Right
    }
}

/// Number of lines that a move in direction `dir` compacts.
pub open spec fn lines(settings: Settings, dir: Direction) -> int {
    if dir.horizontal() {
        settings.grid_height as int
    } else {
        settings.grid_width as int
    }
}

/// Number of cells of each such line.
pub open spec fn span(settings: Settings, dir: Direction) -> int {
    if dir.horizontal() {
        settings.grid_width as int
    } else {
        settings.grid_height as int
    }
}

/// The line on which a tile travels.
pub open spec fn line_of(dir: Direction, t: Tile) -> int {
    if dir.horizontal() {
        t.y as int
    } else {
        t.x as int
    }
}

/// The distance of a tile from the wall, in cells.
pub open spec fn pos_of(settings: Settings, dir: Direction, t: Tile) -> int {
    match dir {
        Direction::Up => t.y as int,
        Direction::Down => settings.grid_height - 1 - t.y,
        Direction::Left => t.x as int,
        Direction::Right => settings.grid_width - 1 - t.x,
    }
}

/// The cell of line `line` at distance `p` from the wall.
pub open spec fn cell(settings: Settings, dir: Direction, line: int, p: int) -> (int, int) {
    match dir {
        Direction::Up => (line, p),
        Direction::Down => (line, settings.grid_height - 1 - p),
        Direction::Left => (p, line),
        Direction::Right => (settings.grid_width - 1 - p, line),
    }
}

/// The values along line `line`, nearest to the wall first, `0` standing for
/// a free cell.
pub open spec fn row(tiles: Seq<Tile>, settings: Settings, dir: Direction, line: int) -> Seq<int> {
    Seq::new(
        span(settings, dir) as nat,
        |p: int| value_at(tiles, cell(settings, dir, line, p).0, cell(settings, dir, line, p).1),
    )
}

/// The state of a line after the tiles on its first `p` cells have been
/// placed: how many cells next to the wall are taken, and the value of the
/// outermost placed tile if it may still receive a partner (`0` if not).
pub open spec fn scan(row: Seq<int>, p: int) -> (int, int)
    decreases p,
{
    if p <= 0 {
        (0, 0)
    } else {
        let (used, open) = scan(row, p - 1);
        let v = row[p - 1];
        if v == 0 {
            (used, open)
        } else if v == open {
            (used, 0)
        } else {
            (used + 1, v)
        }
    }
}

/// The distance from the wall at which the tile on cell `p` of a line comes
/// to rest: on the outermost placed tile when that one has the same value
/// and has not merged yet, else on the first free cell past it.
pub open spec fn landing(row: Seq<int>, p: int) -> int {
    let (used, open) = scan(row, p);
    if row[p] == open {
        used - 1
    } else {
        used
    }
}

/// Tile `k` after the move: unchanged if it stays where it is, else sliding
/// to the cell where it comes to rest.
pub open spec fn moved(tiles: Seq<Tile>, settings: Settings, dir: Direction, k: int) -> Tile {
    let t = tiles[k];
    let line = line_of(dir, t);
    let p = pos_of(settings, dir, t);
    let d = landing(row(tiles, settings, dir, line), p);
    if d == p {
        t
    } else {
        let c = cell(settings, dir, line, d);
        t.sliding_to(settings, c.0 as i32, c.1 as i32)
    }
}

/// The collection after a move in direction `dir`.
pub open spec fn slid(tiles: Seq<Tile>, settings: Settings, dir: Direction) -> Seq<Tile> {
    Seq::new(tiles.len(), |k: int| moved(tiles, settings, dir, k))
}

/// A tile on the grid lies on one of the lines, at a distance from the wall
/// within the line, and on the cell that these two name.
pub proof fn lemma_tile_on_line(settings: Settings, dir: Direction, t: Tile)
    requires
        settings.in_bounds(t.x as int, t.y as int),
    ensures
        0 <= line_of(dir, t) < lines(settings, dir),
        0 <= pos_of(settings, dir, t) < span(settings, dir),
        cell(settings, dir, line_of(dir, t), pos_of(settings, dir, t)) == (t.x as int, t.y as int),
{
}

/// A cell of a line lies on the grid, and a tile on it has that line and
/// that distance from the wall.
pub proof fn lemma_cell_on_grid(settings: Settings, dir: Direction, line: int, p: int, t: Tile)
    requires
        0 <= line < lines(settings, dir),
        0 <= p < span(settings, dir),
    ensures
        settings.in_bounds(cell(settings, dir, line, p).0, cell(settings, dir, line, p).1),
        t.at(cell(settings, dir, line, p).0, cell(settings, dir, line, p).1) <==> line_of(dir, t)
            == line && pos_of(settings, dir, t) == p,
{
}

/// After `p` cells at most `p` cells are taken, and a tile that may still
/// receive a partner occupies one of them.
pub proof fn lemma_scan_bounds(row: Seq<int>, p: int)
    requires
        0 <= p <= row.len(),
        forall|i: int| 0 <= i < row.len() ==> row[i] >= 0,
    ensures
        0 <= scan(row, p).0 <= p,
        scan(row, p).1 >= 0,
        scan(row, p).1 != 0 ==> scan(row, p).0 >= 1,
    decreases p,
{
    if p > 0 {
        lemma_scan_bounds(row, p - 1);
    }
}

/// The values along a line are those of the tiles on it, and never negative.
pub proof fn lemma_row(tiles: Seq<Tile>, settings: Settings, dir: Direction, line: int)
    requires
        settings.wf(),
        all_wf(tiles, settings),
    ensures
        row(tiles, settings, dir, line).len() == span(settings, dir),
        forall|i: int|
            0 <= i < span(settings, dir) ==> #[trigger] row(tiles, settings, dir, line)[i] >= 0,
{
    assert forall|i: int| 0 <= i < span(settings, dir) implies #[trigger] row(
        tiles,
        settings,
        dir,
        line,
    )[i] >= 0 by {
        let c = cell(settings, dir, line, i);
        lemma_first_from(tiles, 0, c.0, c.1);
        if occupied(tiles, c.0, c.1) {
            assert(tiles[first_from(tiles, 0, c.0, c.1)].wf(settings));
        }
    }
}

/// A tile never travels away from the wall: it comes to rest on a cell of
/// its line at most as far from the wall as the one it left.
pub proof fn lemma_landing(tiles: Seq<Tile>, settings: Settings, dir: Direction, k: int)
    requires
        settings.wf(),
        all_wf(tiles, settings),
        0 <= k < tiles.len(),
    ensures
        0 <= landing(
            row(tiles, settings, dir, line_of(dir, tiles[k])),
            pos_of(settings, dir, tiles[k]),
        ) <= pos_of(settings, dir, tiles[k]) < span(settings, dir),
        moved(tiles, settings, dir, k).wf(settings),
        moved(tiles, settings, dir, k).value == tiles[k].value,
        line_of(dir, moved(tiles, settings, dir, k)) == line_of(dir, tiles[k]),
        pos_of(settings, dir, moved(tiles, settings, dir, k)) == landing(
            row(tiles, settings, dir, line_of(dir, tiles[k])),
            pos_of(settings, dir, tiles[k]),
        ),
{
    let t = tiles[k];
    assert(t.wf(settings));
    let line = line_of(dir, t);
    let p = pos_of(settings, dir, t);
    lemma_tile_on_line(settings, dir, t);
    lemma_row(tiles, settings, dir, line);
    let r = row(tiles, settings, dir, line);
    lemma_scan_bounds(r, p);
    lemma_first_from(tiles, 0, t.x as int, t.y as int);
    assert(t.at(t.x as int, t.y as int));
    let f = first_from(tiles, 0, t.x as int, t.y as int);
    assert(tiles[f].wf(settings));
    assert(r[p] == value_at(tiles, t.x as int, t.y as int));
    let d = landing(r, p);
    lemma_cell_on_grid(settings, dir, line, d, t);
    let c = cell(settings, dir, line, d);
    lemma_cell_on_grid(settings, dir, line, d, t.sliding_to(settings, c.0 as i32, c.1 as i32));
}

/// A move keeps the number of tiles, their values, and keeps them on the
/// grid.
pub proof fn lemma_slid_wf(tiles: Seq<Tile>, settings: Settings, dir: Direction)
    requires
        settings.wf(),
        all_wf(tiles, settings),
    ensures
        all_wf(slid(tiles, settings, dir), settings),
        slid(tiles, settings, dir).len() == tiles.len(),
        forall|k: int|
            0 <= k < tiles.len() ==> (#[trigger] slid(tiles, settings, dir)[k]).value
                == tiles[k].value,
{
    assert forall|k: int| 0 <= k < tiles.len() implies (#[trigger] slid(
        tiles,
        settings,
        dir,
    )[k]).wf(settings) && slid(tiles, settings, dir)[k].value == tiles[k].value by {
        lemma_landing(tiles, settings, dir, k);
    }
}

/// Number of lines that a move in direction `dir` compacts.
pub fn line_count(settings: &Settings, dir: Direction) -> (r: i32)
    ensures
        r == lines(*settings, dir),
{
    match dir {
        Direction::Left | Direction::Right => settings.grid_height,
        Direction::Up | Direction::Down => settings.grid_width,
    }
}

/// Number of cells of each such line.
pub fn line_span(settings: &Settings, dir: Direction) -> (r: i32)
    ensures
        r == span(*settings, dir),
{
    match dir {
        Direction::Left | Direction::Right => settings.grid_width,
        Direction::Up | Direction::Down => settings.grid_height,
    }
}

/// The cell of line `line` at distance `p` from the wall.
pub fn cell_of(settings: &Settings, dir: Direction, line: i32, p: i32) -> (r: (i32, i32))
    requires
        0 <= line < lines(*settings, dir),
        0 <= p < span(*settings, dir),
    ensures
        (r.0 as int, r.1 as int) == cell(*settings, dir, line as int, p as int),
        settings.in_bounds(r.0 as int, r.1 as int),
{
    match dir {
        Direction::Up => (line, p),
        Direction::Down => (line, settings.grid_height - 1 - p),
        Direction::Left => (p, line),
        Direction::Right => (settings.grid_width - 1 - p, line),
    }
}

/// A tile that line `l` and the cells before `p` on it have dealt with.
pub open spec fn visited(settings: Settings, dir: Direction, t: Tile, l: int, p: int) -> bool {
    line_of(dir, t) < l || (line_of(dir, t) == l && pos_of(settings, dir, t) < p)
}

/// Moves the tiles in direction `dir`. Returns the collection after the move
/// and whether any tile left its cell.
pub fn slide(settings: &Settings, tiles: &Vec<Tile>, dir: Direction) -> (r: (Vec<Tile>, bool))
    requires
        settings.wf(),
        all_wf(tiles@, *settings),
        distinct_cells(tiles@),
    ensures
        r.0@ == slid(tiles@, *settings, dir),
        r.1 == (r.0@ != tiles@),
{
    let n = tiles.len();
    let mut next: Vec<Tile> = Vec::new();
    while next.len() < n
        invariant
            n == tiles.len(),
            next.len() <= n,
            forall|k: int| 0 <= k < next.len() ==> next[k] == tiles[k],
        decreases n - next.len(),
    {
        next.push(tiles[next.len()]);
    }
    let line_total = line_count(settings, dir);
    let cells = line_span(settings, dir);
    let mut changed = false;
    let mut l: i32 = 0;
    while l < line_total
        invariant
            settings.wf(),
            all_wf(tiles@, *settings),
            distinct_cells(tiles@),
            n == tiles.len(),
            next.len() == n,
            line_total == lines(*settings, dir),
            cells == span(*settings, dir),
            0 <= l <= line_total,
            forall|k: int|
                0 <= k < n ==> #[trigger] next[k] == if visited(
                    *settings,
                    dir,
                    tiles[k],
                    l as int,
                    0,
                ) {
                    moved(tiles@, *settings, dir, k)
                } else {
                    tiles[k]
                },
            changed <==> exists|k: int| 0 <= k < n && #[trigger] next[k] != tiles[k],
        decreases line_total - l,
    {
        let mut used: i32 = 0;
        let mut open: i32 = 0;
        let mut p: i32 = 0;
        let ghost line = row(tiles@, *settings, dir, l as int);
        proof {
            lemma_row(tiles@, *settings, dir, l as int);
        }
        while p < cells
            invariant
                settings.wf(),
                all_wf(tiles@, *settings),
                distinct_cells(tiles@),
                n == tiles.len(),
                next.len() == n,
                line_total == lines(*settings, dir),
                cells == span(*settings, dir),
                0 <= l < line_total,
                0 <= p <= cells,
                line == row(tiles@, *settings, dir, l as int),
                line.len() == cells,
                forall|i: int| 0 <= i < line.len() ==> line[i] >= 0,
                (used as int, open as int) == scan(line, p as int),
                forall|k: int|
                    0 <= k < n ==> #[trigger] next[k] == if visited(
                        *settings,
                        dir,
                        tiles[k],
                        l as int,
                        p as int,
                    ) {
                        moved(tiles@, *settings, dir, k)
                    } else {
                        tiles[k]
                    },
                changed <==> exists|k: int| 0 <= k < n && #[trigger] next[k] != tiles[k],
            decreases cells - p,
        {
            let (x, y) = cell_of(settings, dir, l, p);
            let k = find_from(tiles, 0, x, y);
            proof {
                lemma_first_from(tiles@, 0, x as int, y as int);
                lemma_scan_bounds(line, p as int);
                lemma_scan_bounds(line, p as int + 1);
                assert(line[p as int] == value_at(tiles@, x as int, y as int));
                assert forall|m: int| 0 <= m < n implies (#[trigger] tiles@[m]).at(
                    x as int,
                    y as int,
                ) == (m == k) by {
                    if tiles@[m].at(x as int, y as int) && m != k {
                        assert(same_cell(tiles@[m], tiles@[k as int]));
                    }
                }
                assert forall|m: int| 0 <= m < n implies visited(
                    *settings,
                    dir,
                    #[trigger] tiles@[m],
                    l as int,
                    p as int + 1,
                ) == (visited(*settings, dir, tiles@[m], l as int, p as int) || m == k) by {
                    lemma_cell_on_grid(*settings, dir, l as int, p as int, tiles@[m]);
                }
            }
            if k < n {
                let v = tiles[k].value;
                assert(tiles@[k as int].wf(*settings));
                let d: i32;
                if v == open {
                    d = used - 1;
                    open = 0;
                } else {
                    d = used;
                    used = used + 1;
                    open = v;
                }
                proof {
                    lemma_cell_on_grid(*settings, dir, l as int, p as int, tiles@[k as int]);
                    assert(d == landing(line, p as int));
                }
                if d != p {
                    let (dx, dy) = cell_of(settings, dir, l, d);
                    let mut t = tiles[k];
                    t.start_moving(settings, dx, dy);
                    proof {
                        lemma_cell_on_grid(*settings, dir, l as int, d as int, t);
                        assert(t != tiles@[k as int]);
                    }
                    next.set(k, t);
                    changed = true;
                    assert(next[k as int] != tiles[k as int]);
                }
            }
            p += 1;
        }
        proof {
            assert forall|m: int| 0 <= m < n implies visited(
                *settings,
                dir,
                #[trigger] tiles@[m],
                l as int,
                cells as int,
            ) == visited(*settings, dir, tiles@[m], l as int + 1, 0) by {
                assert(tiles@[m].wf(*settings));
                lemma_tile_on_line(*settings, dir, tiles@[m]);
            }
        }
        l += 1;
    }
    proof {
        assert forall|m: int| 0 <= m < n implies next@[m] == moved(tiles@, *settings, dir, m) by {
            assert(tiles@[m].wf(*settings));
            lemma_tile_on_line(*settings, dir, tiles@[m]);
        }
        assert(next@ =~= slid(tiles@, *settings, dir));
        if !changed {
            assert(next@ =~= tiles@);
        }
    }
    (next, changed)
}

} // verus!
