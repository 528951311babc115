//! What a move guarantees: tiles keep their order along a line, two tiles
//! come to rest on one cell only if they are neighbours of equal value, and
//! no cell receives a third tile.

use vstd::prelude::*;
use crate::grid::{
    all_wf,
    distinct_cells,
    first_from,
    lemma_first_from,
    occupied,
    same_cell,
    value_at,
};
use crate::settings::Settings;
use crate::slide::{
    cell,
    landing,
    lemma_cell_on_grid,
    lemma_landing,
    lemma_row,
    lemma_scan_bounds,
    lemma_tile_on_line,
    line_of,
    moved,
    pos_of,
    row,
    scan,
    slid,
    span,
    Direction,
};
use crate::tile::Tile;

verus! {

/// The values of a line are not negative.
pub open spec fn valid_row(row: Seq<int>) -> bool {
    forall|i: int| 0 <= i < row.len() ==> row[i] >= 0
}

/// The number of cells taken never shrinks while a line is scanned.
pub proof fn lemma_used_grows(row: Seq<int>, p: int, q: int)
    requires
        0 <= p <= q <= row.len(),
    ensures
        scan(row, p).0 <= scan(row, q).0,
    decreases q,
{
    if p < q {
        lemma_used_grows(row, p, q - 1);
    }
}

/// What holds of the scan of a line past a tile on cell `p`: the cell where
/// that tile came to rest is taken; and while no further cell is taken and
/// the outermost tile may still receive a partner, that tile is the one from
/// `p`, which did not itself join another tile, and only free cells follow
/// `p`.
proof fn lemma_scan_after(row: Seq<int>, p: int, q: int)
    requires
        valid_row(row),
        0 <= p < q <= row.len(),
        row[p] != 0,
    ensures
        scan(row, q).0 >= landing(row, p) + 1,
        scan(row, q).0 == landing(row, p) + 1 && scan(row, q).1 != 0 ==> {
            &&& scan(row, q).1 == row[p]
            &&& landing(row, p) == scan(row, p).0
            &&& forall|m: int| p < m < q ==> row[m] == 0
        },
    decreases q,
{
    if q > p + 1 {
        lemma_scan_after(row, p, q - 1);
    }
}

/// Two tiles of a line keep their order: the one nearer to the wall comes to
/// rest no farther from it than the other. They come to rest on the same
/// cell only if they have the same value, no tile lies between them, and
/// the nearer one has not itself joined another tile.
pub proof fn lemma_meet(row: Seq<int>, p: int, q: int)
    requires
        valid_row(row),
        0 <= p < q < row.len(),
        row[p] != 0,
        row[q] != 0,
    ensures
        landing(row, p) <= landing(row, q),
        landing(row, p) == landing(row, q) ==> {
            &&& row[p] == row[q]
            &&& forall|m: int| p < m < q ==> row[m] == 0
            &&& landing(row, p) == scan(row, p).0
            &&& landing(row, q) == scan(row, q).0 - 1
        },
{
    lemma_scan_after(row, p, q);
}

/// No cell receives three tiles of a line.
pub proof fn lemma_no_third(row: Seq<int>, p: int, q: int, r: int)
    requires
        valid_row(row),
        0 <= p < q < r < row.len(),
        row[p] != 0,
        row[q] != 0,
        row[r] != 0,
    ensures
        landing(row, p) < landing(row, r),
{
    lemma_meet(row, p, q);
    lemma_meet(row, q, r);
}

/// Some tile on the first `n` cells of a line comes to rest at distance `d`
/// from the wall.
pub open spec fn reached(row: Seq<int>, n: int, d: int) -> bool {
    exists|p: int| 0 <= p < n && row[p] != 0 && #[trigger] landing(row, p) == d
}

/// A move leaves no gap: every cell between the wall and the outermost
/// cell taken is where some tile of the line comes to rest, and no tile
/// comes to rest beyond.
pub proof fn lemma_packed(row: Seq<int>, n: int)
    requires
        valid_row(row),
        0 <= n <= row.len(),
    ensures
        forall|p: int|
            0 <= p < n && row[p] != 0 ==> 0 <= #[trigger] landing(row, p) < scan(row, n).0,
        forall|d: int| 0 <= d < scan(row, n).0 ==> #[trigger] reached(row, n, d),
    decreases n,
{
    if n > 0 {
        lemma_packed(row, n - 1);
        lemma_used_grows(row, n - 1, n);
        let last = n - 1;
        assert forall|d: int| 0 <= d < scan(row, n).0 implies #[trigger] reached(row, n, d) by {
            if d < scan(row, last).0 {
                assert(reached(row, last, d));
                let p = choose|p: int|
                    0 <= p < last && row[p] != 0 && #[trigger] landing(row, p) == d;
                assert(0 <= p < n && row[p] != 0 && landing(row, p) == d);
            } else {
                assert(row[last] != 0 && landing(row, last) == d);
            }
        }
        assert forall|p: int| 0 <= p < n && row[p] != 0 implies 0 <= #[trigger] landing(row, p)
            < scan(row, n).0 by {
            if p == last {
                lemma_scan_bounds(row, last);
            }
        }
    }
}

/// A line whose tiles are packed against the wall, no two neighbours of
/// them equal, does not move.
pub proof fn lemma_still(row: Seq<int>, m: int, n: int)
    requires
        valid_row(row),
        0 <= n <= m <= row.len(),
        forall|p: int| 0 <= p < m ==> row[p] != 0,
        forall|p: int| 0 < p < m ==> row[p - 1] != #[trigger] row[p],
    ensures
        scan(row, n) == (n, if n == 0 {
            0
        } else {
            row[n - 1]
        }),
        forall|p: int| 0 <= p < n ==> #[trigger] landing(row, p) == p,
    decreases n,
{
    if n > 0 {
        lemma_still(row, m, n - 1);
        let last = n - 1;
        if last > 0 {
            assert(row[last - 1] != row[last]);
        }
        assert(landing(row, last) == last);
    }
}

/// On a board where no two tiles share a cell, the value of a line at the
/// place of a tile is the value of that tile.
pub proof fn lemma_row_holds_tile(tiles: Seq<Tile>, settings: Settings, dir: Direction, k: int)
    requires
        settings.wf(),
        all_wf(tiles, settings),
        distinct_cells(tiles),
        0 <= k < tiles.len(),
    ensures
        valid_row(row(tiles, settings, dir, line_of(dir, tiles[k]))),
        0 <= pos_of(settings, dir, tiles[k]) < row(
            tiles,
            settings,
            dir,
            line_of(dir, tiles[k]),
        ).len(),
        row(tiles, settings, dir, line_of(dir, tiles[k]))[pos_of(settings, dir, tiles[k])]
            == tiles[k].value,
        tiles[k].value > 0,
{
    let t = tiles[k];
    assert(t.wf(settings));
    lemma_tile_on_line(settings, dir, t);
    lemma_row(tiles, settings, dir, line_of(dir, t));
    lemma_first_from(tiles, 0, t.x as int, t.y as int);
    assert(t.at(t.x as int, t.y as int));
    let f = first_from(tiles, 0, t.x as int, t.y as int);
    if f != k {
        assert(same_cell(tiles[f], tiles[k]));
    }
    assert(value_at(tiles, t.x as int, t.y as int) == t.value);
}

/// Two tiles share a cell after a move exactly when they travelled on the
/// same line and came to rest at the same distance from the wall.
proof fn lemma_same_cell_after(
    tiles: Seq<Tile>,
    settings: Settings,
    dir: Direction,
    a: int,
    b: int,
)
    requires
        settings.wf(),
        all_wf(tiles, settings),
        0 <= a < tiles.len(),
        0 <= b < tiles.len(),
    ensures
        same_cell(slid(tiles, settings, dir)[a], slid(tiles, settings, dir)[b]) <==> line_of(
            dir,
            tiles[a],
        ) == line_of(dir, tiles[b]) && landing(
            row(tiles, settings, dir, line_of(dir, tiles[a])),
            pos_of(settings, dir, tiles[a]),
        ) == landing(
            row(tiles, settings, dir, line_of(dir, tiles[b])),
            pos_of(settings, dir, tiles[b]),
        ),
        same_cell(tiles[a], tiles[b]) <==> line_of(dir, tiles[a]) == line_of(dir, tiles[b])
            && pos_of(settings, dir, tiles[a]) == pos_of(settings, dir, tiles[b]),
{
    lemma_landing(tiles, settings, dir, a);
    lemma_landing(tiles, settings, dir, b);
    let ma = moved(tiles, settings, dir, a);
    let mb = moved(tiles, settings, dir, b);
    assert(ma.wf(settings) && mb.wf(settings));
    assert(tiles[a].wf(settings) && tiles[b].wf(settings));
    lemma_tile_on_line(settings, dir, ma);
    lemma_tile_on_line(settings, dir, mb);
    lemma_tile_on_line(settings, dir, tiles[a]);
    lemma_tile_on_line(settings, dir, tiles[b]);
}

/// Each tile merges at most once per move, and only with an equal tile: two
/// tiles that a move brings onto one cell have the same value.
pub proof fn lemma_slid_meet(
    tiles: Seq<Tile>,
    settings: Settings,
    dir: Direction,
    a: int,
    b: int,
)
    requires
        settings.wf(),
        all_wf(tiles, settings),
        distinct_cells(tiles),
        0 <= a < tiles.len(),
        0 <= b < tiles.len(),
        a != b,
        same_cell(slid(tiles, settings, dir)[a], slid(tiles, settings, dir)[b]),
    ensures
        tiles[a].value == tiles[b].value,
{
    lemma_same_cell_after(tiles, settings, dir, a, b);
    lemma_row_holds_tile(tiles, settings, dir, a);
    lemma_row_holds_tile(tiles, settings, dir, b);
    let line = row(tiles, settings, dir, line_of(dir, tiles[a]));
    let pa = pos_of(settings, dir, tiles[a]);
    let pb = pos_of(settings, dir, tiles[b]);
    if a < b {
        assert(!same_cell(tiles[a], tiles[b]));
    } else {
        assert(!same_cell(tiles[b], tiles[a]));
    }
    if pa < pb {
        lemma_meet(line, pa, pb);
    } else {
        lemma_meet(line, pb, pa);
    }
}

/// Each tile merges at most once per move: no move brings three tiles onto
/// one cell.
pub proof fn lemma_slid_no_third(
    tiles: Seq<Tile>,
    settings: Settings,
    dir: Direction,
    a: int,
    b: int,
    c: int,
)
    requires
        settings.wf(),
        all_wf(tiles, settings),
        distinct_cells(tiles),
        0 <= a < b < c < tiles.len(),
    ensures
        !(same_cell(slid(tiles, settings, dir)[a], slid(tiles, settings, dir)[b]) && same_cell(
            slid(tiles, settings, dir)[b],
            slid(tiles, settings, dir)[c],
        )),
{
    lemma_same_cell_after(tiles, settings, dir, a, b);
    lemma_same_cell_after(tiles, settings, dir, b, c);
    lemma_same_cell_after(tiles, settings, dir, a, c);
    lemma_row_holds_tile(tiles, settings, dir, a);
    lemma_row_holds_tile(tiles, settings, dir, b);
    lemma_row_holds_tile(tiles, settings, dir, c);
    assert(!same_cell(tiles[a], tiles[b]));
    assert(!same_cell(tiles[b], tiles[c]));
    assert(!same_cell(tiles[a], tiles[c]));
    if line_of(dir, tiles[a]) == line_of(dir, tiles[b]) && line_of(dir, tiles[b]) == line_of(
        dir,
        tiles[c],
    ) {
        let line = row(tiles, settings, dir, line_of(dir, tiles[a]));
        let pa = pos_of(settings, dir, tiles[a]);
        let pb = pos_of(settings, dir, tiles[b]);
        let pc = pos_of(settings, dir, tiles[c]);
        if pa < pb && pb < pc {
            lemma_no_third(line, pa, pb, pc);
        } else if pa < pc && pc < pb {
            lemma_no_third(line, pa, pc, pb);
        } else if pb < pa && pa < pc {
            lemma_no_third(line, pb, pa, pc);
        } else if pb < pc && pc < pa {
            lemma_no_third(line, pb, pc, pa);
        } else if pc < pa && pa < pb {
            lemma_no_third(line, pc, pa, pb);
        } else {
            lemma_no_third(line, pc, pb, pa);
        }
    }
}

/// Two tiles lie next to each other in a row or in a column.
pub open spec fn adjacent(a: Tile, b: Tile) -> bool {
    ||| a.y == b.y && (a.x - b.x == 1 || b.x - a.x == 1)
    ||| a.x == b.x && (a.y - b.y == 1 || b.y - a.y == 1)
}

/// On a grid whose every cell holds a tile, no two neighbours equal, no move
/// changes anything.
pub proof fn lemma_full_grid_still(tiles: Seq<Tile>, settings: Settings, dir: Direction)
    requires
        settings.wf(),
        all_wf(tiles, settings),
        distinct_cells(tiles),
        forall|x: int, y: int| settings.in_bounds(x, y) ==> #[trigger] occupied(tiles, x, y),
        forall|a: int, b: int|
            0 <= a < tiles.len() && 0 <= b < tiles.len() && adjacent(
                #[trigger] tiles[a],
                #[trigger] tiles[b],
            ) ==> tiles[a].value != tiles[b].value,
    ensures
        slid(tiles, settings, dir) == tiles,
{
    assert forall|k: int| 0 <= k < tiles.len() implies moved(tiles, settings, dir, k)
        == tiles[k] by {
        let t = tiles[k];
        assert(t.wf(settings));
        let l = line_of(dir, t);
        let line = row(tiles, settings, dir, l);
        let cells = span(settings, dir);
        lemma_tile_on_line(settings, dir, t);
        lemma_row(tiles, settings, dir, l);
        assert forall|p: int| 0 <= p < cells implies line[p] != 0 && (p > 0 ==> line[p - 1]
            != #[trigger] line[p]) by {
            let c = cell(settings, dir, l, p);
            lemma_cell_on_grid(settings, dir, l, p, t);
            assert(occupied(tiles, c.0, c.1));
            lemma_first_from(tiles, 0, c.0, c.1);
            let f = first_from(tiles, 0, c.0, c.1);
            assert(tiles[f].wf(settings));
            if p > 0 {
                let b = cell(settings, dir, l, p - 1);
                lemma_cell_on_grid(settings, dir, l, p - 1, t);
                assert(occupied(tiles, b.0, b.1));
                lemma_first_from(tiles, 0, b.0, b.1);
                let g = first_from(tiles, 0, b.0, b.1);
                assert(adjacent(tiles[g], tiles[f]));
            }
        }
        lemma_still(line, cells, cells);
    }
    assert(slid(tiles, settings, dir) =~= tiles);
}

} // verus!
