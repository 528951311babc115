//! Which tiles of a collection lie on which cell.

use vstd::prelude::*;
use crate::settings::Settings;
use crate::tile::Tile;

verus! {

/// Two tiles occupy the same cell.
pub open spec fn same_cell(a: Tile, b: Tile) -> bool {
    a.x == b.x && a.y == b.y
}

/// Every tile has a positive value and lies on the grid.
pub open spec fn all_wf(tiles: Seq<Tile>, settings: Settings) -> bool {
    forall|k: int| 0 <= k < tiles.len() ==> (#[trigger] tiles[k]).wf(settings)
}

/// No tile is animating.
pub open spec fn all_settled(tiles: Seq<Tile>) -> bool {
    forall|k: int| 0 <= k < tiles.len() ==> (#[trigger] tiles[k]).settled()
}

/// Every tile after `elapsed` more ticks.
pub open spec fn advanced_all(tiles: Seq<Tile>, elapsed: u32) -> Seq<Tile> {
    Seq::new(tiles.len(), |k: int| tiles[k].advanced(elapsed))
}

/// No two tiles occupy the same cell.
pub open spec fn distinct_cells(tiles: Seq<Tile>) -> bool {
    forall|i: int, j: int|
        0 <= i < j < tiles.len() ==> !same_cell(#[trigger] tiles[i], #[trigger] tiles[j])
}

/// The least index `k >= start` of a tile on the cell `(x, y)`, or the number
/// of tiles when there is none.
pub open spec fn first_from(tiles: Seq<Tile>, start: int, x: int, y: int) -> int
    decreases tiles.len() - start,
{
    if start >= tiles.len() {
        tiles.len() as int
    } else if start >= 0 && tiles[start].at(x, y) {
        start
    } else {
        first_from(tiles, start + 1, x, y)
    }
}

/// Some tile lies on the cell `(x, y)`.
pub open spec fn occupied(tiles: Seq<Tile>, x: int, y: int) -> bool {
    first_from(tiles, 0, x, y) < tiles.len()
}

/// The value of the first tile on the cell `(x, y)`, or `0` for a free cell.
pub open spec fn value_at(tiles: Seq<Tile>, x: int, y: int) -> int {
    if occupied(tiles, x, y) {
        tiles[first_from(tiles, 0, x, y)].value as int
    } else {
        0
    }
}

/// How many of the first `n` tiles lie on the cell `(x, y)`.
pub open spec fn count_at(tiles: Seq<Tile>, n: int, x: int, y: int) -> int
    decreases n,
{
    if n <= 0 {
        0
    } else {
        count_at(tiles, n - 1, x, y) + if tiles[n - 1].at(x, y) {
            1int
        } else {
            0int
        }
    }
}

/// Time changes neither the value nor the cell of a tile.
pub proof fn lemma_advanced_all(tiles: Seq<Tile>, settings: Settings, elapsed: u32)
    requires
        all_wf(tiles, settings),
    ensures
        all_wf(advanced_all(tiles, elapsed), settings),
        advanced_all(tiles, elapsed).len() == tiles.len(),
{
    let later = advanced_all(tiles, elapsed);
    assert forall|k: int| 0 <= k < later.len() implies (#[trigger] later[k]).wf(settings) by {
        assert(tiles[k].wf(settings));
    }
}

/// `first_from` returns the first tile on the cell at or after `start`, and
/// the number of tiles exactly when there is none.
pub proof fn lemma_first_from(tiles: Seq<Tile>, start: int, x: int, y: int)
    requires
        0 <= start <= tiles.len(),
    ensures
        start <= first_from(tiles, start, x, y) <= tiles.len(),
        first_from(tiles, start, x, y) < tiles.len() ==> tiles[first_from(tiles, start, x, y)].at(
            x,
            y,
        ),
        forall|k: int|
            start <= k < first_from(tiles, start, x, y) ==> !(#[trigger] tiles[k]).at(x, y),
    decreases tiles.len() - start,
{
    if start < tiles.len() && !tiles[start].at(x, y) {
        lemma_first_from(tiles, start + 1, x, y);
    }
}

/// A cell is occupied exactly when some tile lies on it.
pub proof fn lemma_occupied(tiles: Seq<Tile>, x: int, y: int)
    ensures
        occupied(tiles, x, y) <==> exists|k: int|
            0 <= k < tiles.len() && (#[trigger] tiles[k]).at(x, y),
{
    lemma_first_from(tiles, 0, x, y);
    let f = first_from(tiles, 0, x, y);
    if f < tiles.len() {
        assert(tiles[f].at(x, y));
    }
}

/// The count of tiles on a cell lies between zero and the number of tiles
/// looked at, and is positive exactly when one of them lies on the cell.
pub proof fn lemma_count_at(tiles: Seq<Tile>, n: int, x: int, y: int)
    requires
        0 <= n <= tiles.len(),
    ensures
        0 <= count_at(tiles, n, x, y) <= n,
        count_at(tiles, n, x, y) > 0 <==> first_from(tiles, 0, x, y) < n,
    decreases n,
{
    lemma_first_from(tiles, 0, x, y);
    if n > 0 {
        lemma_count_at(tiles, n - 1, x, y);
    }
}

/// The cell reached from `(x, y)` after `k` steps of `(step_x, step_y)`.
pub open spec fn ray(x: int, y: int, step_x: int, step_y: int, k: int) -> (int, int) {
    (x + k * step_x, y + k * step_y)
}

/// Walking from `(x, y)` by `(step_x, step_y)`, the `k`-th step is the first
/// to reach a tile, and no step up to it leaves the grid.
pub open spec fn hits(
    tiles: Seq<Tile>,
    settings: Settings,
    x: int,
    y: int,
    step_x: int,
    step_y: int,
    k: int,
) -> bool {
    &&& k >= 1
    &&& forall|j: int|
        1 <= j <= k ==> settings.in_bounds(
            (#[trigger] ray(x, y, step_x, step_y, j)).0,
            ray(x, y, step_x, step_y, j).1,
        )
    &&& forall|j: int|
        1 <= j < k ==> !occupied(
            tiles,
            (#[trigger] ray(x, y, step_x, step_y, j)).0,
            ray(x, y, step_x, step_y, j).1,
        )
    &&& occupied(tiles, ray(x, y, step_x, step_y, k).0, ray(x, y, step_x, step_y, k).1)
}

/// An upper bound on the number of steps of `(step_x, step_y)` that lead
/// from the cell `(x, y)` to further cells of the grid.
pub open spec fn steps_left(settings: Settings, x: int, y: int, step_x: int, step_y: int) -> int {
    if !settings.in_bounds(x, y) {
        0
    } else if step_x > 0 {
        settings.grid_width - x
    } else if step_x < 0 {
        x + 1
    } else if step_y > 0 {
        settings.grid_height - y
    } else {
        y + 1
    }
}

/// Index of the first tile on the cell `(x, y)` at or after `start`; the
/// number of tiles when there is none.
pub fn find_from(tiles: &Vec<Tile>, start: usize, x: i32, y: i32) -> (r: usize)
    requires
        start <= tiles.len(),
    ensures
        r == first_from(tiles@, start as int, x as int, y as int),
        start <= r <= tiles.len(),
{
    let mut k: usize = start;
    while k < tiles.len()
        invariant
            start <= k <= tiles.len(),
            first_from(tiles@, start as int, x as int, y as int) == first_from(
                tiles@,
                k as int,
                x as int,
                y as int,
            ),
        decreases tiles.len() - k,
    {
        if tiles[k].x == x && tiles[k].y == y {
            return k;
        }
        k += 1;
    }
    k
}

/// Whether every tile has settled.
pub fn settled(tiles: &Vec<Tile>) -> (r: bool)
    ensures
        r == all_settled(tiles@),
{
    let mut k: usize = 0;
    while k < tiles.len()
        invariant
            k <= tiles.len(),
            forall|i: int| 0 <= i < k ==> (#[trigger] tiles@[i]).settled(),
        decreases tiles.len() - k,
    {
        if !tiles[k].is_static() {
            return false;
        }
        k += 1;
    }
    true
}

/// Whether no two tiles occupy the same cell.
pub fn cells_distinct(tiles: &Vec<Tile>) -> (r: bool)
    ensures
        r == distinct_cells(tiles@),
{
    let mut i: usize = 0;
    while i < tiles.len()
        invariant
            i <= tiles.len(),
            forall|a: int, b: int|
                0 <= a < i && a < b < tiles.len() ==> !same_cell(
                    #[trigger] tiles@[a],
                    #[trigger] tiles@[b],
                ),
        decreases tiles.len() - i,
    {
        let j = find_from(tiles, i + 1, tiles[i].x, tiles[i].y);
        proof {
            lemma_first_from(tiles@, i + 1, tiles@[i as int].x as int, tiles@[i as int].y as int);
        }
        if j < tiles.len() {
            assert(same_cell(tiles@[i as int], tiles@[j as int]));
            return false;
        }
        i += 1;
    }
    true
}

/// Index of the first tile met when walking from `(x, y)` by
/// `(step_x, step_y)` until the walk leaves the grid; the number of tiles
/// when the walk meets none.
pub fn find_next(
    tiles: &Vec<Tile>,
    settings: &Settings,
    x: i32,
    y: i32,
    step_x: i32,
    step_y: i32,
) -> (r: usize)
    requires
        step_x != 0 || step_y != 0,
    ensures
        r <= tiles.len(),
        r < tiles.len() ==> exists|k: int|
            #![trigger ray(x as int, y as int, step_x as int, step_y as int, k)]
            hits(tiles@, *settings, x as int, y as int, step_x as int, step_y as int, k) && r
                == first_from(
                tiles@,
                0,
                ray(x as int, y as int, step_x as int, step_y as int, k).0,
                ray(x as int, y as int, step_x as int, step_y as int, k).1,
            ),
        r == tiles.len() ==> forall|k: int|
            !hits(tiles@, *settings, x as int, y as int, step_x as int, step_y as int, k),
{
    let mut cx: i64 = x as i64 + step_x as i64;
    let mut cy: i64 = y as i64 + step_y as i64;
    let ghost mut k: int = 1;
    while 0 <= cx && cx < settings.grid_width as i64 && 0 <= cy && cy < settings.grid_height as i64
        invariant
            step_x != 0 || step_y != 0,
            k >= 1,
            (cx as int, cy as int) == ray(x as int, y as int, step_x as int, step_y as int, k),
            -0x1_0000_0000 <= cx <= 0x1_0000_0000,
            -0x1_0000_0000 <= cy <= 0x1_0000_0000,
            forall|j: int|
                1 <= j < k ==> settings.in_bounds(
                    (#[trigger] ray(x as int, y as int, step_x as int, step_y as int, j)).0,
                    ray(x as int, y as int, step_x as int, step_y as int, j).1,
                ) && !occupied(
                    tiles@,
                    ray(x as int, y as int, step_x as int, step_y as int, j).0,
                    ray(x as int, y as int, step_x as int, step_y as int, j).1,
                ),
        decreases steps_left(*settings, cx as int, cy as int, step_x as int, step_y as int),
    {
        let found = find_from(tiles, 0, cx as i32, cy as i32);
        if found < tiles.len() {
            assert(hits(tiles@, *settings, x as int, y as int, step_x as int, step_y as int, k));
            return found;
        }
        proof {
            assert((k + 1) * step_x == k * step_x + step_x) by (nonlinear_arith);
            assert((k + 1) * step_y == k * step_y + step_y) by (nonlinear_arith);
            k = k + 1;
        }
        cx = cx + step_x as i64;
        cy = cy + step_y as i64;
    }
    tiles.len()
}

/// The first tile on the cell `(x, y)`, for the caller to change.
pub fn get_mut_tile(tiles: &mut Vec<Tile>, x: i32, y: i32) -> (r: Option<&mut Tile>)
    ensures
        r is Some <==> occupied(old(tiles)@, x as int, y as int),
        r matches Some(t) ==> *t == old(tiles)@[first_from(old(tiles)@, 0, x as int, y as int)]
            && final(tiles)@ == old(tiles)@.update(
            first_from(old(tiles)@, 0, x as int, y as int),
            *final(t),
        ),
        r is None ==> final(tiles)@ == old(tiles)@,
{
    let k = find_from(tiles, 0, x, y);
    if k < tiles.len() {
        Some(&mut tiles[k])
    } else {
        None
    }
}

/// The first tile met when walking from `(x, y)` by `(step_x, step_y)`
/// until the walk leaves the grid, for the caller to change.
pub fn get_mut_next_tile<'a>(
    tiles: &'a mut Vec<Tile>,
    settings: &Settings,
    x: i32,
    y: i32,
    step_x: i32,
    step_y: i32,
) -> (r: Option<&'a mut Tile>)
    requires
        step_x != 0 || step_y != 0,
    ensures
        r matches Some(t) ==> exists|k: int|
            #![trigger ray(x as int, y as int, step_x as int, step_y as int, k)]
            hits(old(tiles)@, *settings, x as int, y as int, step_x as int, step_y as int, k)
                && *t == old(tiles)@[first_from(
                old(tiles)@,
                0,
                ray(x as int, y as int, step_x as int, step_y as int, k).0,
                ray(x as int, y as int, step_x as int, step_y as int, k).1,
            )] && final(tiles)@ == old(tiles)@.update(
                first_from(
                    old(tiles)@,
                    0,
                    ray(x as int, y as int, step_x as int, step_y as int, k).0,
                    ray(x as int, y as int, step_x as int, step_y as int, k).1,
                ),
                *final(t),
            ),
        r is None ==> final(tiles)@ == old(tiles)@ && forall|k: int|
            !hits(old(tiles)@, *settings, x as int, y as int, step_x as int, step_y as int, k),
{
    let k = find_next(tiles, settings, x, y, step_x, step_y);
    if k < tiles.len() {
        Some(&mut tiles[k])
    } else {
        None
    }
}

} // verus!
