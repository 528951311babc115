//! Spawning: a new tile of value 2 or 4 appears on a free cell chosen by two
//! random draws.

use vstd::prelude::*;
use vstd::arithmetic::div_mod::lemma_small_mod;
use vstd::set_lib::{lemma_int_range, lemma_len_subset, set_int_range};
use crate::grid::{all_wf, find_from, first_from, lemma_first_from, occupied};
use crate::settings::Settings;
use crate::tile::{Tile, TileState};

verus! {

/// Cell number `c`, counted row by row, holds no tile.
pub open spec fn free(tiles: Seq<Tile>, settings: Settings, c: int) -> bool {
    !occupied(tiles, c % (settings.grid_width as int), c / (settings.grid_width as int))
}

/// The free cells among the first `n`, by ascending number.
pub open spec fn free_cells(tiles: Seq<Tile>, settings: Settings, n: int) -> Seq<int>
    decreases n,
{
    if n <= 0 {
        Seq::empty()
    } else if free(tiles, settings, n - 1) {
        free_cells(tiles, settings, n - 1).push(n - 1)
    } else {
        free_cells(tiles, settings, n - 1)
    }
}

/// The value of a spawned tile: 4 for one draw in ten, else 2.
pub open spec fn spawn_value(roll: u32) -> i32 {
    if roll % 10 == 0 {
        4
    } else {
        2
    }
}

/// The tile that spawns on cell number `c`.
pub open spec fn spawn_tile(settings: Settings, c: int, roll: u32) -> Tile {
    Tile {
        value: spawn_value(roll),
        x: (c % (settings.grid_width as int)) as i32,
        y: (c / (settings.grid_width as int)) as i32,
        status: TileState::Spawning,
        remaining: settings.spawn_time,
        combined: false,
    }
}

/// The collection after a spawn decided by the draws `pick` and `roll`:
/// unchanged when it already holds as many tiles as the grid has cells,
/// else one more tile, on the free cell that `pick` selects.
pub open spec fn spawned(tiles: Seq<Tile>, settings: Settings, pick: u32, roll: u32) -> Seq<Tile> {
    let open = free_cells(tiles, settings, settings.cells());
    if tiles.len() >= settings.cells() || open.len() == 0 {
        tiles
    } else {
        tiles.push(spawn_tile(settings, open[pick as int % open.len() as int], roll))
    }
}

/// Cell numbers and coordinates correspond: a number below the cell count
/// names a cell of the grid, and the cell of a tile on the grid has a number
/// below the cell count.
pub proof fn lemma_cell_number(settings: Settings, c: int)
    requires
        settings.wf(),
        0 <= c < settings.cells(),
    ensures
        settings.in_bounds(c % (settings.grid_width as int), c / (settings.grid_width as int)),
        settings.cell_index(c % (settings.grid_width as int), c / (settings.grid_width as int))
            == c,
{
    let w = settings.grid_width as int;
    let h = settings.grid_height as int;
    assert(0 <= c % w < w && 0 <= c / w < h && (c / w) * w + c % w == c) by (nonlinear_arith)
        requires
            0 < w,
            0 < h,
            0 <= c < w * h,
    ;
}

/// The free cells found are exactly the free cells looked at, in ascending
/// order.
pub proof fn lemma_free_cells(tiles: Seq<Tile>, settings: Settings, n: int)
    requires
        0 <= n,
    ensures
        free_cells(tiles, settings, n).len() <= n,
        forall|i: int|
            0 <= i < free_cells(tiles, settings, n).len() ==> 0 <= #[trigger] free_cells(
                tiles,
                settings,
                n,
            )[i] < n && free(tiles, settings, free_cells(tiles, settings, n)[i]),
        forall|i: int, j: int|
            0 <= i < j < free_cells(tiles, settings, n).len() ==> free_cells(tiles, settings, n)[i]
                < free_cells(tiles, settings, n)[j],
        forall|c: int|
            0 <= c < n && free(tiles, settings, c) ==> free_cells(tiles, settings, n).contains(c),
    decreases n,
{
    if n > 0 {
        lemma_free_cells(tiles, settings, n - 1);
        let before = free_cells(tiles, settings, n - 1);
        let now = free_cells(tiles, settings, n);
        assert forall|c: int| 0 <= c < n && free(tiles, settings, c) implies now.contains(c) by {
            if c < n - 1 {
                let i = choose|i: int| 0 <= i < before.len() && before[i] == c;
                assert(now[i] == c);
            } else {
                assert(now[now.len() - 1] == c);
            }
        }
    }
}

/// A grid that holds fewer tiles than it has cells has a free cell.
pub proof fn lemma_free_cell_exists(tiles: Seq<Tile>, settings: Settings)
    requires
        settings.wf(),
        all_wf(tiles, settings),
        tiles.len() < settings.cells(),
    ensures
        free_cells(tiles, settings, settings.cells()).len() > 0,
{
    let w = settings.grid_width as int;
    let n = settings.cells();
    let ids = Seq::new(tiles.len(), |k: int| settings.cell_index(tiles[k].x as int, tiles[k].y as int));
    let all = set_int_range(0, n);
    lemma_int_range(0, n);
    lemma_free_cells(tiles, settings, n);
    if free_cells(tiles, settings, n).len() == 0 {
        assert forall|c: int| all.contains(c) implies ids.to_set().contains(c) by {
            if free(tiles, settings, c) {
                assert(free_cells(tiles, settings, n).contains(c));
            }
            lemma_first_from(tiles, 0, c % w, c / w);
            lemma_cell_number(settings, c);
            let k = first_from(tiles, 0, c % w, c / w);
            assert(tiles[k].at(c % w, c / w));
            assert(ids[k] == c);
        }
        ids.lemma_cardinality_of_set();
        vstd::seq_lib::seq_to_set_is_finite(ids);
        lemma_len_subset(all, ids.to_set());
    }
}

/// A spawn keeps every tile on the grid and adds at most one tile, which
/// lies on a cell that was free and carries the value 2 or 4.
pub proof fn lemma_spawned(tiles: Seq<Tile>, settings: Settings, pick: u32, roll: u32)
    requires
        settings.wf(),
        all_wf(tiles, settings),
        tiles.len() <= settings.cells(),
    ensures
        all_wf(spawned(tiles, settings, pick, roll), settings),
        spawned(tiles, settings, pick, roll).len() <= settings.cells(),
        tiles.len() == settings.cells() ==> spawned(tiles, settings, pick, roll) == tiles,
        tiles.len() < settings.cells() ==> {
            let after = spawned(tiles, settings, pick, roll);
            &&& after.len() == tiles.len() + 1
            &&& after.drop_last() == tiles
            &&& after.last().value == 2 || after.last().value == 4
            &&& after.last().status == TileState::Spawning
            &&& !occupied(tiles, after.last().x as int, after.last().y as int)
        },
{
    let n = settings.cells();
    let open = free_cells(tiles, settings, n);
    lemma_free_cells(tiles, settings, n);
    if tiles.len() < n {
        lemma_free_cell_exists(tiles, settings);
        let i = pick as int % open.len() as int;
        let c = open[i];
        lemma_cell_number(settings, c);
        let after = spawned(tiles, settings, pick, roll);
        assert(after.drop_last() =~= tiles);
        assert(after.last() == spawn_tile(settings, c, roll));
        assert forall|k: int| 0 <= k < after.len() implies (#[trigger] after[k]).wf(settings) by {
            if k < tiles.len() {
                assert(tiles[k].wf(settings));
            }
        }
    }
}

/// Every free cell can be drawn: for each of them some `pick` makes the
/// spawn take place there.
pub proof fn lemma_every_free_cell_drawn(tiles: Seq<Tile>, settings: Settings, c: int, roll: u32)
    requires
        settings.wf(),
        tiles.len() < settings.cells(),
        0 <= c < settings.cells(),
        free(tiles, settings, c),
    ensures
        exists|pick: u32| #[trigger]
            spawned(tiles, settings, pick, roll) == tiles.push(spawn_tile(settings, c, roll)),
{
    let open = free_cells(tiles, settings, settings.cells());
    lemma_free_cells(tiles, settings, settings.cells());
    let i = choose|i: int| 0 <= i < open.len() && open[i] == c;
    let pick = i as u32;
    lemma_small_mod(i as nat, open.len());
    assert(spawned(tiles, settings, pick, roll) == tiles.push(spawn_tile(settings, c, roll)));
}

/// A random number drawn by `rand::random` from the generator of the
/// calling thread. It may be any `u32`: nothing is claimed of it. The call
/// takes no input; it fails only where the system cannot seed the generator.
#[verifier::external_body]
fn random_u32() -> (r: u32) {
    rand::random::<u32>()
}

/// Two fresh random draws: the first selects the cell of a spawn, the second
/// its value.
pub(crate) fn draw() -> (u32, u32) {
    let pick = random_u32();
    let roll = random_u32();
    (pick, roll)
}

/// Adds to `tiles` the tile that the draws `pick` and `roll` decide, if the
/// grid holds fewer tiles than it has cells.
pub fn place(settings: &Settings, tiles: &mut Vec<Tile>, pick: u32, roll: u32)
    requires
        settings.wf(),
        all_wf(old(tiles)@, *settings),
        old(tiles).len() <= settings.cells(),
    ensures
        final(tiles)@ == spawned(old(tiles)@, *settings, pick, roll),
{
    let total = settings.grid_width * settings.grid_height;
    if tiles.len() >= total as usize {
        return ;
    }
    let w = settings.grid_width;
    let mut open: Vec<i32> = Vec::new();
    let mut c: i32 = 0;
    while c < total
        invariant
            settings.wf(),
            w == settings.grid_width,
            total == settings.cells(),
            0 <= c <= total,
            tiles@ == old(tiles)@,
            open.len() == free_cells(tiles@, *settings, c as int).len(),
            forall|i: int|
                0 <= i < open.len() ==> #[trigger] open[i] as int == free_cells(
                    tiles@,
                    *settings,
                    c as int,
                )[i],
        decreases total - c,
    {
        proof {
            lemma_cell_number(*settings, c as int);
            lemma_free_cells(tiles@, *settings, c as int);
        }
        if find_from(tiles, 0, c % w, c / w) == tiles.len() {
            open.push(c);
        }
        c += 1;
    }
    proof {
        lemma_free_cells(tiles@, *settings, total as int);
        lemma_free_cell_exists(tiles@, *settings);
    }
    let at = open[(pick as usize) % open.len()];
    proof {
        lemma_cell_number(*settings, at as int);
    }
    let value: i32 = if roll % 10 == 0 {
        4
    } else {
        2
    };
    tiles.push(Tile::new(settings, value, at % w, at / w));
}

} // verus!
