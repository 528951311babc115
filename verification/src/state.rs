//! The state of a game as a mathematical value, and what one call does to
//! it.

use vstd::prelude::*;
use crate::grid::{
    advanced_all,
    all_settled,
    all_wf,
    distinct_cells,
    lemma_advanced_all,
    occupied,
};
use crate::regular::{
    lemma_regular_advanced,
    lemma_regular_slid,
    lemma_regular_spawned,
    lemma_regular_swept,
    lemma_steady_advanced,
    lemma_steady_slid,
    lemma_steady_spawned,
    lemma_steady_swept,
    no_slides,
    regular,
    steady,
};
use crate::settings::Settings;
use crate::slide::{lemma_slid_wf, slid, Direction};
use crate::spawn::{lemma_spawned, spawned};
use crate::sweep::{
    lemma_gain_grows,
    lemma_pairs_ignore_time,
    lemma_swept_settled,
    lemma_swept_wf,
    sweep_gain,
    swept,
};
use crate::tile::Tile;

verus! {

/// What a board is, as a mathematical value.
pub struct BoardView {
    /// The tiles, in the order in which the board keeps them.
    pub tiles: Seq<Tile>,
    /// The score.
    pub score: int,
    /// The configuration of the game.
    pub settings: Settings,
    /// A move has changed the board and the tile that answers it has not
    /// spawned yet.
    pub pending_spawn: bool,
}

impl BoardView {
    /// The configuration is well formed, every tile has a positive value and
    /// lies on the grid, there are no more tiles than cells, and the score
    /// is a non-negative `i32`.
    pub open spec fn wf(self) -> bool {
        &&& self.settings.wf()
        &&& all_wf(self.tiles, self.settings)
        &&& self.tiles.len() <= self.settings.cells()
        &&& 0 <= self.score <= i32::MAX
    }

    /// The board is one that the game produces. Every value is a power of
    /// two, tiles that share a cell have the same value, and no cell holds
    /// three tiles. Of two tiles that share a cell one is still sliding, all
    /// sliding tiles arrive at the same time, and nothing spawns while a
    /// tile slides; so no two settled tiles share a cell.
    pub open spec fn regular(self) -> bool {
        regular(self.tiles) && steady(self.tiles)
    }

    /// Some tile is animating: moves and merge resolution have to wait.
    pub open spec fn locking(self) -> bool {
        !all_settled(self.tiles)
    }

    /// The board takes a move: no tile is animating and no two tiles share a
    /// cell.
    pub open spec fn accepts_moves(self) -> bool {
        all_settled(self.tiles) && distinct_cells(self.tiles)
    }

    /// The score has room for what the merges due on the board will add.
    pub open spec fn merge_room(self) -> bool {
        self.score + sweep_gain(self.tiles) <= i32::MAX
    }

    /// The board after `elapsed` ticks of animation alone.
    pub open spec fn ticked(self, elapsed: u32) -> BoardView {
        BoardView { tiles: advanced_all(self.tiles, elapsed), ..self }
    }

    /// The board after merge resolution: on every cell with two or more
    /// tiles the two lowest-numbered ones are replaced by their sum, and the
    /// sums are added to the score.
    pub open spec fn resolved(self) -> BoardView {
        BoardView {
            tiles: swept(self.tiles, self.settings),
            score: self.score + sweep_gain(self.tiles),
            ..self
        }
    }

    /// The board after a spawn decided by the draws `pick` and `roll`.
    pub open spec fn spawn(self, pick: u32, roll: u32) -> BoardView {
        BoardView { tiles: spawned(self.tiles, self.settings, pick, roll), ..self }
    }

    /// The board after an update of `elapsed` ticks, `pick` and `roll` being
    /// the draws of the spawn, should one take place. While a tile is still
    /// animating after the ticks nothing else happens. Else the merges are
    /// resolved, and the spawn that a move has left pending takes place.
    pub open spec fn updated(self, elapsed: u32, pick: u32, roll: u32) -> BoardView {
        let t = self.ticked(elapsed);
        if t.locking() {
            t
        } else if self.pending_spawn {
            BoardView { pending_spawn: false, ..t.resolved().spawn(pick, roll) }
        } else {
            t.resolved()
        }
    }

    /// The board after a move in direction `dir`. A board that does not
    /// take moves stays as it is. Else the tiles slide, and a spawn becomes
    /// due if any tile left its cell.
    pub open spec fn shifted(self, dir: Direction) -> BoardView {
        if self.accepts_moves() {
            BoardView {
                tiles: slid(self.tiles, self.settings, dir),
                pending_spawn: self.pending_spawn || slid(self.tiles, self.settings, dir)
                    != self.tiles,
                ..self
            }
        } else {
            self
        }
    }
}

/// A spawn never brings the number of tiles above the number of cells, and
/// changes nothing on a board that holds as many tiles as the grid has
/// cells. Else it adds one animating tile of value 2 or 4 on a cell that was
/// free. It keeps a board well formed, and regular if no tile is sliding.
pub proof fn lemma_spawn(b: BoardView, pick: u32, roll: u32)
    requires
        b.wf(),
    ensures
        b.spawn(pick, roll).wf(),
        b.spawn(pick, roll).tiles.len() <= b.settings.cells(),
        b.tiles.len() == b.settings.cells() ==> b.spawn(pick, roll) == b,
        b.tiles.len() < b.settings.cells() ==> {
            let after = b.spawn(pick, roll).tiles;
            &&& after.len() == b.tiles.len() + 1
            &&& after.drop_last() == b.tiles
            &&& after.last().value == 2 || after.last().value == 4
            &&& !after.last().settled()
            &&& !occupied(b.tiles, after.last().x as int, after.last().y as int)
        },
        b.regular() && no_slides(b.tiles) ==> b.spawn(pick, roll).regular() && no_slides(
            b.spawn(pick, roll).tiles,
        ),
{
    lemma_spawned(b.tiles, b.settings, pick, roll);
    if b.regular() && no_slides(b.tiles) {
        lemma_regular_spawned(b.tiles, b.settings, pick, roll);
        lemma_steady_spawned(b.tiles, b.settings, pick, roll);
    }
}

/// An update keeps a board well formed and regular and never lowers the
/// score. While a tile is still animating after the ticks, neither the
/// number of tiles nor the score changes. And once no tile is animating
/// after an update, no two tiles share a cell.
pub proof fn lemma_updated(b: BoardView, elapsed: u32, pick: u32, roll: u32)
    requires
        b.wf(),
        b.merge_room(),
    ensures
        b.updated(elapsed, pick, roll).wf(),
        b.updated(elapsed, pick, roll).settings == b.settings,
        b.updated(elapsed, pick, roll).score >= b.score,
        b.regular() ==> b.updated(elapsed, pick, roll).regular(),
        b.ticked(elapsed).locking() ==> b.updated(elapsed, pick, roll).tiles.len()
            == b.tiles.len() && b.updated(elapsed, pick, roll).score == b.score,
        !b.updated(elapsed, pick, roll).locking() ==> distinct_cells(
            b.updated(elapsed, pick, roll).tiles,
        ),
{
    let t = b.ticked(elapsed);
    let n = b.tiles.len() as int;
    let after = b.updated(elapsed, pick, roll);
    lemma_advanced_all(b.tiles, b.settings, elapsed);
    if b.regular() {
        lemma_regular_advanced(b.tiles, elapsed);
    }
    if t.locking() {
        if b.regular() {
            lemma_steady_advanced(b.tiles, elapsed);
        }
    } else {
        let s = swept(t.tiles, t.settings);
        lemma_pairs_ignore_time(b.tiles, elapsed, n);
        lemma_swept_wf(t.tiles, t.settings, n);
        lemma_gain_grows(t.tiles, t.settings, 0, n);
        lemma_swept_settled(t.tiles, t.settings);
        lemma_spawned(s, t.settings, pick, roll);
        if b.regular() {
            lemma_regular_swept(t.tiles, t.settings);
            lemma_steady_swept(t.tiles, t.settings);
            lemma_regular_spawned(s, t.settings, pick, roll);
            lemma_steady_spawned(s, t.settings, pick, roll);
        }
        if !after.locking() {
            assert(forall|k: int|
                0 <= k < after.tiles.len() ==> (#[trigger] after.tiles[k]).settled());
            if !distinct_cells(t.tiles) {
                assert(after.tiles[s.len() - 1] == s.last());
            }
            if after.tiles.len() > s.len() {
                assert(!after.tiles[s.len() as int].settled());
            }
        }
    }
}

/// A board at rest does not change by itself: where no tile is animating,
/// no two tiles share a cell and no spawn is due, an update changes nothing.
pub proof fn lemma_updated_at_rest(b: BoardView, elapsed: u32, pick: u32, roll: u32)
    requires
        b.accepts_moves(),
        !b.pending_spawn,
    ensures
        b.updated(elapsed, pick, roll) == b,
{
    assert(advanced_all(b.tiles, elapsed) =~= b.tiles) by {
        assert forall|k: int| 0 <= k < b.tiles.len() implies b.tiles[k].advanced(elapsed)
            == b.tiles[k] by {
            assert(b.tiles[k].settled());
        }
    }
    lemma_swept_settled(b.tiles, b.settings);
}

/// A move keeps a board well formed and regular, and changes neither the
/// score nor the number of tiles.
pub proof fn lemma_shifted(b: BoardView, dir: Direction)
    requires
        b.wf(),
    ensures
        b.shifted(dir).wf(),
        b.shifted(dir).settings == b.settings,
        b.shifted(dir).score == b.score,
        b.shifted(dir).tiles.len() == b.tiles.len(),
        b.regular() ==> b.shifted(dir).regular(),
{
    if b.accepts_moves() {
        lemma_slid_wf(b.tiles, b.settings, dir);
        if b.regular() {
            lemma_regular_slid(b.tiles, b.settings, dir);
            lemma_steady_slid(b.tiles, b.settings, dir);
        }
    }
}

} // verus!
