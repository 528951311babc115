//! One numbered tile: its value, its cell and its animation phase.

use vstd::prelude::*;
use crate::settings::Settings;

verus! {

/// The animation phase of a tile. Only `Static` tiles take part in moves and
/// merges.
#[derive(Clone, Copy, PartialEq, Eq, Structural, Debug)]
pub enum TileState {
    /// The tile has just been created and is still appearing.
    Spawning,
    /// The tile is travelling to its cell.
    Sliding,
    /// The tile has settled.
    Static,
}

/// A tile of the board.
#[derive(Clone, Copy, PartialEq, Eq, Structural, Debug)]
pub struct Tile {
    /// The number shown on the tile.
    pub value: i32,
    /// Column of the cell the tile occupies (for a sliding tile, the cell it
    /// is travelling to).
    pub x: i32,
    /// Row of that cell.
    pub y: i32,
    /// Animation phase.
    pub status: TileState,
    /// Ticks left until the current phase ends; `0` once `Static`.
    pub remaining: u32,
    /// Whether the tile was produced by merging two tiles.
    pub combined: bool,
}

impl Tile {
    /// The tile has a positive value and lies on the grid.
    pub open spec fn wf(&self, settings: Settings) -> bool {
        &&& self.value > 0
        &&& settings.in_bounds(self.x as int, self.y as int)
    }

    /// The tile is not animating.
    pub open spec fn settled(&self) -> bool {
        self.status == TileState::Static
    }

    /// The tile occupies the cell `(x, y)`.
    pub open spec fn at(&self, x: int, y: int) -> bool {
        self.x == x && self.y == y
    }

    /// The tile after `elapsed` more ticks: an animating tile settles once
    /// its phase has run out, a settled tile stays as it is.
    pub open spec fn advanced(self, elapsed: u32) -> Tile {
        if self.status == TileState::Static {
            self
        } else if elapsed >= self.remaining {
            Tile { status: TileState::Static, remaining: 0, ..self }
        } else {
            Tile { remaining: (self.remaining - elapsed) as u32, ..self }
        }
    }

    /// The tile sent on its way to the cell `(x, y)`.
    pub open spec fn sliding_to(self, settings: Settings, x: i32, y: i32) -> Tile {
        Tile { x, y, status: TileState::Sliding, remaining: settings.slide_time, ..self }
    }

    /// A freshly spawned tile at `(x, y)`.
    pub fn new(settings: &Settings, value: i32, x: i32, y: i32) -> (t: Tile)
        requires
            settings.in_bounds(x as int, y as int),
        ensures
            t == (Tile {
                value,
                x,
                y,
                status: TileState::Spawning,
                remaining: settings.spawn_time,
                combined: false,
            }),
    {
        Tile {
            value,
            x,
            y,
            status: TileState::Spawning,
            remaining: settings.spawn_time,
            combined: false,
        }
    }

    /// The tile that replaces two merged tiles at `(x, y)`.
    pub fn new_combined(settings: &Settings, value: i32, x: i32, y: i32) -> (t: Tile)
        requires
            settings.in_bounds(x as int, y as int),
        ensures
            t == (Tile {
                value,
                x,
                y,
                status: TileState::Spawning,
                remaining: settings.combine_time,
                combined: true,
            }),
    {
        Tile {
            value,
            x,
            y,
            status: TileState::Spawning,
            remaining: settings.combine_time,
            combined: true,
        }
    }

    /// Lets `elapsed` ticks pass for this tile.
    pub fn advance(&mut self, elapsed: u32)
        ensures
            *final(self) == old(self).advanced(elapsed),
    {
        match self.status {
            TileState::Static => {},
            _ => {
                if elapsed >= self.remaining {
                    self.status = TileState::Static;
                    self.remaining = 0;
                } else {
                    self.remaining = self.remaining - elapsed;
                }
            },
        }
    }

    /// Sends the tile on its way to the cell `(x, y)`.
    pub fn start_moving(&mut self, settings: &Settings, x: i32, y: i32)
        requires
            settings.in_bounds(x as int, y as int),
        ensures
            *final(self) == old(self).sliding_to(*settings, x, y),
    {
        self.x = x;
        self.y = y;
        self.status = TileState::Sliding;
        self.remaining = settings.slide_time;
    }

    /// Whether the tile has settled.
    pub fn is_static(&self) -> (r: bool)
        ensures
            r == self.settled(),
    {
        match self.status {
            TileState::Static => true,
            _ => false,
        }
    }
}

/// Time adds up: letting `a` ticks pass and then `b` more leaves a tile as
/// letting `a + b` ticks pass at once.
pub proof fn lemma_advance_adds(t: Tile, a: u32, b: u32)
    requires
        a + b <= u32::MAX,
    ensures
        t.advanced(a).advanced(b) == t.advanced((a + b) as u32),
{
}

/// A settled tile stays settled and unchanged, however much time passes, and
/// time never unsettles a tile or changes its value or cell.
pub proof fn lemma_advance_keeps(t: Tile, elapsed: u32)
    ensures
        t.settled() ==> t.advanced(elapsed) == t,
        t.advanced(elapsed).value == t.value,
        t.advanced(elapsed).x == t.x,
        t.advanced(elapsed).y == t.y,
        t.advanced(elapsed).remaining <= t.remaining,
        t.advanced(elapsed).settled() <==> t.settled() || elapsed >= t.remaining,
{
}

} // verus!
