//! Grid dimensions and animation durations, fixed for one game.

use vstd::prelude::*;

verus! {

/// The configuration of one game.
#[derive(Clone, Copy, Debug)]
pub struct Settings {
    /// Number of columns.
    pub grid_width: i32,
    /// Number of rows.
    pub grid_height: i32,
    /// Ticks a freshly spawned tile takes to settle.
    pub spawn_time: u32,
    /// Ticks a sliding tile takes to reach its cell.
    pub slide_time: u32,
    /// Ticks a tile produced by a merge takes to settle.
    pub combine_time: u32,
}

impl Settings {
    /// Both dimensions are positive and the number of cells fits in an `i32`.
    pub open spec fn wf(&self) -> bool {
        &&& 0 < self.grid_width
        &&& 0 < self.grid_height
        &&& self.grid_width * self.grid_height <= i32::MAX
    }

    /// Number of cells of the grid.
    pub open spec fn cells(&self) -> int {
        self.grid_width * self.grid_height
    }

    /// `(x, y)` names a cell of the grid.
    pub open spec fn in_bounds(&self, x: int, y: int) -> bool {
        0 <= x < self.grid_width && 0 <= y < self.grid_height
    }

    /// Row-major number of the cell `(x, y)`.
    pub open spec fn cell_index(&self, x: int, y: int) -> int {
        y * self.grid_width + x
    }

    /// A configuration with the given dimensions and durations, or `None`
    /// when a dimension is not positive or the grid has more than
    /// `i32::MAX` cells.
    pub fn new(
        grid_width: i32,
        grid_height: i32,
        spawn_time: u32,
        slide_time: u32,
        combine_time: u32,
    ) -> (r: Option<Settings>)
        ensures
            r matches Some(s) ==> s == (Settings {
                grid_width,
                grid_height,
                spawn_time,
                slide_time,
                combine_time,
            }) && s.wf(),
            r is None <==> !(Settings {
                grid_width,
                grid_height,
                spawn_time,
                slide_time,
                combine_time,
            }).wf(),
    {
        let s = Settings { grid_width, grid_height, spawn_time, slide_time, combine_time };
        if s.is_valid() {
            Some(s)
        } else {
            None
        }
    }

    /// Whether the configuration is well formed.
    pub fn is_valid(&self) -> (r: bool)
        ensures
            r == self.wf(),
    {
        if self.grid_width <= 0 || self.grid_height <= 0 {
            return false;
        }
        assert(0 < self.grid_width * self.grid_height <= 0x7fff_ffff * 0x7fff_ffff)
            by (nonlinear_arith)
            requires
                0 < self.grid_width <= 0x7fff_ffff,
                0 < self.grid_height <= 0x7fff_ffff,
        ;
        let cells: i64 = (self.grid_width as i64) * (self.grid_height as i64);
        cells <= i32::MAX as i64
    }

    /// Number of cells of the grid.
    pub fn cell_count(&self) -> (n: usize)
        requires
            self.wf(),
        ensures
            n == self.cells(),
    {
        (self.grid_width * self.grid_height) as usize
    }

    /// Whether `(x, y)` names a cell of the grid.
    pub fn contains(&self, x: i32, y: i32) -> (r: bool)
        ensures
            r == self.in_bounds(x as int, y as int),
    {
        0 <= x && x < self.grid_width && 0 <= y && y < self.grid_height
    }
}

} // verus!
