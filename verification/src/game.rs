//! Whole games: what holds after any sequence of updates and moves.

use vstd::prelude::*;
use crate::slide::Direction;
use crate::state::{lemma_shifted, lemma_updated, BoardView};

verus! {

/// One call on a board.
pub enum Step {
    /// An update of `elapsed` ticks; `pick` and `roll` are the draws of the
    /// spawn, should one take place.
    Update { elapsed: u32, pick: u32, roll: u32 },
    /// A move in direction `dir`.
    Shift { dir: Direction },
}

impl BoardView {
    /// The board after the call `step`.
    pub open spec fn step(self, step: Step) -> BoardView {
        match step {
            Step::Update { elapsed, pick, roll } => self.updated(elapsed, pick, roll),
            Step::Shift { dir } => self.shifted(dir),
        }
    }

    /// The board after the calls `steps`, in their order.
    pub open spec fn run(self, steps: Seq<Step>) -> BoardView
        decreases steps.len(),
    {
        if steps.len() == 0 {
            self
        } else {
            self.run(steps.drop_last()).step(steps.last())
        }
    }

    /// Every update among `steps` finds room in the score for the merges
    /// that are due when it is called.
    pub open spec fn admits(self, steps: Seq<Step>) -> bool
        decreases steps.len(),
    {
        if steps.len() == 0 {
            true
        } else {
            &&& self.admits(steps.drop_last())
            &&& steps.last() is Update ==> self.run(steps.drop_last()).merge_room()
        }
    }
}

/// Across any sequence of updates and moves the score never decreases, and
/// the board stays well formed, within the size of the grid, and regular if
/// it was.
pub proof fn lemma_run(b: BoardView, steps: Seq<Step>)
    requires
        b.wf(),
        b.admits(steps),
    ensures
        b.run(steps).wf(),
        b.run(steps).settings == b.settings,
        b.run(steps).score >= b.score,
        b.run(steps).tiles.len() <= b.settings.cells(),
        b.regular() ==> b.run(steps).regular(),
    decreases steps.len(),
{
    if steps.len() > 0 {
        lemma_run(b, steps.drop_last());
        let before = b.run(steps.drop_last());
        match steps.last() {
            Step::Update { elapsed, pick, roll } => {
                lemma_updated(before, elapsed, pick, roll);
            },
            Step::Shift { dir } => {
                lemma_shifted(before, dir);
            },
        }
    }
}

} // verus!
