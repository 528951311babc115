//! The board: the tiles of one game, its score, and the operations of the
//! game on them.

use vstd::prelude::*;
use crate::grid::{
    advanced_all,
    cells_distinct,
    count_at,
    distinct_cells,
    find_from,
    find_next,
    first_from,
    hits,
    lemma_advanced_all,
    lemma_count_at,
    lemma_occupied,
    occupied,
    ray,
    settled,
};
use crate::regular::no_slides;
use crate::settings::Settings;
use crate::slide::{slide, Direction};
use crate::spawn::{draw, place, spawned};
use crate::state::{lemma_shifted, lemma_spawn, lemma_updated, BoardView};
use crate::sweep::{
    fits,
    lemma_gain_grows,
    lemma_pairs_ignore_time,
    lemma_swept_wf,
    resolve,
};
use crate::tile::Tile;

verus! {

/// The state of one game.
pub struct Board {
    tiles: Vec<Tile>,
    score: i32,
    settings: Settings,
    pending_spawn: bool,
}

impl View for Board {
    type V = BoardView;

    closed spec fn view(&self) -> BoardView {
        BoardView {
            tiles: self.tiles@,
            score: self.score as int,
            settings: self.settings,
            pending_spawn: self.pending_spawn,
        }
    }
}

impl Board {
    /// The invariant of a board, which every operation keeps.
    pub open spec fn wf(&self) -> bool {
        self@.wf()
    }

    /// A new game: an empty board on which two tiles have spawned.
    pub fn new(settings: &Settings) -> (b: Board)
        requires
            settings.wf(),
        ensures
            b.wf(),
            b@.score == 0,
            !b@.pending_spawn,
            b@.settings == *settings,
            b@.regular(),
            b@.tiles.len() == if settings.cells() == 1 {
                1int
            } else {
                2int
            },
            forall|k: int|
                0 <= k < b@.tiles.len() ==> (#[trigger] b@.tiles[k]).value == 2
                    || b@.tiles[k].value == 4,
            distinct_cells(b@.tiles),
            exists|first_pick: u32, first_roll: u32, second_pick: u32, second_roll: u32|
                b@.tiles == spawned(
                    spawned(Seq::empty(), *settings, first_pick, first_roll),
                    *settings,
                    second_pick,
                    second_roll,
                ),
    {
        let mut board = Board {
            tiles: Vec::new(),
            score: 0,
            settings: *settings,
            pending_spawn: false,
        };
        assert(board@.tiles =~= Seq::empty());
        assert(settings.cells() >= 1) by (nonlinear_arith)
            requires
                settings.grid_width >= 1,
                settings.grid_height >= 1,
                settings.cells() == settings.grid_width * settings.grid_height,
        ;
        board.generate_tile();
        let ghost first = board@.tiles;
        board.generate_tile();
        proof {
            assert(first.drop_last() =~= Seq::<Tile>::empty());
            if settings.cells() > 1 {
                let both = board@.tiles;
                assert(both.drop_last()[0] == first[0]);
                lemma_occupied(first, both[1].x as int, both[1].y as int);
                assert(!first[0].at(both[1].x as int, both[1].y as int));
            }
            let (first_pick, first_roll) = choose|first_pick: u32, first_roll: u32|
                first == spawned(Seq::empty(), *settings, first_pick, first_roll);
            let (second_pick, second_roll) = choose|second_pick: u32, second_roll: u32|
                board@.tiles == spawned(first, *settings, second_pick, second_roll);
            assert(board@.tiles == spawned(
                spawned(Seq::empty(), *settings, first_pick, first_roll),
                *settings,
                second_pick,
                second_roll,
            ));
        }
        board
    }

    /// A board with the given tiles and score and no spawn pending, or
    /// `None` when these do not make a well-formed board.
    pub fn with_tiles(settings: &Settings, tiles: Vec<Tile>, score: i32) -> (r: Option<Board>)
        ensures
            r is Some <==> (BoardView {
                tiles: tiles@,
                score: score as int,
                settings: *settings,
                pending_spawn: false,
            }).wf(),
            r matches Some(b) ==> b@ == (BoardView {
                tiles: tiles@,
                score: score as int,
                settings: *settings,
                pending_spawn: false,
            }),
    {
        if !settings.is_valid() || score < 0 || tiles.len() > settings.cell_count() {
            return None;
        }
        let mut k: usize = 0;
        while k < tiles.len()
            invariant
                k <= tiles.len(),
                forall|i: int| 0 <= i < k ==> (#[trigger] tiles@[i]).wf(*settings),
            decreases tiles.len() - k,
        {
            if tiles[k].value <= 0 || !settings.contains(tiles[k].x, tiles[k].y) {
                assert(!tiles@[k as int].wf(*settings));
                return None;
            }
            k += 1;
        }
        Some(Board { tiles, score, settings: *settings, pending_spawn: false })
    }

    /// The score.
    pub fn score(&self) -> (r: i32)
        ensures
            r == self@.score,
    {
        self.score
    }

    /// The tiles, in the order in which the board keeps them.
    pub fn tiles(&self) -> (r: &Vec<Tile>)
        ensures
            r@ == self@.tiles,
    {
        &self.tiles
    }

    /// The configuration of the game.
    pub fn settings(&self) -> (r: &Settings)
        ensures
            *r == self@.settings,
    {
        &self.settings
    }

    /// Whether a spawn is due once the animations have settled.
    pub fn has_pending_spawn(&self) -> (r: bool)
        ensures
            r == self@.pending_spawn,
    {
        self.pending_spawn
    }

    /// Spawns a tile on a free cell chosen at random, with value 2 (nine
    /// times in ten) or 4. Does nothing when the board holds as many tiles
    /// as the grid has cells.
    pub fn generate_tile(&mut self)
        requires
            old(self).wf(),
        ensures
            final(self).wf(),
            exists|pick: u32, roll: u32| final(self)@ == old(self)@.spawn(pick, roll),
            final(self)@.tiles.len() <= old(self)@.settings.cells(),
            old(self)@.tiles.len() == old(self)@.settings.cells() ==> final(self)@ == old(self)@,
            old(self)@.tiles.len() < old(self)@.settings.cells() ==> {
                let after = final(self)@.tiles;
                &&& after.len() == old(self)@.tiles.len() + 1
                &&& after.drop_last() == old(self)@.tiles
                &&& after.last().value == 2 || after.last().value == 4
                &&& !after.last().settled()
                &&& !occupied(old(self)@.tiles, after.last().x as int, after.last().y as int)
            },
            old(self)@.regular() && no_slides(old(self)@.tiles) ==> final(self)@.regular()
                && no_slides(final(self)@.tiles),
    {
        if self.tiles.len() >= self.settings.cell_count() {
            proof {
                lemma_spawn(self@, 0, 0);
            }
            return ;
        }
        let (pick, roll) = draw();
        self.spawn_with(pick, roll);
    }

    /// Spawns the tile that the draws `pick` and `roll` decide: on the free
    /// cell number `pick` modulo the number of free cells, counted row by
    /// row, with value 4 if `roll` is a multiple of ten and 2 otherwise.
    /// Does nothing when the board holds as many tiles as the grid has
    /// cells.
    pub fn spawn_with(&mut self, pick: u32, roll: u32)
        requires
            old(self).wf(),
        ensures
            final(self).wf(),
            final(self)@ == old(self)@.spawn(pick, roll),
            final(self)@.tiles.len() <= old(self)@.settings.cells(),
            old(self)@.tiles.len() == old(self)@.settings.cells() ==> final(self)@ == old(self)@,
            old(self)@.tiles.len() < old(self)@.settings.cells() ==> {
                let after = final(self)@.tiles;
                &&& after.len() == old(self)@.tiles.len() + 1
                &&& after.drop_last() == old(self)@.tiles
                &&& after.last().value == 2 || after.last().value == 4
                &&& !after.last().settled()
                &&& !occupied(old(self)@.tiles, after.last().x as int, after.last().y as int)
            },
            old(self)@.regular() && no_slides(old(self)@.tiles) ==> final(self)@.regular()
                && no_slides(final(self)@.tiles),
    {
        proof {
            lemma_spawn(self@, pick, roll);
        }
        place(&self.settings, &mut self.tiles, pick, roll);
    }

    /// Whether the score has room for what the merges due on the board will
    /// add, as `update` asks.
    pub fn can_update(&self) -> (r: bool)
        requires
            self.wf(),
        ensures
            r == self@.merge_room(),
    {
        fits(&self.settings, &self.tiles, self.score)
    }

    /// Lets `elapsed` ticks pass and, unless a tile is still animating,
    /// resolves the merges. Returns whether a spawn is now to take place.
    fn settle(&mut self, elapsed: u32) -> (due: bool)
        requires
            old(self).wf(),
            old(self)@.merge_room(),
        ensures
            final(self).wf(),
            old(self)@.ticked(elapsed).locking() ==> !due && final(self)@ == old(self)@.ticked(
                elapsed,
            ),
            !old(self)@.ticked(elapsed).locking() ==> due == old(self)@.pending_spawn && final(self)@ == (BoardView { pending_spawn: false, ..old(self)@.ticked(elapsed).resolved() }),
    {
        let ghost before = self@;
        let n = self.tiles.len();
        let mut k: usize = 0;
        while k < n
            invariant
                self.tiles.len() == n,
                n == before.tiles.len(),
                k <= n,
                self.score == before.score,
                self.settings == before.settings,
                self.pending_spawn == before.pending_spawn,
                forall|i: int| 0 <= i < k ==> self.tiles[i] == before.tiles[i].advanced(elapsed),
                forall|i: int| k <= i < n ==> self.tiles[i] == before.tiles[i],
            decreases n - k,
        {
            let mut t = self.tiles[k];
            t.advance(elapsed);
            self.tiles.set(k, t);
            k += 1;
        }
        proof {
            assert(self.tiles@ =~= advanced_all(before.tiles, elapsed));
            lemma_advanced_all(before.tiles, before.settings, elapsed);
        }
        if !settled(&self.tiles) {
            return false;
        }
        proof {
            lemma_pairs_ignore_time(before.tiles, elapsed, n as int);
            lemma_swept_wf(self.tiles@, self.settings, n as int);
            lemma_gain_grows(self.tiles@, self.settings, 0, n as int);
        }
        let (next, gained) = resolve(&self.settings, &self.tiles);
        self.tiles = next;
        self.add_score(gained);
        let due = self.pending_spawn;
        self.pending_spawn = false;
        due
    }

    /// Advances the game by `elapsed` ticks. Every tile's animation moves
    /// on. While a tile is still animating after that, nothing else happens.
    /// Else the merges are resolved: on every cell that holds two or more
    /// tiles, the two lowest-numbered ones are replaced by one tile carrying
    /// their sum, which is added to the score. Then the tile spawns that a
    /// move has left pending.
    pub fn update(&mut self, elapsed: u32)
        requires
            old(self).wf(),
            old(self)@.merge_room(),
        ensures
            final(self).wf(),
            exists|pick: u32, roll: u32| final(self)@ == old(self)@.updated(elapsed, pick, roll),
            final(self)@.score >= old(self)@.score,
            old(self)@.ticked(elapsed).locking() ==> final(self)@.tiles.len() == old(self)@.tiles.len() && final(self)@.score == old(self)@.score,
            !final(self)@.locking() ==> distinct_cells(final(self)@.tiles),
            old(self)@.regular() ==> final(self)@.regular(),
    {
        let ghost before = self@;
        if self.settle(elapsed) {
            let ghost mid = self@;
            self.generate_tile();
            proof {
                let (pick, roll) = choose|pick: u32, roll: u32| self@ == mid.spawn(pick, roll);
                assert(self@ == before.updated(elapsed, pick, roll));
                lemma_updated(before, elapsed, pick, roll);
            }
        } else {
            proof {
                assert(self@ == before.updated(elapsed, 0, 0));
                lemma_updated(before, elapsed, 0, 0);
            }
        }
    }

    /// `update` with the draws of the spawn given by the caller instead of
    /// drawn at random.
    pub fn update_with(&mut self, elapsed: u32, pick: u32, roll: u32)
        requires
            old(self).wf(),
            old(self)@.merge_room(),
        ensures
            final(self).wf(),
            final(self)@ == old(self)@.updated(elapsed, pick, roll),
            final(self)@.score >= old(self)@.score,
            old(self)@.ticked(elapsed).locking() ==> final(self)@.tiles.len() == old(self)@.tiles.len() && final(self)@.score == old(self)@.score,
            !final(self)@.locking() ==> distinct_cells(final(self)@.tiles),
            old(self)@.regular() ==> final(self)@.regular(),
    {
        proof {
            lemma_updated(self@, elapsed, pick, roll);
        }
        if self.settle(elapsed) {
            self.spawn_with(pick, roll);
        }
    }

    /// Moves the tiles towards the wall that `dir` names, if the board
    /// takes moves. In every line each tile travels as far as it can; a tile
    /// that meets a tile of its own value which no other tile has joined in
    /// this move travels onto that tile's cell, where the next update
    /// merges the two. Tiles that leave their cell start sliding, and a
    /// spawn becomes due if any did.
    pub fn shift(&mut self, dir: Direction)
        requires
            old(self).wf(),
        ensures
            final(self).wf(),
            final(self)@ == old(self)@.shifted(dir),
            final(self)@.score == old(self)@.score,
            final(self)@.tiles.len() == old(self)@.tiles.len(),
            old(self)@.regular() ==> final(self)@.regular(),
    {
        proof {
            lemma_shifted(self@, dir);
        }
        if !settled(&self.tiles) || !cells_distinct(&self.tiles) {
            return ;
        }
        let (next, changed) = slide(&self.settings, &self.tiles, dir);
        if changed {
            self.tiles = next;
            self.pending_spawn = true;
        }
    }

    /// Moves the tiles up, towards row `0`.
    pub fn merge_from_bottom_to_top(&mut self)
        requires
            old(self).wf(),
        ensures
            final(self).wf(),
            final(self)@ == old(self)@.shifted(Direction::Up),
            final(self)@.score == old(self)@.score,
            final(self)@.tiles.len() == old(self)@.tiles.len(),
            old(self)@.regular() ==> final(self)@.regular(),
    {
        self.shift(Direction::Up);
    }

    /// Moves the tiles down, towards the last row.
    pub fn merge_from_top_to_bottom(&mut self)
        requires
            old(self).wf(),
        ensures
            final(self).wf(),
            final(self)@ == old(self)@.shifted(Direction::Down),
            final(self)@.score == old(self)@.score,
            final(self)@.tiles.len() == old(self)@.tiles.len(),
            old(self)@.regular() ==> final(self)@.regular(),
    {
        self.shift(Direction::Down);
    }

    /// Moves the tiles to the right, towards the last column.
    pub fn merge_from_left_to_right(&mut self)
        requires
            old(self).wf(),
        ensures
            final(self).wf(),
            final(self)@ == old(self)@.shifted(Direction::Right),
            final(self)@.score == old(self)@.score,
            final(self)@.tiles.len() == old(self)@.tiles.len(),
            old(self)@.regular() ==> final(self)@.regular(),
    {
        self.shift(Direction::Right);
    }

    /// Moves the tiles to the left, towards column `0`.
    pub fn merge_from_right_to_left(&mut self)
        requires
            old(self).wf(),
        ensures
            final(self).wf(),
            final(self)@ == old(self)@.shifted(Direction::Left),
            final(self)@.score == old(self)@.score,
            final(self)@.tiles.len() == old(self)@.tiles.len(),
            old(self)@.regular() ==> final(self)@.regular(),
    {
        self.shift(Direction::Left);
    }

    /// Whether some tile is animating.
    pub fn is_locking(&self) -> (r: bool)
        ensures
            r == self@.locking(),
    {
        !settled(&self.tiles)
    }

    /// The first tile met when walking from `(x, y)` by `(step_x, step_y)`,
    /// the start not counted, until the walk leaves the grid.
    pub fn get_next_tile(&self, x: i32, y: i32, step_x: i32, step_y: i32) -> (r: Option<&Tile>)
        requires
            step_x != 0 || step_y != 0,
        ensures
            r matches Some(t) ==> exists|k: int|
                #![trigger ray(x as int, y as int, step_x as int, step_y as int, k)]
                hits(
                    self@.tiles,
                    self@.settings,
                    x as int,
                    y as int,
                    step_x as int,
                    step_y as int,
                    k,
                ) && *t == self@.tiles[first_from(
                    self@.tiles,
                    0,
                    ray(x as int, y as int, step_x as int, step_y as int, k).0,
                    ray(x as int, y as int, step_x as int, step_y as int, k).1,
                )],
            r is None ==> forall|k: int|
                !hits(
                    self@.tiles,
                    self@.settings,
                    x as int,
                    y as int,
                    step_x as int,
                    step_y as int,
                    k,
                ),
    {
        let k = find_next(&self.tiles, &self.settings, x, y, step_x, step_y);
        if k < self.tiles.len() {
            Some(&self.tiles[k])
        } else {
            None
        }
    }

    /// The first tile on the cell `(x, y)`, if the cell holds one.
    pub fn get_tile(&self, x: i32, y: i32) -> (r: Option<&Tile>)
        ensures
            r is Some <==> occupied(self@.tiles, x as int, y as int),
            r matches Some(t) ==> *t == self@.tiles[first_from(
                self@.tiles,
                0,
                x as int,
                y as int,
            )],
    {
        let k = find_from(&self.tiles, 0, x, y);
        if k < self.tiles.len() {
            Some(&self.tiles[k])
        } else {
            None
        }
    }

    /// Number of tiles on the cell `(x, y)`, animating or not.
    pub fn get_tile_count(&self, x: i32, y: i32) -> (r: i32)
        requires
            self.wf(),
        ensures
            r == count_at(self@.tiles, self@.tiles.len() as int, x as int, y as int),
    {
        let mut count: i32 = 0;
        let mut k: usize = 0;
        while k < self.tiles.len()
            invariant
                self.wf(),
                k <= self.tiles.len(),
                count == count_at(self.tiles@, k as int, x as int, y as int),
            decreases self.tiles.len() - k,
        {
            proof {
                lemma_count_at(self.tiles@, k as int, x as int, y as int);
            }
            if self.tiles[k].x == x && self.tiles[k].y == y {
                count += 1;
            }
            k += 1;
        }
        count
    }

    /// Adds `delta` to the score.
    pub fn add_score(&mut self, delta: i32)
        requires
            0 <= delta,
            old(self)@.score + delta <= i32::MAX,
        ensures
            final(self)@ == (BoardView { score: old(self)@.score + delta, ..old(self)@ }),
    {
        self.score += delta;
    }
}

} // verus!
