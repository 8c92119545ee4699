//! A game session: the grid, the swipe commands that wait for it, and the
//! tick that resolves them one at a time.

use crate::board::{lemma_board_of_valid, lemma_change_leaves_room, swipe_board, Board};
use crate::deps::random_rolls;
use crate::grid::Grid;
use crate::spawn::{free_cells_of, lemma_free_cell_count, lemma_free_cell_listed};
use crate::tile::{in_bounds, Direction, Tile, HEIGHT, WIDTH};
use std::collections::VecDeque;
use vstd::prelude::*;

verus! {

/// What one tick did.
#[derive(Clone, Copy, Debug, PartialEq, Eq)]
pub struct TickReport {
    /// The command that was resolved, if one was waiting.
    pub direction: Option<Direction>,
    /// Whether the swipe moved or merged a tile.
    pub changed: bool,
    /// The tile that was spawned after the swipe, if one was.
    pub spawned: Option<Tile>,
    /// Whether the grid is full after the tick.
    pub terminal: bool,
}

/// A grid, the commands that wait for it in the order they came, and the
/// number of starting values a new tile is drawn from.
#[derive(Debug)]
pub struct Session {
    grid: Grid,
    pending: VecDeque<Direction>,
    value_span: u32,
}

/// What resolving a swipe in direction `dir` makes of board `before`, given
/// the numbers drawn for the new tile: the board is swiped and, if that
/// changed it, a tile is put into the free cell that `cell_roll` falls on,
/// with the value that `value_roll` falls on among the `span` lowest.
pub open spec fn swipe_outcome(
    before: Board,
    dir: Direction,
    cell_roll: int,
    value_roll: int,
    span: int,
    after: Board,
    report: TickReport,
) -> bool {
    let swiped = swipe_board(before, dir);
    let free = free_cells_of(swiped);
    &&& report.direction == Some(dir)
    &&& report.changed <==> swiped != before
    &&& if report.changed {
        &&& free.len() > 0
        &&& report.spawned matches Some(tile)
        &&& tile.cell() == free[cell_roll % (free.len() as int)]
        &&& tile.value == value_roll % span
        &&& !tile.merged_this_move
        &&& after == swiped.insert(tile.cell(), tile.value as int)
    } else {
        &&& report.spawned is None
        &&& after == before
    }
}

impl Session {
    /// What holds of every session: new tiles are drawn from at least one
    /// value.
    #[verifier::type_invariant]
    pub closed spec fn well_formed(self) -> bool {
        self.value_span > 0
    }

    /// The grid of the session.
    pub closed spec fn grid(self) -> Grid {
        self.grid
    }

    /// The commands that wait, the oldest first.
    pub closed spec fn pending(self) -> Seq<Direction> {
        self.pending@
    }

    /// The number of starting values a new tile is drawn from.
    pub closed spec fn value_span(self) -> u32 {
        self.value_span
    }

    /// A session with an empty grid and no command waiting, in which a new
    /// tile gets one of the `value_span` lowest values. There is none for a
    /// span of zero.
    pub fn new(value_span: u32) -> (session: Option<Session>)
        ensures
            session is Some <==> value_span > 0,
            session matches Some(s) ==> s.grid()@ == Seq::<Tile>::empty() && s.pending()
                == Seq::<Direction>::empty() && s.value_span() == value_span,
    {
        if value_span == 0 {
            None
        } else {
            Some(Session { grid: Grid::new(), pending: VecDeque::new(), value_span })
        }
    }

    /// Adds a swipe command behind those that wait.
    pub fn submit_direction(&mut self, dir: Direction)
        ensures
            final(self).pending() == old(self).pending().push(dir),
            final(self).grid() == old(self).grid(),
            final(self).value_span() == old(self).value_span(),
    {
        proof {
            use_type_invariant(&*self);
        }
        let mut pending: VecDeque<Direction> = VecDeque::new();
        std::mem::swap(&mut pending, &mut self.pending);
        pending.push_back(dir);
        self.pending = pending;
    }

    /// Takes the oldest command that waits, if there is one.
    pub fn take_pending_direction(&mut self) -> (dir: Option<Direction>)
        ensures
            old(self).pending().len() == 0 ==> dir is None && final(self).pending() == old(self).pending(),
            old(self).pending().len() > 0 ==> dir == Some(old(self).pending()[0]) && final(self).pending() == old(self).pending().skip(1),
            final(self).grid() == old(self).grid(),
            final(self).value_span() == old(self).value_span(),
    {
        proof {
            use_type_invariant(&*self);
        }
        let mut pending: VecDeque<Direction> = VecDeque::new();
        std::mem::swap(&mut pending, &mut self.pending);
        let dir = pending.pop_front();
        self.pending = pending;
        dir
    }

    /// The tiles of the grid, for display.
    pub fn snapshot(&self) -> (tiles: Vec<Tile>)
        ensures
            tiles@ == self.grid()@,
    {
        self.grid.snapshot()
    }

    /// Whether the grid is full.
    pub fn is_terminal(&self) -> (full: bool)
        ensures
            full <==> self.grid()@.len() == WIDTH * HEIGHT,
    {
        self.grid.is_terminal()
    }

    /// Whether a swipe can be resolved: no tile holds the largest value a
    /// tile can hold.
    pub fn check_headroom(&self) -> (ok: bool)
        ensures
            ok == self.grid().has_headroom(),
    {
        self.grid.check_headroom()
    }

    /// Puts a tile on the grid, if it can go there: it must lie on the
    /// grid, in a free cell, and not be marked as merged.
    pub fn place(&mut self, tile: Tile) -> (placed: bool)
        ensures
            placed <==> in_bounds(tile.cell()) && !tile.merged_this_move && !old(
                self).grid().board().contains_key(tile.cell()),
            placed ==> final(self).grid()@ == old(self).grid()@.push(tile),
            !placed ==> final(self).grid()@ == old(self).grid()@,
            final(self).pending() == old(self).pending(),
            final(self).value_span() == old(self).value_span(),
    {
        proof {
            use_type_invariant(&*self);
        }
        let mut grid = Grid::new();
        std::mem::swap(&mut grid, &mut self.grid);
        let placed = grid.place(tile);
        self.grid = grid;
        placed
    }

    /// Spawns a tile outside any swipe, as at the start of a game: in a free
    /// cell drawn at random, with a value drawn at random among the lowest.
    /// On a full grid nothing is done.
    pub fn spawn_one(&mut self) -> (tile: Option<Tile>)
        ensures
            tile is Some <==> old(self).grid()@.len() < WIDTH * HEIGHT,
            tile matches Some(t) ==> {
                &&& free_cells_of(old(self).grid().board()).contains(t.cell())
                &&& !old(self).grid().board().contains_key(t.cell())
                &&& t.value < old(self).value_span()
                &&& !t.merged_this_move
                &&& final(self).grid()@ == old(self).grid()@.push(t)
            },
            tile is None ==> final(self).grid() == old(self).grid(),
            final(self).pending() == old(self).pending(),
            final(self).value_span() == old(self).value_span(),
    {
        proof {
            use_type_invariant(&*self);
            use_type_invariant(&self.grid);
            lemma_free_cell_count(self.grid@);
        }
        if self.grid.is_terminal() {
            return None;
        }
        let mut grid = Grid::new();
        std::mem::swap(&mut grid, &mut self.grid);
        let tile = grid.spawn_one(self.value_span);
        self.grid = grid;
        Some(tile)
    }

    /// Empties the grid, for a new game. Commands that wait stay.
    pub fn reset(&mut self)
        ensures
            final(self).grid()@ == Seq::<Tile>::empty(),
            final(self).pending() == old(self).pending(),
            final(self).value_span() == old(self).value_span(),
    {
        proof {
            use_type_invariant(&*self);
        }
        self.grid = Grid::new();
    }

    /// Resolves a swipe in direction `dir` with the given numbers drawn for
    /// the new tile: swipes the grid, spawns a tile if the swipe changed
    /// the grid, and reports whether the grid is full then.
    pub fn resolve_with(&mut self, dir: Direction, cell_roll: usize, value_roll: u32) -> (report:
        TickReport)
        requires
            old(self).grid().has_headroom(),
        ensures
            swipe_outcome(
                old(self).grid().board(),
                dir,
                cell_roll as int,
                value_roll as int,
                old(self).value_span() as int,
                final(self).grid().board(),
                report,
            ),
            report.terminal <==> final(self).grid()@.len() == WIDTH * HEIGHT,
            final(self).grid().well_formed(),
            final(self).pending() == old(self).pending(),
            final(self).value_span() == old(self).value_span(),
    {
        proof {
            use_type_invariant(&*self);
        }
        let mut grid = Grid::new();
        std::mem::swap(&mut grid, &mut self.grid);
        let ghost before = grid.board();
        proof {
            use_type_invariant(&grid);
            lemma_board_of_valid(grid@);
        }
        let result = grid.apply_swipe(dir);
        let mut spawned: Option<Tile> = None;
        if result.changed {
            proof {
                let c = lemma_change_leaves_room(before, dir);
                lemma_free_cell_listed(grid.board(), c);
                lemma_free_cell_count(grid@);
            }
            let tile = grid.spawn_at(cell_roll, value_roll, self.value_span);
            spawned = Some(tile);
        }
        let terminal = grid.is_terminal();
        self.grid = grid;
        TickReport { direction: Some(dir), changed: result.changed, spawned, terminal }
    }

    /// Resolves the oldest command that waits, if there is one, with the
    /// given numbers drawn for the new tile. With no command waiting
    /// nothing changes.
    pub fn tick_with(&mut self, cell_roll: usize, value_roll: u32) -> (report: TickReport)
        requires
            old(self).grid().has_headroom(),
        ensures
            old(self).pending().len() == 0 ==> {
                &&& report.direction is None
                &&& !report.changed
                &&& report.spawned is None
                &&& final(self).grid() == old(self).grid()
                &&& final(self).pending() == old(self).pending()
            },
            old(self).pending().len() > 0 ==> {
                &&& swipe_outcome(
                    old(self).grid().board(),
                    old(self).pending()[0],
                    cell_roll as int,
                    value_roll as int,
                    old(self).value_span() as int,
                    final(self).grid().board(),
                    report,
                )
                &&& final(self).pending() == old(self).pending().skip(1)
            },
            report.terminal <==> final(self).grid()@.len() == WIDTH * HEIGHT,
            final(self).value_span() == old(self).value_span(),
    {
        match self.take_pending_direction() {
            None => TickReport {
                direction: None,
                changed: false,
                spawned: None,
                terminal: self.is_terminal(),
            },
            Some(dir) => self.resolve_with(dir, cell_roll, value_roll),
        }
    }

    /// Resolves the oldest command that waits, if there is one, drawing the
    /// cell and the value of the new tile at random. Nothing is done, and
    /// nothing reported, while a tile holds the largest value a tile can
    /// hold.
    pub fn tick(&mut self) -> (report: Option<TickReport>)
        ensures
            report is Some <==> old(self).grid().has_headroom(),
            report is None ==> final(self).grid() == old(self).grid() && final(self).pending() == old(self).pending(),
            report matches Some(r) ==> {
                &&& old(self).pending().len() == 0 ==> {
                    &&& r.direction is None
                    &&& !r.changed
                    &&& r.spawned is None
                    &&& final(self).grid() == old(self).grid()
                    &&& final(self).pending() == old(self).pending()
                }
                &&& old(self).pending().len() > 0 ==> {
                    &&& exists|cell_roll: int, value_roll: int|
                        swipe_outcome(
                            old(self).grid().board(),
                            old(self).pending()[0],
                            cell_roll,
                            value_roll,
                            old(self).value_span() as int,
                            final(self).grid().board(),
                            r,
                        )
                    &&& final(self).pending() == old(self).pending().skip(1)
                }
                &&& r.terminal <==> final(self).grid()@.len() == WIDTH * HEIGHT
            },
            final(self).value_span() == old(self).value_span(),
    {
        if !self.check_headroom() {
            return None;
        }
        let (cell_roll, value_roll) = random_rolls();
        let report = self.tick_with(cell_roll, value_roll);
        Some(report)
    }
}

} // verus!
