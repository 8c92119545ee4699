//! The grid engine: the tiles of a game and the swipe that moves and merges
//! them.

use crate::board::{
    board_of, has_headroom, index_at, is_board, lemma_board_of, lemma_board_of_valid, occupies,
    settled_lanes, swipe_board, tiles_have_headroom, tiles_valid, Board,
};
use crate::deps::{grouped_by_lane, sorted_by_lane};
use crate::lane::swipe_range;
use crate::runs::{
    lemma_board_ignores_marks, lemma_runs_are_lanes, lemma_swipe_end, lemma_swipe_start,
    lemma_swipe_step, run_lanes, runs_are_lanes, some_lane_differs,
};
use crate::tile::{in_bounds, Direction, Position, SwipeResult, Tile, HEIGHT, WIDTH};
use vstd::prelude::*;

verus! {

/// The live tiles of a game. Between swipes no two tiles share a cell, all
/// lie on the grid and none is marked as merged.
#[derive(Debug)]
pub struct Grid {
    tiles: Vec<Tile>,
}

impl View for Grid {
    type V = Seq<Tile>;

    /// The tiles, in the order a snapshot lists them.
    closed spec fn view(&self) -> Seq<Tile> {
        self.tiles@
    }
}

impl Grid {
    /// What holds of the tiles of every grid.
    #[verifier::type_invariant]
    pub open spec fn well_formed(self) -> bool {
        tiles_valid(self@)
    }

    /// The grid as a map from occupied cells to tile values.
    pub open spec fn board(self) -> Board {
        board_of(self@)
    }

    /// Whether no tile holds the largest value a tile can hold, so that any
    /// two can merge.
    pub open spec fn has_headroom(self) -> bool {
        tiles_have_headroom(self@)
    }

    /// The empty grid.
    pub fn new() -> (grid: Grid)
        ensures
            grid@ == Seq::<Tile>::empty(),
            grid.well_formed(),
    {
        Grid { tiles: Vec::new() }
    }

    /// The grid that holds the given tiles, if they can be the tiles of a
    /// grid: all on the grid, no two in the same cell, none marked as
    /// merged.
    pub fn from_tiles(tiles: Vec<Tile>) -> (grid: Option<Grid>)
        ensures
            grid is Some <==> tiles_valid(tiles@),
            grid matches Some(g) ==> g@ == tiles@ && g.well_formed(),
    {
        let n = tiles.len();
        let mut i: usize = 0;
        while i < n
            invariant
                0 <= i <= n,
                n == tiles@.len(),
                forall|a: int| 0 <= a < i ==> in_bounds(#[trigger] tiles@[a].cell()),
                forall|a: int| 0 <= a < i ==> !(#[trigger] tiles@[a]).merged_this_move,
                forall|a: int, b: int|
                    0 <= a < b < i ==> #[trigger] tiles@[a].cell() != #[trigger] tiles@[b].cell(),
            decreases n - i,
        {
            let t = tiles[i];
            if !t.position.on_grid() || t.merged_this_move {
                proof {
                    assert(!(in_bounds(tiles@[i as int].cell())
                        && !tiles@[i as int].merged_this_move));
                }
                return None;
            }
            let mut j: usize = 0;
            while j < i
                invariant
                    0 <= j <= i < n,
                    n == tiles@.len(),
                    t == tiles@[i as int],
                    in_bounds(t.cell()),
                    !t.merged_this_move,
                    forall|a: int| 0 <= a < i ==> in_bounds(#[trigger] tiles@[a].cell()),
                    forall|a: int| 0 <= a < i ==> !(#[trigger] tiles@[a]).merged_this_move,
                    forall|a: int, b: int|
                        0 <= a < b < i ==> #[trigger] tiles@[a].cell() != #[trigger] tiles@[b].cell(),
                    forall|a: int| 0 <= a < j ==> #[trigger] tiles@[a].cell() != t.cell(),
                decreases i - j,
            {
                if tiles[j].position == t.position {
                    proof {
                        assert(tiles@[j as int].cell() == tiles@[i as int].cell());
                    }
                    return None;
                }
                j += 1;
            }
            i += 1;
        }
        Some(Grid { tiles })
    }

    /// The tiles of the grid, for display.
    pub fn snapshot(&self) -> (tiles: Vec<Tile>)
        ensures
            tiles@ == self@,
    {
        let mut tiles: Vec<Tile> = Vec::new();
        let mut i: usize = 0;
        while i < self.tiles.len()
            invariant
                0 <= i <= self.tiles@.len(),
                tiles@ == self.tiles@.take(i as int),
            decreases self.tiles@.len() - i,
        {
            tiles.push(self.tiles[i]);
            proof {
                assert(self.tiles@.take(i as int).push(self.tiles@[i as int]) =~= self.tiles@.take(
                    i + 1,
                ));
            }
            i += 1;
        }
        proof {
            assert(self.tiles@.take(self.tiles@.len() as int) =~= self.tiles@);
        }
        tiles
    }

    /// The number of tiles on the grid.
    pub fn len(&self) -> (n: usize)
        ensures
            n == self@.len(),
    {
        self.tiles.len()
    }


    /// The value of the tile in the cell at `position`, if there is one.
    pub fn value_at(&self, position: Position) -> (value: Option<u32>)
        ensures
            value is Some <==> self.board().contains_key(position@),
            value matches Some(v) ==> self.board()[position@] == v,
    {
        proof {
            use_type_invariant(self);
        }
        let mut i: usize = 0;
        while i < self.tiles.len()
            invariant
                0 <= i <= self.tiles@.len(),
                tiles_valid(self.tiles@),
                forall|a: int| 0 <= a < i ==> #[trigger] self.tiles@[a].cell() != position@,
            decreases self.tiles@.len() - i,
        {
            if self.tiles[i].position == position {
                proof {
                    lemma_board_of(self.tiles@);
                    assert(self.tiles@[i as int].cell() == position@);
                }
                return Some(self.tiles[i].value);
            }
            i += 1;
        }
        proof {
            lemma_board_of(self.tiles@);
            if occupies(self.tiles@, position@) {
                let a = index_at(self.tiles@, position@);
                assert(self.tiles@[a].cell() != position@);
            }
        }
        None
    }

    /// Whether no tile holds the largest value a tile can hold.
    pub fn check_headroom(&self) -> (ok: bool)
        ensures
            ok == self.has_headroom(),
    {
        let mut i: usize = 0;
        while i < self.tiles.len()
            invariant
                0 <= i <= self.tiles@.len(),
                forall|a: int| 0 <= a < i ==> (#[trigger] self.tiles@[a]).value < u32::MAX,
            decreases self.tiles@.len() - i,
        {
            if self.tiles[i].value == u32::MAX {
                return false;
            }
            i += 1;
        }
        true
    }

    /// Puts a tile on the grid, if it can go there: it must lie on the
    /// grid, in a free cell, and not be marked as merged.
    pub fn place(&mut self, tile: Tile) -> (placed: bool)
        ensures
            placed <==> in_bounds(tile.cell()) && !tile.merged_this_move && !old(self).board().contains_key(
                tile.cell(),
            ),
            placed ==> final(self)@ == old(self)@.push(tile),
            !placed ==> final(self)@ == old(self)@,
            final(self).well_formed(),
    {
        proof {
            use_type_invariant(&*self);
            lemma_board_of(self.tiles@);
        }
        if !tile.position.on_grid() || tile.merged_this_move || self.value_at(tile.position).is_some() {
            return false;
        }
        let ghost before = self.tiles@;
        let mut tiles: Vec<Tile> = Vec::new();
        std::mem::swap(&mut tiles, &mut self.tiles);
        tiles.push(tile);
        proof {
            assert forall|i: int, j: int| 0 <= i < j < tiles@.len() implies #[trigger] tiles@[i].cell()
                != #[trigger] tiles@[j].cell() by {
                if j < before.len() {
                    assert(before[i].cell() != before[j].cell());
                } else {
                    assert(board_of(before).contains_key(before[i].cell()));
                }
            }
            assert forall|i: int| 0 <= i < tiles@.len() implies in_bounds(
                #[trigger] tiles@[i].cell(),
            ) && !tiles@[i].merged_this_move by {
                if i < before.len() {
                    assert(in_bounds(before[i].cell()));
                }
            }
        }
        self.tiles = tiles;
        true
    }

    /// Removes every tile from the grid.
    pub fn clear(&mut self)
        ensures
            final(self)@ == Seq::<Tile>::empty(),
            final(self).well_formed(),
    {
        self.tiles = Vec::new();
    }

    /// Swipes the grid: every lane is compacted against the wall that `dir`
    /// points to, and neighbouring tiles of equal value merge, each tile at
    /// most once. The result tells whether any tile moved or merged.
    pub fn apply_swipe(&mut self, dir: Direction) -> (result: SwipeResult)
        requires
            old(self).has_headroom(),
        ensures
            final(self).well_formed(),
            final(self).board() == swipe_board(old(self).board(), dir),
            result.changed <==> final(self).board() != old(self).board(),
    {
        proof {
            use_type_invariant(&*self);
        }
        let ghost before = self.tiles@;
        let ghost b = board_of(before);
        let mut tiles: Vec<Tile> = Vec::new();
        std::mem::swap(&mut tiles, &mut self.tiles);
        let sorted = sorted_by_lane(tiles, dir);
        let ghost in_order = sorted@;
        let mut runs = grouped_by_lane(sorted, dir);
        let ghost all_runs = runs@;
        proof {
            lemma_runs_are_lanes(before, in_order, dir, all_runs);
            lemma_board_of_valid(before);
            lemma_swipe_start(b, dir, all_runs);
        }
        let mut out: Vec<Tile> = Vec::new();
        let mut changed = false;
        while runs.len() > 0
            invariant
                runs@.len() <= all_runs.len(),
                runs@ == all_runs.take(runs@.len() as int),
                runs_are_lanes(b, dir, all_runs),
                is_board(b),
                has_headroom(b),
                out@ == settled_lanes(b, dir, run_lanes(all_runs).skip(runs@.len() as int)),
                changed <==> some_lane_differs(b, dir, run_lanes(all_runs), runs@.len() as int),
            decreases runs.len(),
        {
            let ghost g = runs@.len() - 1;
            let (lane, mut run) = runs.pop().unwrap();
            proof {
                assert(all_runs[g] == (lane, run));
                assert(runs@ =~= all_runs.take(g));
                lemma_swipe_step(b, dir, all_runs, g);
            }
            let lane_changed = swipe_range(dir, &mut run);
            changed = changed || lane_changed;
            out.append(&mut run);
        }
        proof {
            lemma_swipe_end(b, dir, all_runs);
        }
        let ghost marked = out@;
        let mut i: usize = 0;
        while i < out.len()
            invariant
                0 <= i <= out@.len(),
                out@.len() == marked.len(),
                forall|j: int|
                    0 <= j < out@.len() ==> (#[trigger] out@[j]).position == marked[j].position
                        && out@[j].value == marked[j].value,
                forall|j: int| 0 <= j < i ==> !(#[trigger] out@[j]).merged_this_move,
            decreases out@.len() - i,
        {
            let t = out[i];
            out.set(i, Tile { position: t.position, value: t.value, merged_this_move: false });
            i += 1;
        }
        proof {
            lemma_board_ignores_marks(marked, out@);
            assert forall|j: int| 0 <= j < out@.len() implies in_bounds(
                #[trigger] out@[j].cell(),
            ) by {
                assert(in_bounds(marked[j].cell()));
            }
            assert forall|j: int, k: int| 0 <= j < k < out@.len() implies #[trigger] out@[j].cell()
                != #[trigger] out@[k].cell() by {
                assert(marked[j].cell() != marked[k].cell());
            }
        }
        self.tiles = out;
        SwipeResult { changed }
    }

    /// Whether the grid is full: it holds as many tiles as it has cells.
    pub fn is_terminal(&self) -> (full: bool)
        ensures
            full <==> self@.len() == WIDTH * HEIGHT,
    {
        self.tiles.len() == (WIDTH * HEIGHT) as usize
    }
}

} // verus!
