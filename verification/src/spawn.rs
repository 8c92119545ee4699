//! The spawner: where a new tile can go, and putting it there.

use crate::board::{board_of, lemma_board_of_push, lemma_without_last, tiles_valid, Board};
use crate::deps::{cell_pairs, random_rolls};
use crate::grid::Grid;
use crate::tile::{in_bounds, Position, Tile, HEIGHT, WIDTH};
use vstd::prelude::*;

verus! {

/// The cells of the grid in the order in which the spawner considers them:
/// column by column and, within a column, row by row.
pub open spec fn grid_cell(k: int) -> (int, int) {
    (k / (HEIGHT as int), k % (HEIGHT as int))
}

/// The free cells among the first `n` cells of the grid, in order.
pub open spec fn free_prefix(b: Board, n: int) -> Seq<(int, int)>
    decreases n,
{
    if n <= 0 {
        Seq::empty()
    } else if b.contains_key(grid_cell(n - 1)) {
        free_prefix(b, n - 1)
    } else {
        free_prefix(b, n - 1).push(grid_cell(n - 1))
    }
}

/// The free cells of the grid, in order.
pub open spec fn free_cells_of(b: Board) -> Seq<(int, int)> {
    free_prefix(b, WIDTH * HEIGHT)
}

/// The cells of a sequence of positions.
pub open spec fn cells_of(positions: Seq<Position>) -> Seq<(int, int)> {
    Seq::new(positions.len(), |i: int| positions[i]@)
}

/// The free cells among the first `n` are on the grid and free, each free
/// cell among the first `n` is one of them, and none comes twice.
pub proof fn lemma_free_prefix(b: Board, n: int)
    requires
        0 <= n <= WIDTH * HEIGHT,
    ensures
        free_prefix(b, n).len() <= n,
        forall|i: int|
            0 <= i < free_prefix(b, n).len() ==> {
                let c = #[trigger] free_prefix(b, n)[i];
                &&& in_bounds(c)
                &&& !b.contains_key(c)
                &&& 0 <= c.0 * HEIGHT + c.1 < n
            },
        forall|k: int|
            0 <= k < n && !b.contains_key(#[trigger] grid_cell(k)) ==> free_prefix(b, n).contains(
                grid_cell(k),
            ),
        forall|i: int, j: int|
            0 <= i < j < free_prefix(b, n).len() ==> #[trigger] free_prefix(b, n)[i]
                != #[trigger] free_prefix(b, n)[j],
    decreases n,
{
    if n > 0 {
        lemma_free_prefix(b, n - 1);
        let p = free_prefix(b, n - 1);
        let q = free_prefix(b, n);
        let c = grid_cell(n - 1);
        assert(in_bounds(c) && c.0 * HEIGHT + c.1 == n - 1);
        assert forall|k: int| 0 <= k < n && !b.contains_key(#[trigger] grid_cell(k)) implies q.contains(
            grid_cell(k),
        ) by {
            if k < n - 1 {
                assert(p.contains(grid_cell(k)));
                let i = choose|i: int| 0 <= i < p.len() && p[i] == grid_cell(k);
                assert(q[i] == grid_cell(k));
            } else {
                assert(q[q.len() - 1] == grid_cell(k));
            }
        }
    }
}

/// Every free cell of the grid is among its free cells.
pub proof fn lemma_free_cell_listed(b: Board, c: (int, int))
    requires
        in_bounds(c),
        !b.contains_key(c),
    ensures
        free_cells_of(b).contains(c),
{
    let k = c.0 * HEIGHT + c.1;
    assert(grid_cell(k) == c);
    lemma_free_prefix(b, WIDTH * HEIGHT);
}

/// Putting a tile into a free cell takes that cell from the free cells and
/// no other.
proof fn lemma_free_prefix_insert(b: Board, c: (int, int), v: int, n: int)
    requires
        0 <= n <= WIDTH * HEIGHT,
        in_bounds(c),
        !b.contains_key(c),
    ensures
        free_prefix(b.insert(c, v), n).len() == free_prefix(b, n).len() - (if c.0 * HEIGHT + c.1 < n {
            1int
        } else {
            0int
        }),
    decreases n,
{
    if n > 0 {
        lemma_free_prefix_insert(b, c, v, n - 1);
        let here = grid_cell(n - 1);
        assert(here == c <==> n - 1 == c.0 * HEIGHT + c.1);
    }
}

/// On the empty board every cell is free.
proof fn lemma_free_prefix_empty(n: int)
    requires
        0 <= n,
    ensures
        free_prefix(Board::empty(), n).len() == n,
    decreases n,
{
    if n > 0 {
        lemma_free_prefix_empty(n - 1);
    }
}

/// Each cell of the grid either holds one tile or is free: the free cells
/// and the tiles together are as many as the grid has cells.
pub proof fn lemma_free_cell_count(tiles: Seq<Tile>)
    requires
        tiles_valid(tiles),
    ensures
        free_cells_of(board_of(tiles)).len() + tiles.len() == WIDTH * HEIGHT,
    decreases tiles.len(),
{
    if tiles.len() == 0 {
        assert(board_of(tiles) =~= Board::empty());
        lemma_free_prefix_empty(WIDTH * HEIGHT);
    } else {
        let front = tiles.drop_last();
        let t = tiles.last();
        lemma_without_last(tiles);
        lemma_free_cell_count(front);
        lemma_free_prefix_insert(board_of(front), t.cell(), t.value as int, WIDTH * HEIGHT);
    }
}

/// A grid is full, holding as many tiles as it has cells, just when none of
/// its cells is free; it never holds more.
pub proof fn lemma_full_grid(tiles: Seq<Tile>)
    requires
        tiles_valid(tiles),
    ensures
        tiles.len() <= WIDTH * HEIGHT,
        tiles.len() == WIDTH * HEIGHT <==> forall|c: (int, int)|
            in_bounds(c) ==> #[trigger] board_of(tiles).contains_key(c),
{
    let b = board_of(tiles);
    let free = free_cells_of(b);
    lemma_free_cell_count(tiles);
    lemma_free_prefix(b, WIDTH * HEIGHT);
    if tiles.len() == WIDTH * HEIGHT {
        assert forall|c: (int, int)| in_bounds(c) implies #[trigger] b.contains_key(c) by {
            if !b.contains_key(c) {
                lemma_free_cell_listed(b, c);
            }
        }
    }
    if free.len() > 0 {
        assert(in_bounds(free[0]) && !b.contains_key(free[0]));
    }
}

impl Grid {
    /// The free cells of the grid, in the order in which the spawner
    /// considers them.
    pub fn free_cells(&self) -> (free: Vec<Position>)
        ensures
            cells_of(free@) == free_cells_of(self.board()),
    {
        let pairs = cell_pairs(WIDTH, HEIGHT);
        let mut free: Vec<Position> = Vec::new();
        let mut k: usize = 0;
        while k < pairs.len()
            invariant
                0 <= k <= pairs@.len(),
                pairs@.len() == WIDTH * HEIGHT,
                forall|i: int|
                    0 <= i < pairs@.len() ==> (#[trigger] pairs@[i]).0 == i / (HEIGHT as int)
                        && pairs@[i].1 == i % (HEIGHT as int),
                cells_of(free@) == free_prefix(self.board(), k as int),
            decreases pairs@.len() - k,
        {
            let position = Position { x: pairs[k].0, y: pairs[k].1 };
            assert(position@ == grid_cell(k as int));
            if self.value_at(position).is_none() {
                free.push(position);
                assert(cells_of(free@) =~= free_prefix(self.board(), k as int).push(position@));
            }
            k += 1;
        }
        free
    }

    /// Puts a new tile on the grid, given the numbers drawn for it: among
    /// the free cells it takes the one that `cell_roll` falls on, and among
    /// the `value_span` lowest values the one that `value_roll` falls on.
    pub fn spawn_at(&mut self, cell_roll: usize, value_roll: u32, value_span: u32) -> (tile: Tile)
        requires
            old(self)@.len() < WIDTH * HEIGHT,
            value_span > 0,
        ensures
            ({
                let free = free_cells_of(old(self).board());
                free.len() > 0 && tile.cell() == free[(cell_roll as int) % (free.len() as int)]
            }),
            in_bounds(tile.cell()),
            !old(self).board().contains_key(tile.cell()),
            tile.value == value_roll % value_span,
            !tile.merged_this_move,
            final(self)@ == old(self)@.push(tile),
            final(self).board() == old(self).board().insert(tile.cell(), tile.value as int),
            final(self).well_formed(),
    {
        proof {
            use_type_invariant(&*self);
            lemma_free_cell_count(self@);
            lemma_free_prefix(self.board(), WIDTH * HEIGHT);
        }
        let free = self.free_cells();
        assert(free@.len() == cells_of(free@).len());
        let at = cell_roll % free.len();
        let position = free[at];
        assert(position@ == cells_of(free@)[at as int]);
        let tile = Tile { position, value: value_roll % value_span, merged_this_move: false };
        proof {
            lemma_board_of_push(self@, tile);
        }
        let placed = self.place(tile);
        assert(placed);
        tile
    }

    /// Puts a new tile on the grid: in a free cell drawn at random, with a
    /// value drawn at random among the `value_span` lowest.
    pub fn spawn_one(&mut self, value_span: u32) -> (tile: Tile)
        requires
            old(self)@.len() < WIDTH * HEIGHT,
            value_span > 0,
        ensures
            free_cells_of(old(self).board()).contains(tile.cell()),
            in_bounds(tile.cell()),
            !old(self).board().contains_key(tile.cell()),
            tile.value < value_span,
            !tile.merged_this_move,
            final(self)@ == old(self)@.push(tile),
            final(self).board() == old(self).board().insert(tile.cell(), tile.value as int),
            final(self).well_formed(),
    {
        let (cell_roll, value_roll) = random_rolls();
        self.spawn_at(cell_roll, value_roll, value_span)
    }
}

} // verus!
