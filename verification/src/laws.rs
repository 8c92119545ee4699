//! What holds of every swipe, stated over boards.

use crate::board::{
    cell_differs, has_headroom, is_board, lane_prefix, lane_values, lemma_lane_prefix, swipe_board,
    Board,
};
use crate::lane::{lemma_collapse_fixed, lemma_collapse_len, no_equal_neighbours};
use crate::tile::{in_bounds, Direction};
use crate::values::lemma_swiped_lane;
use vstd::prelude::*;

verus! {

/// Whether two boards hold the same in every cell of `lane`.
pub open spec fn same_lane(a: Board, b: Board, dir: Direction, lane: int) -> bool {
    forall|d: int| 0 <= d < dir.lane_len() ==> !cell_differs(a, b, #[trigger] dir.cell_at(lane, d))
}

/// Boards that hold the same in a lane give the same values when the lane
/// is read.
proof fn lemma_same_lane_prefix(a: Board, b: Board, dir: Direction, lane: int, n: int)
    requires
        same_lane(a, b, dir, lane),
        0 <= n <= dir.lane_len(),
    ensures
        lane_prefix(a, dir, lane, n) == lane_prefix(b, dir, lane, n),
    decreases n,
{
    if n > 0 {
        lemma_same_lane_prefix(a, b, dir, lane, n - 1);
        assert(!cell_differs(a, b, dir.cell_at(lane, n - 1)));
    }
}

/// Lanes are independent: what a swipe leaves in a lane depends on what
/// that lane held and on nothing else. Two boards that hold the same in a
/// lane hold the same in it after the swipe, whatever their other lanes
/// hold.
pub proof fn lemma_lane_independence(a: Board, b: Board, dir: Direction, lane: int)
    requires
        same_lane(a, b, dir, lane),
    ensures
        same_lane(swipe_board(a, dir), swipe_board(b, dir), dir, lane),
{
    lemma_same_lane_prefix(a, b, dir, lane, dir.lane_len());
    assert forall|d: int| 0 <= d < dir.lane_len() implies !cell_differs(
        swipe_board(a, dir),
        swipe_board(b, dir),
        #[trigger] dir.cell_at(lane, d),
    ) by {
        let c = dir.cell_at(lane, d);
        assert(dir.lane_of(c) == lane && dir.depth_of(c) == d);
    }
}

/// After a swipe the tiles of a lane are packed against the wall: if a
/// cell holds a tile, so does every cell of its lane that is nearer the
/// wall, down to the cell at the wall.
pub proof fn lemma_wall_snap(b: Board, dir: Direction, c: (int, int), d: int)
    requires
        swipe_board(b, dir).contains_key(c),
        0 <= d <= dir.depth_of(c),
    ensures
        swipe_board(b, dir).contains_key(dir.cell_at(dir.lane_of(c), d)),
        swipe_board(b, dir).contains_key(dir.cell_at(dir.lane_of(c), 0)),
{
    let lane = dir.lane_of(c);
    assert(dir.lane_of(dir.cell_at(lane, d)) == lane && dir.depth_of(dir.cell_at(lane, d)) == d);
    assert(dir.lane_of(dir.cell_at(lane, 0)) == lane && dir.depth_of(dir.cell_at(lane, 0)) == 0);
}

/// A lane that holds a tile before the swipe holds one at the wall after
/// it.
pub proof fn lemma_lane_reaches_wall(b: Board, dir: Direction, c: (int, int))
    requires
        in_bounds(c),
        b.contains_key(c),
    ensures
        swipe_board(b, dir).contains_key(dir.cell_at(dir.lane_of(c), 0)),
{
    let lane = dir.lane_of(c);
    let at_wall = dir.cell_at(lane, 0);
    assert(dir.cell_at(lane, dir.depth_of(c)) == c);
    lemma_lane_prefix(b, dir, lane, dir.lane_len());
    lemma_collapse_len(lane_values(b, dir, lane));
    assert(dir.lane_of(at_wall) == lane && dir.depth_of(at_wall) == 0);
}

/// Whether every lane is packed against the wall that `dir` points to: a
/// cell that holds a tile has a tile in the cell next to it on the side of
/// the wall.
pub open spec fn is_compacted(b: Board, dir: Direction) -> bool {
    forall|lane: int, d: int|
        0 < d < dir.lane_len() && b.contains_key(#[trigger] dir.cell_at(lane, d)) ==> b.contains_key(
            dir.cell_at(lane, d - 1),
        )
}

/// Whether no two tiles that are neighbours along a lane have the same
/// value.
pub open spec fn has_no_equal_pair(b: Board, dir: Direction) -> bool {
    forall|lane: int, d: int|
        0 < d < dir.lane_len() && b.contains_key(#[trigger] dir.cell_at(lane, d)) && b.contains_key(
            dir.cell_at(lane, d - 1),
        ) ==> b[dir.cell_at(lane, d)] != b[dir.cell_at(lane, d - 1)]
}

/// In a packed lane, the values read up to `n` steps from the wall are
/// those of the cells from the wall on, and the cells behind them are free.
proof fn lemma_compacted_prefix(b: Board, dir: Direction, lane: int, n: int)
    requires
        is_compacted(b, dir),
        0 <= n <= dir.lane_len(),
    ensures
        lane_prefix(b, dir, lane, n).len() <= n,
        forall|d: int|
            0 <= d < lane_prefix(b, dir, lane, n).len() ==> b.contains_key(
                #[trigger] dir.cell_at(lane, d),
            ) && lane_prefix(b, dir, lane, n)[d] == b[dir.cell_at(lane, d)],
        forall|d: int|
            lane_prefix(b, dir, lane, n).len() <= d < n ==> !b.contains_key(
                #[trigger] dir.cell_at(lane, d),
            ),
    decreases n,
{
    if n > 0 {
        lemma_compacted_prefix(b, dir, lane, n - 1);
        let p = lane_prefix(b, dir, lane, n - 1);
        if b.contains_key(dir.cell_at(lane, n - 1)) {
            if p.len() < n - 1 {
                assert(b.contains_key(dir.cell_at(lane, n - 1 - 1)));
                assert(!b.contains_key(dir.cell_at(lane, n - 2)));
            }
        }
    }
}

/// A swipe towards a wall against which every lane is already packed, with
/// no two neighbours of equal value, leaves the board as it is.
pub proof fn lemma_settled_unchanged(b: Board, dir: Direction)
    requires
        is_board(b),
        is_compacted(b, dir),
        has_no_equal_pair(b, dir),
    ensures
        swipe_board(b, dir) == b,
{
    let after = swipe_board(b, dir);
    assert forall|c: (int, int)| #[trigger]
        after.dom().contains(c) == b.dom().contains(c) && (after.dom().contains(c) ==> after[c]
            == b[c]) by {
        let lane = dir.lane_of(c);
        let d = dir.depth_of(c);
        let s = lane_values(b, dir, lane);
        lemma_compacted_prefix(b, dir, lane, dir.lane_len());
        assert(no_equal_neighbours(s)) by {
            assert forall|i: int| 0 <= i && i + 1 < s.len() implies s[i] != #[trigger] s[i + 1] by {
                assert(b.contains_key(dir.cell_at(lane, i + 1)));
                assert(b.contains_key(dir.cell_at(lane, i)));
                assert(b[dir.cell_at(lane, i + 1)] != b[dir.cell_at(lane, i + 1 - 1)]);
            }
        }
        lemma_collapse_fixed(s);
        if in_bounds(c) {
            assert(dir.cell_at(lane, d) == c);
        }
    }
    assert(after.dom() =~= b.dom());
    assert(after =~= b);
}

/// Only such a board is left as it is: if a swipe changes nothing, every
/// lane was packed against the wall and no two neighbours had the same
/// value.
pub proof fn lemma_unchanged_was_settled(b: Board, dir: Direction)
    requires
        is_board(b),
        has_headroom(b),
        swipe_board(b, dir) == b,
    ensures
        is_compacted(b, dir),
        has_no_equal_pair(b, dir),
{
    assert forall|lane: int, d: int|
        0 < d < dir.lane_len() && b.contains_key(#[trigger] dir.cell_at(lane, d)) implies b.contains_key(
        dir.cell_at(lane, d - 1),
    ) by {
        lemma_wall_snap(b, dir, dir.cell_at(lane, d), d - 1);
    }
    assert forall|lane: int, d: int|
        0 < d < dir.lane_len() && b.contains_key(#[trigger] dir.cell_at(lane, d)) && b.contains_key(
            dir.cell_at(lane, d - 1),
        ) implies b[dir.cell_at(lane, d)] != b[dir.cell_at(lane, d - 1)] by {
        let s = lane_values(b, dir, lane);
        assert(in_bounds(dir.cell_at(lane, d)));
        lemma_swiped_lane(b, dir, lane);
        lemma_collapse_fixed(s);
        lemma_compacted_prefix(b, dir, lane, dir.lane_len());
        assert(s[d - 1] != s[d - 1 + 1]);
    }
}

} // verus!
