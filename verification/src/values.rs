//! The bag of the values on a board, and how a swipe conserves it up to
//! merges.

use crate::board::{
    board_of, has_headroom, is_board, lane_prefix, lane_values, lemma_lane_values_bounds,
    lemma_without_last, swipe_board, tiles_valid, Board,
};
use crate::lane::{collapse, lemma_collapse_conserves_values, merged_values, raised};
use crate::spawn::grid_cell;
use crate::tile::{in_bounds, tile_values, Direction, Tile, HEIGHT, WIDTH};
use vstd::multiset::Multiset;
use vstd::prelude::*;

verus! {

/// The values of the tiles in the first `n` cells of the grid, as a bag.
pub open spec fn values_prefix(b: Board, n: int) -> Multiset<int>
    decreases n,
{
    if n <= 0 {
        Multiset::empty()
    } else if b.contains_key(grid_cell(n - 1)) {
        values_prefix(b, n - 1).insert(b[grid_cell(n - 1)])
    } else {
        values_prefix(b, n - 1)
    }
}

/// The values of all tiles of the board, as a bag.
pub open spec fn board_values(b: Board) -> Multiset<int> {
    values_prefix(b, WIDTH * HEIGHT)
}

/// The values of the tiles in the first `n` lanes, as a bag.
pub open spec fn lanes_values(b: Board, dir: Direction, n: int) -> Multiset<int>
    decreases n,
{
    if n <= 0 {
        Multiset::empty()
    } else {
        lanes_values(b, dir, n - 1).add(lane_values(b, dir, n - 1).to_multiset())
    }
}

/// For each merge that the swipe makes in the first `n` lanes, the value of
/// the two tiles that merge, as a bag.
pub open spec fn merges_prefix(b: Board, dir: Direction, n: int) -> Multiset<int>
    decreases n,
{
    if n <= 0 {
        Multiset::empty()
    } else {
        merges_prefix(b, dir, n - 1).add(merged_values(lane_values(b, dir, n - 1)).to_multiset())
    }
}

/// For each merge that the swipe makes in the first `n` lanes, the value of
/// the tile that the merge makes, as a bag.
pub open spec fn fused_prefix(b: Board, dir: Direction, n: int) -> Multiset<int>
    decreases n,
{
    if n <= 0 {
        Multiset::empty()
    } else {
        fused_prefix(b, dir, n - 1).add(raised(merged_values(lane_values(b, dir, n - 1))).to_multiset())
    }
}

/// For each merge that the swipe makes, the value of the two tiles that
/// merge.
pub open spec fn merges(b: Board, dir: Direction) -> Multiset<int> {
    merges_prefix(b, dir, dir.lane_count())
}

/// For each merge that the swipe makes, the value of the tile that it
/// makes.
pub open spec fn fused(b: Board, dir: Direction) -> Multiset<int> {
    fused_prefix(b, dir, dir.lane_count())
}

/// One more tile on the board adds its value to the values of the cells,
/// once its cell is among them.
proof fn lemma_insert_value(b: Board, c: (int, int), v: int, n: int)
    requires
        in_bounds(c),
        !b.contains_key(c),
        0 <= n <= WIDTH * HEIGHT,
    ensures
        n <= c.0 * HEIGHT + c.1 ==> values_prefix(b.insert(c, v), n) == values_prefix(b, n),
        c.0 * HEIGHT + c.1 < n ==> values_prefix(b.insert(c, v), n) == values_prefix(b, n).insert(v),
    decreases n,
{
    broadcast use vstd::multiset::group_multiset_axioms;

    if n > 0 {
        lemma_insert_value(b, c, v, n - 1);
        let here = grid_cell(n - 1);
        assert(here == c <==> n - 1 == c.0 * HEIGHT + c.1);
        if c.0 * HEIGHT + c.1 < n {
            assert(values_prefix(b.insert(c, v), n) =~= values_prefix(b, n).insert(v));
        }
    }
}

/// The values on the board of a grid are the values of its tiles.
pub proof fn lemma_board_values_of_tiles(tiles: Seq<Tile>)
    requires
        tiles_valid(tiles),
    ensures
        board_values(board_of(tiles)) == tile_values(tiles).to_multiset(),
    decreases tiles.len(),
{
    broadcast use vstd::seq_lib::group_to_multiset_ensures;

    if tiles.len() == 0 {
        assert(board_of(tiles) =~= Board::empty());
        lemma_no_values(WIDTH * HEIGHT);
        assert(tile_values(tiles).to_multiset().len() == 0);
        assert(tile_values(tiles).to_multiset() =~= Multiset::<int>::empty());
    } else {
        let front = tiles.drop_last();
        let t = tiles.last();
        lemma_without_last(tiles);
        lemma_board_values_of_tiles(front);
        lemma_insert_value(board_of(front), t.cell(), t.value as int, WIDTH * HEIGHT);
        assert(tile_values(tiles) =~= tile_values(front).push(t.value as int));
    }
}

/// The empty board holds no values.
proof fn lemma_no_values(n: int)
    ensures
        values_prefix(Board::empty(), n) == Multiset::<int>::empty(),
    decreases n,
{
    if n > 0 {
        lemma_no_values(n - 1);
    }
}

/// The part of the board in the first `n` cells of the grid.
pub open spec fn first_cells(b: Board, n: int) -> Board {
    Map::new(
        |c: (int, int)| b.contains_key(c) && in_bounds(c) && c.0 * HEIGHT + c.1 < n,
        |c: (int, int)| b[c],
    )
}

/// One more tile in a lane adds its value to the values of that lane, once
/// the lane is read far enough, and leaves the other lanes as they are.
proof fn lemma_insert_lane(b: Board, dir: Direction, c: (int, int), v: int, lane: int, n: int)
    requires
        in_bounds(c),
        !b.contains_key(c),
        0 <= n <= dir.lane_len(),
    ensures
        lane != dir.lane_of(c) ==> lane_prefix(b.insert(c, v), dir, lane, n) == lane_prefix(
            b,
            dir,
            lane,
            n,
        ),
        lane == dir.lane_of(c) && n <= dir.depth_of(c) ==> lane_prefix(b.insert(c, v), dir, lane, n)
            == lane_prefix(b, dir, lane, n),
        lane == dir.lane_of(c) && dir.depth_of(c) < n ==> lane_prefix(
            b.insert(c, v),
            dir,
            lane,
            n,
        ).to_multiset() == lane_prefix(b, dir, lane, n).to_multiset().insert(v),
    decreases n,
{
    broadcast use vstd::seq_lib::group_to_multiset_ensures;
    broadcast use vstd::multiset::group_multiset_axioms;

    if n > 0 {
        lemma_insert_lane(b, dir, c, v, lane, n - 1);
        let here = dir.cell_at(lane, n - 1);
        let more = b.insert(c, v);
        assert(dir.lane_of(here) == lane && dir.depth_of(here) == n - 1);
        assert(dir.cell_at(dir.lane_of(c), dir.depth_of(c)) == c);
        let p = lane_prefix(b, dir, lane, n - 1);
        let q = lane_prefix(more, dir, lane, n - 1);
        if lane == dir.lane_of(c) && dir.depth_of(c) < n {
            if here == c {
                assert(lane_prefix(more, dir, lane, n) == q.push(v));
                assert(lane_prefix(b, dir, lane, n) == p);
                assert(q == p);
            } else if b.contains_key(here) {
                assert(q.push(b[here]).to_multiset() =~= p.push(b[here]).to_multiset().insert(v));
            }
        }
    }
}

/// One more tile on the board adds its value to the values of the lanes.
proof fn lemma_insert_lanes(b: Board, dir: Direction, c: (int, int), v: int, n: int)
    requires
        in_bounds(c),
        !b.contains_key(c),
        0 <= n <= dir.lane_count(),
    ensures
        n <= dir.lane_of(c) ==> lanes_values(b.insert(c, v), dir, n) == lanes_values(b, dir, n),
        dir.lane_of(c) < n ==> lanes_values(b.insert(c, v), dir, n) == lanes_values(b, dir, n).insert(
            v,
        ),
    decreases n,
{
    broadcast use vstd::multiset::group_multiset_axioms;

    if n > 0 {
        lemma_insert_lanes(b, dir, c, v, n - 1);
        lemma_insert_lane(b, dir, c, v, n - 1, dir.lane_len());
        let more = b.insert(c, v);
        if dir.lane_of(c) < n {
            assert(lanes_values(more, dir, n) =~= lanes_values(b, dir, n).insert(v));
        }
    }
}

/// The empty board has no values in its lanes.
proof fn lemma_empty_lanes(dir: Direction, n: int)
    requires
        0 <= n,
    ensures
        lanes_values(Board::empty(), dir, n) == Multiset::<int>::empty(),
    decreases n,
{
    broadcast use vstd::multiset::group_multiset_axioms;

    if n > 0 {
        lemma_empty_lanes(dir, n - 1);
        lemma_empty_lane(dir, n - 1, dir.lane_len());
        let none = lane_values(Board::empty(), dir, n - 1);
        assert(none.to_multiset().len() == 0) by {
            none.to_multiset_ensures();
        }
        assert(lanes_values(Board::empty(), dir, n) =~= Multiset::<int>::empty());
    }
}

/// A lane of the empty board has no values.
proof fn lemma_empty_lane(dir: Direction, lane: int, n: int)
    ensures
        lane_prefix(Board::empty(), dir, lane, n) == Seq::<int>::empty(),
    decreases n,
{
    if n > 0 {
        lemma_empty_lane(dir, lane, n - 1);
    }
}

/// The lanes of the part of the board in the first `n` cells hold the
/// values of those cells.
proof fn lemma_lanes_hold_prefix(b: Board, dir: Direction, n: int)
    requires
        0 <= n <= WIDTH * HEIGHT,
    ensures
        lanes_values(first_cells(b, n), dir, dir.lane_count()) == values_prefix(b, n),
    decreases n,
{
    if n == 0 {
        assert(first_cells(b, 0) =~= Board::empty());
        lemma_empty_lanes(dir, dir.lane_count());
    } else {
        lemma_lanes_hold_prefix(b, dir, n - 1);
        let c = grid_cell(n - 1);
        assert(in_bounds(c) && c.0 * HEIGHT + c.1 == n - 1);
        if b.contains_key(c) {
            assert(first_cells(b, n) =~= first_cells(b, n - 1).insert(c, b[c]));
            lemma_insert_lanes(first_cells(b, n - 1), dir, c, b[c], dir.lane_count());
        } else {
            assert(first_cells(b, n) =~= first_cells(b, n - 1));
        }
    }
}

/// Lane by lane, in whichever direction, a board holds the same values.
pub proof fn lemma_lanes_hold_board(b: Board, dir: Direction)
    requires
        is_board(b),
    ensures
        lanes_values(b, dir, dir.lane_count()) == board_values(b),
{
    lemma_lanes_hold_prefix(b, dir, WIDTH * HEIGHT);
    assert(first_cells(b, WIDTH * HEIGHT) =~= b);
}

/// The swiped board, read up to `n` steps from the wall, holds the first
/// `n` values of the collapsed lane.
proof fn lemma_swiped_prefix(b: Board, dir: Direction, lane: int, n: int)
    requires
        is_board(b),
        has_headroom(b),
        0 <= lane < dir.lane_count(),
        0 <= n <= dir.lane_len(),
    ensures
        ({
            let after = collapse(lane_values(b, dir, lane));
            lane_prefix(swipe_board(b, dir), dir, lane, n) == if n <= after.len() {
                after.take(n)
            } else {
                after
            }
        }),
    decreases n,
{
    let after = collapse(lane_values(b, dir, lane));
    if n == 0 {
        assert(after.take(0) =~= Seq::<int>::empty());
    } else {
        lemma_swiped_prefix(b, dir, lane, n - 1);
        let c = dir.cell_at(lane, n - 1);
        assert(in_bounds(c) && dir.lane_of(c) == lane && dir.depth_of(c) == n - 1);
        if n <= after.len() {
            assert(after.take(n - 1).push(after[n - 1]) =~= after.take(n));
        } else if n - 1 == after.len() {
            assert(after.take(n - 1) =~= after);
        }
    }
}

/// After the swipe a lane holds the collapsed values of the lane before.
pub proof fn lemma_swiped_lane(b: Board, dir: Direction, lane: int)
    requires
        is_board(b),
        has_headroom(b),
        0 <= lane < dir.lane_count(),
    ensures
        lane_values(swipe_board(b, dir), dir, lane) == collapse(lane_values(b, dir, lane)),
{
    let after = collapse(lane_values(b, dir, lane));
    lemma_lane_values_bounds(b, dir, lane);
    lemma_swiped_prefix(b, dir, lane, dir.lane_len());
    assert(after.take(after.len() as int) =~= after);
}

/// The swiped board is a board.
pub proof fn lemma_swiped_is_board(b: Board, dir: Direction)
    requires
        is_board(b),
        has_headroom(b),
    ensures
        is_board(swipe_board(b, dir)),
{
    assert forall|c: (int, int)| #[trigger] swipe_board(b, dir).contains_key(c) implies in_bounds(c)
        && 0 <= swipe_board(b, dir)[c] <= u32::MAX by {
        lemma_lane_values_bounds(b, dir, dir.lane_of(c));
    }
}

/// In the first `n` lanes the swipe conserves the values up to merges.
proof fn lemma_lanes_conserve(b: Board, dir: Direction, n: int)
    requires
        is_board(b),
        has_headroom(b),
        0 <= n <= dir.lane_count(),
    ensures
        lanes_values(swipe_board(b, dir), dir, n).add(merges_prefix(b, dir, n)).add(
            merges_prefix(b, dir, n),
        ) == lanes_values(b, dir, n).add(fused_prefix(b, dir, n)),
    decreases n,
{
    broadcast use vstd::multiset::group_multiset_axioms;

    let swiped = swipe_board(b, dir);
    let left = lanes_values(swiped, dir, n).add(merges_prefix(b, dir, n)).add(merges_prefix(b, dir, n));
    let right = lanes_values(b, dir, n).add(fused_prefix(b, dir, n));
    if n > 0 {
        let s = lane_values(b, dir, n - 1);
        lemma_lanes_conserve(b, dir, n - 1);
        lemma_swiped_lane(b, dir, n - 1);
        lemma_collapse_conserves_values(s);
        let left_before = lanes_values(swiped, dir, n - 1).add(merges_prefix(b, dir, n - 1)).add(
            merges_prefix(b, dir, n - 1),
        );
        let right_before = lanes_values(b, dir, n - 1).add(fused_prefix(b, dir, n - 1));
        let left_lane = collapse(s).to_multiset().add(merged_values(s).to_multiset()).add(
            merged_values(s).to_multiset(),
        );
        let right_lane = s.to_multiset().add(raised(merged_values(s)).to_multiset());
        assert forall|x: int| left.count(x) == right.count(x) by {
            assert(left_before.count(x) == right_before.count(x));
            assert(left_lane.count(x) == right_lane.count(x));
        }
    }
    assert(left =~= right);
}

/// A swipe conserves the values on the board up to merges: the tiles after
/// the swipe, together with two tiles of value `v` for each merge of two
/// tiles of value `v`, are the tiles before the swipe together with one
/// tile of value `v + 1` for each such merge.
pub proof fn lemma_swipe_conserves_values(b: Board, dir: Direction)
    requires
        is_board(b),
        has_headroom(b),
    ensures
        board_values(swipe_board(b, dir)).add(merges(b, dir)).add(merges(b, dir)) == board_values(
            b,
        ).add(fused(b, dir)),
{
    lemma_swiped_is_board(b, dir);
    lemma_lanes_hold_board(b, dir);
    lemma_lanes_hold_board(swipe_board(b, dir), dir);
    lemma_lanes_conserve(b, dir, dir.lane_count());
}

/// Each value is made by as many merges as there are merges of the value
/// below it.
pub proof fn lemma_fused_counts(b: Board, dir: Direction, v: int)
    ensures
        fused(b, dir).count(v + 1) == merges(b, dir).count(v),
{
    lemma_fused_prefix_counts(b, dir, dir.lane_count(), v);
}

/// In the first `n` lanes, each value is made by as many merges as there
/// are merges of the value below it.
proof fn lemma_fused_prefix_counts(b: Board, dir: Direction, n: int, v: int)
    ensures
        fused_prefix(b, dir, n).count(v + 1) == merges_prefix(b, dir, n).count(v),
    decreases n,
{
    broadcast use vstd::multiset::group_multiset_axioms;

    if n > 0 {
        lemma_fused_prefix_counts(b, dir, n - 1, v);
        lemma_raised_counts(merged_values(lane_values(b, dir, n - 1)), v);
    }
}

/// A value occurs in a raised sequence as often as the value below it in
/// the sequence itself.
proof fn lemma_raised_counts(s: Seq<int>, v: int)
    ensures
        raised(s).to_multiset().count(v + 1) == s.to_multiset().count(v),
    decreases s.len(),
{
    broadcast use vstd::multiset::group_multiset_axioms;
    broadcast use vstd::seq_lib::group_to_multiset_ensures;

    if s.len() == 0 {
        assert(raised(s) =~= s);
        assert(s.to_multiset().len() == 0);
    } else {
        let front = s.drop_last();
        lemma_raised_counts(front, v);
        assert(s =~= front.push(s.last()));
        assert(raised(s) =~= raised(front).push(s.last() + 1));
    }
}

} // verus!
