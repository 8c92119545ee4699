//! The grid as a map from occupied cells to tile values, and what a swipe
//! makes of it.

use crate::lane::{
    collapse, lemma_collapse_fixed, lemma_collapse_len, lemma_single_merge, merge_marks, settled,
};
use crate::tile::{in_bounds, tile_values, Direction, Tile};
use vstd::prelude::*;

verus! {

/// A board: the grid as a map from its occupied cells, column first, to the
/// values of the tiles in them.
pub type Board = Map<(int, int), int>;

/// Whether `b` can be the board of a grid: every occupied cell lies on the
/// grid and holds a value a tile can hold.
pub open spec fn is_board(b: Board) -> bool {
    forall|c: (int, int)| #[trigger] b.contains_key(c) ==> in_bounds(c) && 0 <= b[c] <= u32::MAX
}

/// The values of the tiles of `lane` that lie less than `n` steps from the
/// target wall, from the wall outwards.
pub open spec fn lane_prefix(b: Board, dir: Direction, lane: int, n: int) -> Seq<int>
    decreases n,
{
    if n <= 0 {
        Seq::empty()
    } else {
        let c = dir.cell_at(lane, n - 1);
        if b.contains_key(c) {
            lane_prefix(b, dir, lane, n - 1).push(b[c])
        } else {
            lane_prefix(b, dir, lane, n - 1)
        }
    }
}

/// The values of the tiles of `lane`, from the target wall outwards.
pub open spec fn lane_values(b: Board, dir: Direction, lane: int) -> Seq<int> {
    lane_prefix(b, dir, lane, dir.lane_len())
}

/// The board after a swipe in direction `dir`: each lane holds its
/// collapsed values, packed against the target wall.
pub open spec fn swipe_board(b: Board, dir: Direction) -> Board {
    Map::new(
        |c: (int, int)|
            in_bounds(c) && dir.depth_of(c) < collapse(lane_values(b, dir, dir.lane_of(c))).len(),
        |c: (int, int)| collapse(lane_values(b, dir, dir.lane_of(c)))[dir.depth_of(c)],
    )
}

/// Whether `tiles` can be the tiles of a grid between swipes: all on the
/// grid, no two in the same cell, none marked as merged.
pub open spec fn tiles_valid(tiles: Seq<Tile>) -> bool {
    &&& forall|i: int|
        0 <= i < tiles.len() ==> in_bounds(#[trigger] tiles[i].cell()) && !tiles[i].merged_this_move
    &&& forall|i: int, j: int|
        0 <= i < j < tiles.len() ==> #[trigger] tiles[i].cell() != #[trigger] tiles[j].cell()
}

/// Whether some tile of `tiles` occupies cell `c`.
pub open spec fn occupies(tiles: Seq<Tile>, c: (int, int)) -> bool {
    exists|i: int| 0 <= i < tiles.len() && #[trigger] tiles[i].cell() == c
}

/// The index of a tile that occupies cell `c`.
pub open spec fn index_at(tiles: Seq<Tile>, c: (int, int)) -> int {
    choose|i: int| 0 <= i < tiles.len() && #[trigger] tiles[i].cell() == c
}

/// The board that a sequence of tiles stands for.
pub open spec fn board_of(tiles: Seq<Tile>) -> Board {
    Map::new(|c: (int, int)| occupies(tiles, c), |c: (int, int)| tiles[index_at(tiles, c)].value as int)
}

/// Each tile of a valid sequence is on its board, under its own value.
pub proof fn lemma_board_of(tiles: Seq<Tile>)
    requires
        forall|i: int, j: int|
            0 <= i < j < tiles.len() ==> #[trigger] tiles[i].cell() != #[trigger] tiles[j].cell(),
    ensures
        forall|i: int|
            0 <= i < tiles.len() ==> board_of(tiles).contains_key(#[trigger] tiles[i].cell())
                && board_of(tiles)[tiles[i].cell()] == tiles[i].value,
        forall|c: (int, int)| #[trigger] board_of(tiles).contains_key(c) <==> occupies(tiles, c),
{
    assert forall|i: int| 0 <= i < tiles.len() implies board_of(tiles).contains_key(
        #[trigger] tiles[i].cell(),
    ) && board_of(tiles)[tiles[i].cell()] == tiles[i].value by {
        let c = tiles[i].cell();
        let j = index_at(tiles, c);
        assert(0 <= j < tiles.len() && tiles[j].cell() == c);
        if i < j {
            assert(tiles[i].cell() != tiles[j].cell());
        }
        if j < i {
            assert(tiles[j].cell() != tiles[i].cell());
        }
    }
}

/// The board of tiles with one more tile, in a cell of its own.
pub(crate) proof fn lemma_board_of_push(tiles: Seq<Tile>, t: Tile)
    requires
        tiles_valid(tiles),
        !board_of(tiles).contains_key(t.cell()),
    ensures
        board_of(tiles.push(t)) == board_of(tiles).insert(t.cell(), t.value as int),
        forall|i: int, j: int|
            0 <= i < j < tiles.len() + 1 ==> #[trigger] tiles.push(t)[i].cell() != #[trigger] tiles.push(
                t,
            )[j].cell(),
{
    let more = tiles.push(t);
    lemma_board_of(tiles);
    assert forall|i: int, j: int| 0 <= i < j < more.len() implies #[trigger] more[i].cell()
        != #[trigger] more[j].cell() by {
        if j < tiles.len() {
            assert(tiles[i].cell() != tiles[j].cell());
        } else {
            assert(board_of(tiles).contains_key(tiles[i].cell()));
        }
    }
    lemma_board_of(more);
    let wanted = board_of(tiles).insert(t.cell(), t.value as int);
    assert forall|c: (int, int)| occupies(more, c) implies wanted.contains_key(c) && wanted[c]
        == board_of(more)[c] by {
        let i = index_at(more, c);
        assert(more[i].cell() == c);
        if i < tiles.len() {
            assert(tiles[i].cell() == c);
        }
    }
    assert forall|c: (int, int)| wanted.contains_key(c) implies occupies(more, c) by {
        if c == t.cell() {
            assert(more[tiles.len() as int].cell() == c);
        } else {
            let i = index_at(tiles, c);
            assert(more[i].cell() == c);
        }
    }
    assert(board_of(more).dom() =~= wanted.dom());
    assert(board_of(more) =~= wanted);
}

/// Valid tiles without the last of them are valid, and the last one adds
/// its cell and value to their board.
pub(crate) proof fn lemma_without_last(tiles: Seq<Tile>)
    requires
        tiles_valid(tiles),
        tiles.len() > 0,
    ensures
        tiles_valid(tiles.drop_last()),
        in_bounds(tiles.last().cell()),
        !board_of(tiles.drop_last()).contains_key(tiles.last().cell()),
        board_of(tiles) == board_of(tiles.drop_last()).insert(
            tiles.last().cell(),
            tiles.last().value as int,
        ),
{
    let front = tiles.drop_last();
    let t = tiles.last();
    assert(tiles_valid(front)) by {
        assert forall|i: int| 0 <= i < front.len() implies in_bounds(#[trigger] front[i].cell())
            && !front[i].merged_this_move by {
            assert(in_bounds(tiles[i].cell()));
        }
        assert forall|i: int, j: int| 0 <= i < j < front.len() implies #[trigger] front[i].cell()
            != #[trigger] front[j].cell() by {
            assert(tiles[i].cell() != tiles[j].cell());
        }
    }
    lemma_board_of(front);
    assert(!board_of(front).contains_key(t.cell())) by {
        if occupies(front, t.cell()) {
            let i = index_at(front, t.cell());
            assert(tiles[i].cell() != tiles[tiles.len() - 1].cell());
        }
    }
    assert(in_bounds(tiles[tiles.len() - 1].cell()));
    assert(front.push(t) =~= tiles);
    lemma_board_of_push(front, t);
}

/// Whether `w` lists the tiles that board `b` has in `lane`, each once,
/// from the target wall outwards.
pub open spec fn lists_lane(b: Board, dir: Direction, lane: int, w: Seq<Tile>) -> bool {
    &&& forall|i: int|
        0 <= i < w.len() ==> {
            &&& in_bounds(#[trigger] w[i].cell())
            &&& dir.lane_of(w[i].cell()) == lane
            &&& b.contains_key(w[i].cell())
            &&& b[w[i].cell()] == w[i].value
            &&& !w[i].merged_this_move
        }
    &&& forall|i: int, j: int|
        0 <= i < j < w.len() ==> dir.depth_of(#[trigger] w[i].cell()) < dir.depth_of(
            #[trigger] w[j].cell(),
        )
    &&& forall|c: (int, int)|
        #[trigger] b.contains_key(c) && in_bounds(c) && dir.lane_of(c) == lane ==> occupies(w, c)
}

/// The first `k` tiles of a listed lane are those less than `n` steps from
/// the wall.
proof fn lemma_listed_prefix(b: Board, dir: Direction, lane: int, w: Seq<Tile>, n: int) -> (k: int)
    requires
        is_board(b),
        lists_lane(b, dir, lane, w),
        0 <= n <= dir.lane_len(),
    ensures
        0 <= k <= w.len(),
        forall|i: int| 0 <= i < k ==> dir.depth_of(#[trigger] w[i].cell()) < n,
        forall|i: int| k <= i < w.len() ==> dir.depth_of(#[trigger] w[i].cell()) >= n,
        lane_prefix(b, dir, lane, n) == tile_values(w).take(k),
    decreases n,
{
    if n == 0 {
        assert forall|i: int| 0 <= i < w.len() implies dir.depth_of(#[trigger] w[i].cell()) >= 0 by {
            assert(in_bounds(w[i].cell()));
        }
        assert(lane_prefix(b, dir, lane, n) =~= tile_values(w).take(0));
        0
    } else {
        let k = lemma_listed_prefix(b, dir, lane, w, n - 1);
        let c = dir.cell_at(lane, n - 1);
        if b.contains_key(c) {
            assert(in_bounds(c) && dir.lane_of(c) == lane);
            assert(occupies(w, c));
            let i = index_at(w, c);
            assert(0 <= i < w.len() && w[i].cell() == c);
            assert(dir.depth_of(c) == n - 1);
            if i < k {
                assert(dir.depth_of(w[i].cell()) < n - 1);
            }
            if i > k {
                assert(dir.depth_of(w[k].cell()) < dir.depth_of(w[i].cell()));
                assert(dir.depth_of(w[k].cell()) >= n - 1);
            }
            assert(i == k);
            assert forall|j: int| k + 1 <= j < w.len() implies dir.depth_of(#[trigger] w[j].cell())
                >= n by {
                assert(dir.depth_of(w[k].cell()) < dir.depth_of(w[j].cell()));
            }
            assert(tile_values(w).take(k).push(b[c]) =~= tile_values(w).take(k + 1));
            k + 1
        } else {
            assert forall|j: int| k <= j < w.len() implies dir.depth_of(#[trigger] w[j].cell())
                >= n by {
                let cj = w[j].cell();
                assert(in_bounds(cj) && dir.lane_of(cj) == lane && b.contains_key(cj));
                assert(dir.cell_at(lane, dir.depth_of(cj)) == cj);
            }
            k
        }
    }
}

/// A listed lane gives the lane's values.
pub(crate) proof fn lemma_listed_values(b: Board, dir: Direction, lane: int, w: Seq<Tile>)
    requires
        is_board(b),
        lists_lane(b, dir, lane, w),
    ensures
        lane_values(b, dir, lane) == tile_values(w),
{
    let k = lemma_listed_prefix(b, dir, lane, w, dir.lane_len());
    if k < w.len() {
        assert(in_bounds(w[k].cell()));
        assert(dir.depth_of(w[k].cell()) >= dir.lane_len());
    }
    assert(tile_values(w).take(k) =~= tile_values(w));
}

/// Whether no tile of the board holds the largest value a tile can hold,
/// so that any two can merge.
pub open spec fn has_headroom(b: Board) -> bool {
    forall|c: (int, int)| #[trigger] b.contains_key(c) ==> b[c] < u32::MAX
}

/// Whether no tile holds the largest value a tile can hold.
pub open spec fn tiles_have_headroom(tiles: Seq<Tile>) -> bool {
    forall|i: int| 0 <= i < tiles.len() ==> (#[trigger] tiles[i]).value < u32::MAX
}

/// A valid sequence of tiles with headroom stands for a board with
/// headroom.
pub proof fn lemma_board_of_valid(tiles: Seq<Tile>)
    requires
        tiles_valid(tiles),
    ensures
        is_board(board_of(tiles)),
        tiles_have_headroom(tiles) ==> has_headroom(board_of(tiles)),
{
    lemma_board_of(tiles);
    assert forall|c: (int, int)| #[trigger] board_of(tiles).contains_key(c) implies in_bounds(
        c,
    ) && 0 <= board_of(tiles)[c] <= u32::MAX && (tiles_have_headroom(tiles) ==> board_of(tiles)[c]
        < u32::MAX) by {
        let i = index_at(tiles, c);
        assert(tiles[i].cell() == c);
    }
}

/// Whether a cell of `lane` less than `n` steps from the wall holds a tile
/// of value `v`.
pub open spec fn lane_holds(b: Board, dir: Direction, lane: int, n: int, v: int) -> bool {
    exists|d: int|
        0 <= d < n && b.contains_key(#[trigger] dir.cell_at(lane, d)) && b[dir.cell_at(lane, d)] == v
}

/// What is known of the values of a lane read up to `n` steps from the
/// wall: there are at most `n`, each is the value of a tile of the lane,
/// and there is one if a cell that near the wall holds a tile.
pub(crate) proof fn lemma_lane_prefix(b: Board, dir: Direction, lane: int, n: int)
    requires
        0 <= n,
    ensures
        lane_prefix(b, dir, lane, n).len() <= n,
        forall|i: int|
            0 <= i < lane_prefix(b, dir, lane, n).len() ==> lane_holds(
                b,
                dir,
                lane,
                n,
                #[trigger] lane_prefix(b, dir, lane, n)[i],
            ),
        forall|d: int|
            0 <= d < n && b.contains_key(#[trigger] dir.cell_at(lane, d)) ==> lane_prefix(
                b,
                dir,
                lane,
                n,
            ).len() > 0,
    decreases n,
{
    if n > 0 {
        lemma_lane_prefix(b, dir, lane, n - 1);
        let p = lane_prefix(b, dir, lane, n - 1);
        let q = lane_prefix(b, dir, lane, n);
        assert forall|i: int| 0 <= i < q.len() implies lane_holds(b, dir, lane, n, #[trigger] q[i]) by {
            if i < p.len() {
                assert(lane_holds(b, dir, lane, n - 1, p[i]));
                let d = choose|d: int|
                    0 <= d < n - 1 && b.contains_key(#[trigger] dir.cell_at(lane, d)) && b[dir.cell_at(
                        lane,
                        d,
                    )] == p[i];
                assert(b.contains_key(dir.cell_at(lane, d)) && b[dir.cell_at(lane, d)] == q[i]);
            } else {
                assert(b.contains_key(dir.cell_at(lane, n - 1)) && b[dir.cell_at(lane, n - 1)] == q[i]);
            }
        }
    }
}

/// The values of a lane of a board with headroom: at most as many as the
/// lane has cells, each below the largest value a tile can hold, and so
/// are the values after a swipe, but that a merged tile can reach it.
pub(crate) proof fn lemma_lane_values_bounds(b: Board, dir: Direction, lane: int)
    requires
        is_board(b),
        has_headroom(b),
    ensures
        lane_values(b, dir, lane).len() <= dir.lane_len(),
        collapse(lane_values(b, dir, lane)).len() <= dir.lane_len(),
        forall|i: int|
            0 <= i < lane_values(b, dir, lane).len() ==> 0 <= #[trigger] lane_values(b, dir, lane)[i]
                < u32::MAX,
        forall|k: int|
            0 <= k < collapse(lane_values(b, dir, lane)).len() ==> 0 <= #[trigger] collapse(
                lane_values(b, dir, lane),
            )[k] <= u32::MAX,
{
    let s = lane_values(b, dir, lane);
    lemma_lane_prefix(b, dir, lane, dir.lane_len());
    lemma_collapse_len(s);
    assert forall|i: int| 0 <= i < s.len() implies 0 <= #[trigger] s[i] < u32::MAX by {
        assert(lane_holds(b, dir, lane, dir.lane_len(), s[i]));
        let d = choose|d: int|
            0 <= d < dir.lane_len() && b.contains_key(#[trigger] dir.cell_at(lane, d)) && b[dir.cell_at(
                lane,
                d,
            )] == s[i];
        assert(b.contains_key(dir.cell_at(lane, d)));
    }
    assert forall|k: int| 0 <= k < collapse(s).len() implies 0 <= #[trigger] collapse(s)[k]
        <= u32::MAX by {
        lemma_single_merge(s, k);
    }
}

/// Tile `k` of a swiped lane sits `k` steps from the wall, and the swiped
/// board holds it there.
pub(crate) proof fn lemma_settled_tile(b: Board, dir: Direction, lane: int, k: int)
    requires
        is_board(b),
        has_headroom(b),
        0 <= lane < dir.lane_count(),
        0 <= k < collapse(lane_values(b, dir, lane)).len(),
    ensures
        ({
            let t = settled(dir, lane, lane_values(b, dir, lane))[k];
            &&& t.cell() == dir.cell_at(lane, k)
            &&& in_bounds(t.cell())
            &&& dir.lane_of(t.cell()) == lane
            &&& dir.depth_of(t.cell()) == k
            &&& t.value == collapse(lane_values(b, dir, lane))[k]
            &&& t.merged_this_move == merge_marks(lane_values(b, dir, lane))[k]
            &&& swipe_board(b, dir).contains_key(t.cell())
            &&& swipe_board(b, dir)[t.cell()] == t.value
        }),
{
    lemma_lane_values_bounds(b, dir, lane);
}

/// The tiles that a swipe leaves in the given lanes, lane after lane, the
/// first lane last, each lane from the wall outwards.
pub open spec fn settled_lanes(b: Board, dir: Direction, lanes: Seq<int>) -> Seq<Tile>
    decreases lanes.len(),
{
    if lanes.len() == 0 {
        Seq::empty()
    } else {
        settled_lanes(b, dir, lanes.drop_first()) + settled(
            dir,
            lanes[0],
            lane_values(b, dir, lanes[0]),
        )
    }
}

/// Whether `lanes` names lanes of the grid, none of them twice.
pub open spec fn distinct_lanes(dir: Direction, lanes: Seq<int>) -> bool {
    &&& forall|i: int| 0 <= i < lanes.len() ==> 0 <= #[trigger] lanes[i] < dir.lane_count()
    &&& forall|i: int, j: int| 0 <= i < j < lanes.len() ==> #[trigger] lanes[i] != #[trigger] lanes[j]
}

/// The tiles left in the given lanes are the tiles that the swiped board
/// has in those lanes, each once.
pub(crate) proof fn lemma_settled_lanes(b: Board, dir: Direction, lanes: Seq<int>)
    requires
        is_board(b),
        has_headroom(b),
        distinct_lanes(dir, lanes),
    ensures
        forall|j: int|
            0 <= j < settled_lanes(b, dir, lanes).len() ==> {
                let t = #[trigger] settled_lanes(b, dir, lanes)[j];
                &&& in_bounds(t.cell())
                &&& lanes.contains(dir.lane_of(t.cell()))
                &&& swipe_board(b, dir).contains_key(t.cell())
                &&& swipe_board(b, dir)[t.cell()] == t.value
            },
        forall|c: (int, int)|
            #[trigger] swipe_board(b, dir).contains_key(c) && lanes.contains(dir.lane_of(c))
                ==> occupies(settled_lanes(b, dir, lanes), c),
        forall|i: int, j: int|
            0 <= i < j < settled_lanes(b, dir, lanes).len() ==> #[trigger] settled_lanes(
                b,
                dir,
                lanes,
            )[i].cell() != #[trigger] settled_lanes(b, dir, lanes)[j].cell(),
    decreases lanes.len(),
{
    let all = settled_lanes(b, dir, lanes);
    if lanes.len() > 0 {
        let rest_lanes = lanes.drop_first();
        let lane = lanes[0];
        let rest = settled_lanes(b, dir, rest_lanes);
        let here = settled(dir, lane, lane_values(b, dir, lane));
        lemma_settled_lanes(b, dir, rest_lanes);
        assert(all == rest + here);
        assert forall|j: int| 0 <= j < all.len() implies ({
            let t = #[trigger] all[j];
            &&& in_bounds(t.cell())
            &&& lanes.contains(dir.lane_of(t.cell()))
            &&& swipe_board(b, dir).contains_key(t.cell())
            &&& swipe_board(b, dir)[t.cell()] == t.value
            &&& j < rest.len() ==> rest_lanes.contains(dir.lane_of(t.cell()))
            &&& j >= rest.len() ==> dir.lane_of(t.cell()) == lane && dir.depth_of(t.cell()) == j
                - rest.len()
        }) by {
            if j < rest.len() {
                let t = rest[j];
                assert(all[j] == t);
                let l = dir.lane_of(t.cell());
                assert(rest_lanes.contains(l));
                let at = choose|at: int| 0 <= at < rest_lanes.len() && rest_lanes[at] == l;
                assert(lanes[at + 1] == l);
            } else {
                lemma_settled_tile(b, dir, lane, j - rest.len());
                assert(all[j] == here[j - rest.len()]);
                assert(lanes[0] == lane);
            }
        }
        assert forall|c: (int, int)|
            #[trigger] swipe_board(b, dir).contains_key(c) && lanes.contains(
                dir.lane_of(c),
            ) implies occupies(all, c) by {
            let l = dir.lane_of(c);
            if l == lane {
                let k = dir.depth_of(c);
                lemma_settled_tile(b, dir, lane, k);
                assert(all[rest.len() + k] == here[k]);
                assert(all[rest.len() + k].cell() == c);
            } else {
                let at = choose|at: int| 0 <= at < lanes.len() && lanes[at] == l;
                assert(rest_lanes[at - 1] == l);
                assert(rest_lanes.contains(l));
                assert(occupies(rest, c));
                let i = index_at(rest, c);
                assert(all[i] == rest[i]);
                assert(all[i].cell() == c);
            }
        }
        assert forall|i: int, j: int| 0 <= i < j < all.len() implies #[trigger] all[i].cell()
            != #[trigger] all[j].cell() by {
            if j < rest.len() {
                assert(all[i] == rest[i] && all[j] == rest[j]);
            } else if i < rest.len() {
                let l = dir.lane_of(all[i].cell());
                assert(rest_lanes.contains(l));
                let at = choose|at: int| 0 <= at < rest_lanes.len() && rest_lanes[at] == l;
                assert(lanes[at + 1] == l);
                assert(lanes[0] != lanes[at + 1]);
                assert(dir.lane_of(all[j].cell()) == lane);
            } else {
                assert(dir.depth_of(all[i].cell()) != dir.depth_of(all[j].cell()));
            }
        }
    }
}

/// The tiles left in lanes that cover every tile of the board stand for
/// the swiped board.
pub(crate) proof fn lemma_swiped_board(b: Board, dir: Direction, lanes: Seq<int>)
    requires
        is_board(b),
        has_headroom(b),
        distinct_lanes(dir, lanes),
        forall|c: (int, int)| #[trigger] b.contains_key(c) ==> lanes.contains(dir.lane_of(c)),
    ensures
        board_of(settled_lanes(b, dir, lanes)) == swipe_board(b, dir),
{
    let all = settled_lanes(b, dir, lanes);
    let after = swipe_board(b, dir);
    lemma_settled_lanes(b, dir, lanes);
    lemma_board_of(all);
    assert forall|c: (int, int)| after.contains_key(c) implies #[trigger] board_of(all).contains_key(
        c,
    ) by {
        let lane = dir.lane_of(c);
        let s = lane_values(b, dir, lane);
        lemma_collapse_len(s);
        lemma_lane_prefix(b, dir, lane, dir.lane_len());
        assert(lane_holds(b, dir, lane, dir.lane_len(), s[0]));
        let d = choose|d: int|
            0 <= d < dir.lane_len() && b.contains_key(#[trigger] dir.cell_at(lane, d)) && b[dir.cell_at(
                lane,
                d,
            )] == s[0];
        assert(b.contains_key(dir.cell_at(lane, d)));
        assert(lanes.contains(lane));
        assert(occupies(all, c));
    }
    assert forall|c: (int, int)| #[trigger] board_of(all).contains_key(c) implies after.contains_key(c)
        && after[c] == board_of(all)[c] by {
        let j = index_at(all, c);
        assert(all[j].cell() == c);
    }
    assert(board_of(all) =~= after);
}

/// Whether the swipe changes what some cell of `lane` holds.
pub open spec fn lane_differs(b: Board, dir: Direction, lane: int) -> bool {
    exists|d: int|
        0 <= d < dir.lane_len() && cell_differs(b, swipe_board(b, dir), #[trigger] dir.cell_at(lane, d))
}

/// Whether two boards differ in cell `c`.
pub open spec fn cell_differs(a: Board, b: Board, c: (int, int)) -> bool {
    a.contains_key(c) != b.contains_key(c) || (a.contains_key(c) && a[c] != b[c])
}

/// In a listed lane, tiles lie at least as many steps apart as they are
/// apart in the list.
proof fn lemma_listed_spread(b: Board, dir: Direction, lane: int, w: Seq<Tile>, i: int, j: int)
    requires
        lists_lane(b, dir, lane, w),
        0 <= i <= j < w.len(),
    ensures
        dir.depth_of(w[i].cell()) >= i,
        dir.depth_of(w[j].cell()) - dir.depth_of(w[i].cell()) >= j - i,
    decreases i + j,
{
    assert(in_bounds(w[i].cell()));
    if i < j {
        lemma_listed_spread(b, dir, lane, w, i, j - 1);
        assert(dir.depth_of(w[j - 1].cell()) < dir.depth_of(w[j].cell()));
    } else if i > 0 {
        lemma_listed_spread(b, dir, lane, w, i - 1, i - 1);
        assert(dir.depth_of(w[i - 1].cell()) < dir.depth_of(w[i].cell()));
    }
}

/// The swipe changes a lane of the board just when the tiles it leaves
/// there are not the tiles that were there.
pub(crate) proof fn lemma_lane_change(b: Board, dir: Direction, lane: int, w: Seq<Tile>)
    requires
        is_board(b),
        has_headroom(b),
        0 <= lane < dir.lane_count(),
        lists_lane(b, dir, lane, w),
    ensures
        settled(dir, lane, tile_values(w)) != w <==> lane_differs(b, dir, lane),
{
    let s = tile_values(w);
    let after = swipe_board(b, dir);
    let r = settled(dir, lane, s);
    let n = w.len() as int;
    let m = r.len() as int;
    lemma_listed_values(b, dir, lane, w);
    lemma_collapse_len(s);
    lemma_collapse_fixed(s);
    lemma_lane_values_bounds(b, dir, lane);
    if r == w {
        assert forall|d: int| 0 <= d < dir.lane_len() implies !cell_differs(
            b,
            after,
            #[trigger] dir.cell_at(lane, d),
        ) by {
            let c = dir.cell_at(lane, d);
            if d < m {
                lemma_settled_tile(b, dir, lane, d);
                assert(w[d].cell() == c);
            } else if b.contains_key(c) {
                assert(occupies(w, c));
                let i = index_at(w, c);
                lemma_settled_tile(b, dir, lane, i);
                assert(r[i].cell() == c);
            }
        }
    } else {
        assert(n > 0) by {
            if n == 0 {
                assert(r =~= w);
            }
        }
        let last = w[n - 1].cell();
        assert(in_bounds(last) && b.contains_key(last) && dir.lane_of(last) == lane);
        assert(dir.cell_at(lane, dir.depth_of(last)) == last);
        lemma_listed_spread(b, dir, lane, w, n - 1, n - 1);
        if m == n {
            assert(collapse(s) == s);
            if forall|k: int| 0 <= k < n ==> r[k] == w[k] {
                assert(r =~= w);
            }
            let k = choose|k: int| 0 <= k < n && r[k] != w[k];
            lemma_settled_tile(b, dir, lane, k);
            assert(!merge_marks(s)[k]);
            assert(in_bounds(w[k].cell()) && dir.lane_of(w[k].cell()) == lane);
            assert(r[k].value == w[k].value);
            assert(r[k].merged_this_move == w[k].merged_this_move);
            assert(r[k].position != w[k].position);
            assert(dir.depth_of(w[k].cell()) != k);
            lemma_listed_spread(b, dir, lane, w, k, n - 1);
        }
        assert(dir.depth_of(last) >= m);
        assert(cell_differs(b, after, dir.cell_at(lane, dir.depth_of(last))));
    }
}

/// The swipe changes the board just when it changes one of the lanes that
/// hold its tiles.
pub(crate) proof fn lemma_board_change(b: Board, dir: Direction, lanes: Seq<int>)
    requires
        is_board(b),
        has_headroom(b),
        forall|c: (int, int)| #[trigger] b.contains_key(c) ==> lanes.contains(dir.lane_of(c)),
    ensures
        swipe_board(b, dir) != b <==> exists|i: int|
            0 <= i < lanes.len() && lane_differs(b, dir, #[trigger] lanes[i]),
{
    let after = swipe_board(b, dir);
    if after != b {
        if forall|c: (int, int)| !cell_differs(b, after, c) {
            assert forall|c: (int, int)| #[trigger]
                after.dom().contains(c) == b.dom().contains(c) && (after.dom().contains(c)
                    ==> after[c] == b[c]) by {
                assert(!cell_differs(b, after, c));
            }
            assert(after.dom() =~= b.dom());
            assert(after =~= b);
        }
        let c = choose|c: (int, int)| cell_differs(b, after, c);
        let lane = dir.lane_of(c);
        assert(in_bounds(c));
        assert(dir.cell_at(lane, dir.depth_of(c)) == c);
        assert(lane_differs(b, dir, lane));
        if !b.contains_key(c) {
            let s = lane_values(b, dir, lane);
            lemma_collapse_len(s);
            lemma_lane_prefix(b, dir, lane, dir.lane_len());
            assert(lane_holds(b, dir, lane, dir.lane_len(), s[0]));
            let d = choose|d: int|
                0 <= d < dir.lane_len() && b.contains_key(#[trigger] dir.cell_at(lane, d))
                    && b[dir.cell_at(lane, d)] == s[0];
            assert(b.contains_key(dir.cell_at(lane, d)));
        }
        assert(lanes.contains(lane));
        let i = choose|i: int| 0 <= i < lanes.len() && lanes[i] == lane;
        assert(lane_differs(b, dir, lanes[i]));
    }
}

/// A lane read up to `n` steps from the wall that has `n` values has a
/// tile in each of those cells, and the values are theirs in order.
pub(crate) proof fn lemma_full_lane(b: Board, dir: Direction, lane: int, n: int)
    requires
        0 <= n,
        lane_prefix(b, dir, lane, n).len() == n,
    ensures
        forall|d: int|
            0 <= d < n ==> b.contains_key(#[trigger] dir.cell_at(lane, d)) && lane_prefix(
                b,
                dir,
                lane,
                n,
            )[d] == b[dir.cell_at(lane, d)],
    decreases n,
{
    if n > 0 {
        lemma_lane_prefix(b, dir, lane, n - 1);
        lemma_full_lane(b, dir, lane, n - 1);
    }
}

/// The lanes of the grid, each once.
pub open spec fn all_lanes(dir: Direction) -> Seq<int> {
    Seq::new(dir.lane_count() as nat, |i: int| i)
}

/// A swipe that changes the board leaves a free cell: in a lane that it
/// changes, the cell farthest from the wall.
pub proof fn lemma_change_leaves_room(b: Board, dir: Direction) -> (c: (int, int))
    requires
        is_board(b),
        has_headroom(b),
        swipe_board(b, dir) != b,
    ensures
        in_bounds(c),
        !swipe_board(b, dir).contains_key(c),
{
    let after = swipe_board(b, dir);
    let lanes = all_lanes(dir);
    assert forall|c: (int, int)| #[trigger] b.contains_key(c) implies lanes.contains(dir.lane_of(c)) by {
        assert(in_bounds(c));
        assert(lanes[dir.lane_of(c)] == dir.lane_of(c));
    }
    lemma_board_change(b, dir, lanes);
    let i = choose|i: int| 0 <= i < lanes.len() && lane_differs(b, dir, #[trigger] lanes[i]);
    let lane = lanes[i];
    let far = dir.lane_len() - 1;
    let c = dir.cell_at(lane, far);
    let s = lane_values(b, dir, lane);
    if after.contains_key(c) {
        lemma_lane_values_bounds(b, dir, lane);
        lemma_collapse_len(s);
        lemma_collapse_fixed(s);
        lemma_full_lane(b, dir, lane, dir.lane_len());
        assert forall|d: int| 0 <= d < dir.lane_len() implies !cell_differs(
            b,
            after,
            #[trigger] dir.cell_at(lane, d),
        ) by {
            assert(b.contains_key(dir.cell_at(lane, d)));
        }
    }
    c
}

} // verus!
