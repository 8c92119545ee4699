//! From the tiles of a grid to its lanes: what sorting the tiles by lane and
//! cutting them into runs of equal lane gives.

use crate::board::{
    board_of, distinct_lanes, has_headroom, index_at, is_board, lane_differs, lemma_board_change,
    lemma_board_of, lemma_lane_change, lemma_listed_values, lemma_settled_lanes, lemma_swiped_board,
    lists_lane, occupies, settled_lanes, swipe_board, tiles_have_headroom, tiles_valid, Board,
};
use crate::deps::{concat_runs, key_le, lane_key};
use crate::lane::{is_lane_run, settled, toward_wall};
use crate::tile::{in_bounds, tile_values, Direction, Tile};
use vstd::prelude::*;

verus! {

/// Whether the tiles are in ascending order of lane and, within a lane, of
/// coordinate.
pub open spec fn sorted_by_key(tiles: Seq<Tile>, dir: Direction) -> bool {
    forall|i: int, j: int|
        0 <= i < j < tiles.len() ==> key_le(
            #[trigger] lane_key(tiles[i], dir),
            #[trigger] lane_key(tiles[j], dir),
        )
}

/// Whether `runs` cuts `tiles` into its runs of consecutive tiles of equal
/// lane, each run with its lane.
pub open spec fn cut_by_lane(
    tiles: Seq<Tile>,
    dir: Direction,
    runs: Seq<(u32, Vec<Tile>)>,
) -> bool {
    &&& concat_runs(runs) == tiles
    &&& forall|g: int| 0 <= g < runs.len() ==> (#[trigger] runs[g]).1@.len() > 0
    &&& forall|g: int, i: int|
        0 <= g < runs.len() && 0 <= i < runs[g].1@.len() ==> runs[g].0 == dir.lane_of(
            (#[trigger] runs[g].1@[i]).cell(),
        )
    &&& forall|g: int| 0 <= g && g + 1 < runs.len() ==> runs[g].0 != (#[trigger] runs[g + 1]).0
}

/// The lanes of the runs, in the order of the runs.
pub open spec fn run_lanes(runs: Seq<(u32, Vec<Tile>)>) -> Seq<int> {
    Seq::new(runs.len(), |g: int| runs[g].0 as int)
}

/// Whether the runs are the lanes of board `b` that hold tiles: each run
/// lists one lane by rising coordinate, no lane has two runs, and every tile
/// of the board is in the run of its lane.
pub open spec fn runs_are_lanes(b: Board, dir: Direction, runs: Seq<(u32, Vec<Tile>)>) -> bool {
    &&& forall|g: int|
        0 <= g < runs.len() ==> {
            &&& (#[trigger] runs[g]).1@.len() > 0
            &&& 0 <= runs[g].0 < dir.lane_count()
            &&& is_lane_run(dir, runs[g].1@)
            &&& dir.lane_of(runs[g].1@[0].cell()) == runs[g].0
            &&& lists_lane(b, dir, runs[g].0 as int, toward_wall(dir, runs[g].1@))
        }
    &&& forall|g: int, h: int| 0 <= g < h < runs.len() ==> (#[trigger] runs[g]).0 != (#[trigger] runs[h]).0
    &&& forall|c: (int, int)| #[trigger] b.contains_key(c) ==> run_lanes(runs).contains(dir.lane_of(c))
}

/// The same tiles in another order are as valid and stand for the same
/// board.
pub(crate) proof fn lemma_reordered(tiles: Seq<Tile>, other: Seq<Tile>)
    requires
        tiles_valid(tiles),
        other.to_multiset() == tiles.to_multiset(),
    ensures
        tiles_valid(other),
        board_of(other) == board_of(tiles),
        other.len() == tiles.len(),
        forall|i: int| 0 <= i < other.len() ==> tiles.contains(#[trigger] other[i]),
        forall|i: int| 0 <= i < tiles.len() ==> other.contains(#[trigger] tiles[i]),
{
    broadcast use vstd::seq_lib::group_to_multiset_ensures;

    assert forall|i: int| 0 <= i < other.len() implies tiles.contains(#[trigger] other[i]) by {
        assert(other.contains(other[i]));
        assert(other.to_multiset().count(other[i]) > 0);
        assert(tiles.to_multiset().count(other[i]) > 0);
    }
    assert forall|i: int| 0 <= i < tiles.len() implies other.contains(#[trigger] tiles[i]) by {
        assert(tiles.contains(tiles[i]));
        assert(tiles.to_multiset().count(tiles[i]) > 0);
        assert(other.to_multiset().count(tiles[i]) > 0);
    }
    assert(other.len() == other.to_multiset().len());
    assert(tiles.len() == tiles.to_multiset().len());
    assert(tiles.no_duplicates()) by {
        assert forall|i: int, j: int| 0 <= i < tiles.len() && 0 <= j < tiles.len() && i != j implies tiles[i]
            != tiles[j] by {
            if i < j {
                assert(tiles[i].cell() != tiles[j].cell());
            } else {
                assert(tiles[j].cell() != tiles[i].cell());
            }
        }
    }
    tiles.lemma_multiset_has_no_duplicates();
    other.lemma_multiset_has_no_duplicates_conv();
    assert forall|i: int| 0 <= i < other.len() implies in_bounds(#[trigger] other[i].cell())
        && !other[i].merged_this_move by {
        assert(tiles.contains(other[i]));
        let a = choose|a: int| 0 <= a < tiles.len() && tiles[a] == other[i];
        assert(in_bounds(tiles[a].cell()));
    }
    assert forall|i: int, j: int| 0 <= i < j < other.len() implies #[trigger] other[i].cell()
        != #[trigger] other[j].cell() by {
        assert(tiles.contains(other[i]));
        assert(tiles.contains(other[j]));
        let a = choose|a: int| 0 <= a < tiles.len() && tiles[a] == other[i];
        let b = choose|b: int| 0 <= b < tiles.len() && tiles[b] == other[j];
        assert(other[i] != other[j]);
        if a < b {
            assert(tiles[a].cell() != tiles[b].cell());
        }
        if b < a {
            assert(tiles[b].cell() != tiles[a].cell());
        }
    }
    lemma_board_of(tiles);
    lemma_board_of(other);
    assert forall|c: (int, int)| occupies(tiles, c) implies occupies(other, c) && board_of(other)[c]
        == board_of(tiles)[c] by {
        let i = index_at(tiles, c);
        assert(other.contains(tiles[i]));
        let p = choose|p: int| 0 <= p < other.len() && other[p] == tiles[i];
        assert(other[p].cell() == c);
        assert(tiles[i].cell() == c);
    }
    assert forall|c: (int, int)| occupies(other, c) implies occupies(tiles, c) by {
        let p = index_at(other, c);
        assert(tiles.contains(other[p]));
        let i = choose|i: int| 0 <= i < tiles.len() && tiles[i] == other[p];
        assert(tiles[i].cell() == c);
    }
    assert(board_of(other).dom() =~= board_of(tiles).dom());
    assert(board_of(other) =~= board_of(tiles));
}

/// Where run `g` starts among all the tiles of the runs.
pub open spec fn run_start(runs: Seq<(u32, Vec<Tile>)>, g: int) -> int {
    concat_runs(runs.take(g)).len() as int
}

/// Tile `i` of run `g` is the tile that many places after the start of the
/// run among all the tiles, and runs follow one another.
pub(crate) proof fn lemma_concat_index(runs: Seq<(u32, Vec<Tile>)>, g: int, i: int)
    requires
        0 <= g < runs.len(),
        0 <= i < runs[g].1@.len(),
    ensures
        0 <= run_start(runs, g) + i < concat_runs(runs).len(),
        concat_runs(runs)[run_start(runs, g) + i] == runs[g].1@[i],
        run_start(runs, g + 1) == run_start(runs, g) + runs[g].1@.len(),
    decreases runs.len(),
{
    let front = runs.drop_last();
    assert(runs.take(g + 1).drop_last() =~= runs.take(g));
    assert(runs.take(g + 1).last() == runs[g]);
    if g == runs.len() - 1 {
        assert(runs.take(g) =~= front);
        assert(runs.take(g + 1) =~= runs);
    } else {
        lemma_concat_index(front, g, i);
        assert(front.take(g) =~= runs.take(g));
        assert(front.take(g + 1) =~= runs.take(g + 1));
    }
}

/// Every tile of the runs is a tile of one of them.
pub(crate) proof fn lemma_concat_find(runs: Seq<(u32, Vec<Tile>)>, p: int) -> (at: (int, int))
    requires
        0 <= p < concat_runs(runs).len(),
    ensures
        0 <= at.0 < runs.len(),
        0 <= at.1 < runs[at.0].1@.len(),
        p == run_start(runs, at.0) + at.1,
        concat_runs(runs)[p] == runs[at.0].1@[at.1],
    decreases runs.len(),
{
    let front = runs.drop_last();
    let g = runs.len() - 1;
    if p < concat_runs(front).len() {
        let at = lemma_concat_find(front, p);
        assert(front.take(at.0) =~= runs.take(at.0));
        at
    } else {
        assert(runs.take(g) =~= front);
        (g, p - concat_runs(front).len())
    }
}

/// The lanes of the runs of sorted tiles rise from run to run.
pub(crate) proof fn lemma_lanes_rise(
    sorted: Seq<Tile>,
    dir: Direction,
    runs: Seq<(u32, Vec<Tile>)>,
    g: int,
    h: int,
)
    requires
        sorted_by_key(sorted, dir),
        cut_by_lane(sorted, dir, runs),
        0 <= g < h < runs.len(),
    ensures
        runs[g].0 < runs[h].0,
    decreases h - g,
{
    if g < h - 1 {
        lemma_lanes_rise(sorted, dir, runs, g, h - 1);
    }
    let before = runs[h - 1].1@;
    let last = before.len() - 1;
    assert(runs[h].1@.len() > 0 && before.len() > 0);
    lemma_concat_index(runs, h - 1, last);
    lemma_concat_index(runs, h, 0);
    let p = run_start(runs, h - 1) + last;
    let q = run_start(runs, h);
    assert(key_le(lane_key(sorted[p], dir), lane_key(sorted[q], dir)));
    assert(runs[h - 1].0 == dir.lane_of(runs[h - 1].1@[last].cell()));
    assert(runs[h].0 == dir.lane_of(runs[h].1@[0].cell()));
    assert(runs[h - 1].0 != runs[h - 1 + 1].0);
}

/// Each run of the sorted tiles of a grid lists one lane of its board.
proof fn lemma_run_is_lane(
    tiles: Seq<Tile>,
    sorted: Seq<Tile>,
    dir: Direction,
    runs: Seq<(u32, Vec<Tile>)>,
    g: int,
)
    requires
        tiles_valid(tiles),
        tiles_have_headroom(tiles),
        sorted.to_multiset() == tiles.to_multiset(),
        sorted_by_key(sorted, dir),
        cut_by_lane(sorted, dir, runs),
        0 <= g < runs.len(),
    ensures
        runs[g].1@.len() > 0,
        0 <= runs[g].0 < dir.lane_count(),
        is_lane_run(dir, runs[g].1@),
        dir.lane_of(runs[g].1@[0].cell()) == runs[g].0,
        lists_lane(board_of(tiles), dir, runs[g].0 as int, toward_wall(dir, runs[g].1@)),
{
    let b = board_of(tiles);
    let run = runs[g].1@;
    let n = run.len() as int;
    let lane = runs[g].0 as int;
    let w = toward_wall(dir, run);
    let start = run_start(runs, g);
    lemma_reordered(tiles, sorted);
    lemma_board_of(sorted);
    assert(n > 0);
    assert forall|i: int| 0 <= i < n implies {
        &&& 0 <= start + i < sorted.len()
        &&& sorted[start + i] == #[trigger] run[i]
        &&& in_bounds(run[i].cell())
        &&& !run[i].merged_this_move
        &&& run[i].value < u32::MAX
        &&& dir.lane_of(run[i].cell()) == lane
        &&& b.contains_key(run[i].cell())
        &&& b[run[i].cell()] == run[i].value
    } by {
        lemma_concat_index(runs, g, i);
        let t = sorted[start + i];
        assert(in_bounds(t.cell()));
        assert(tiles.contains(t));
        let a = choose|a: int| 0 <= a < tiles.len() && tiles[a] == t;
        assert(tiles[a].value < u32::MAX);
        assert(lane == dir.lane_of(runs[g].1@[i].cell()));
        assert(b.contains_key(sorted[start + i].cell()));
    }
    assert forall|i: int, j: int| 0 <= i < j < n implies dir.coord_of(#[trigger] run[i].cell())
        < dir.coord_of(#[trigger] run[j].cell()) by {
        assert(sorted[start + i] == run[i] && sorted[start + j] == run[j]);
        assert(key_le(lane_key(sorted[start + i], dir), lane_key(sorted[start + j], dir)));
        assert(sorted[start + i].cell() != sorted[start + j].cell());
        assert(dir.lane_of(run[i].cell()) == dir.lane_of(run[j].cell()));
    }
    assert(is_lane_run(dir, run)) by {
        assert forall|i: int, j: int| 0 <= i < j < n implies {
            &&& dir.lane_of(#[trigger] run[i].cell()) == dir.lane_of(#[trigger] run[j].cell())
            &&& dir.coord_of(run[i].cell()) < dir.coord_of(run[j].cell())
        } by {
            assert(dir.lane_of(run[i].cell()) == lane);
            assert(dir.lane_of(run[j].cell()) == lane);
        }
    }
    assert(in_bounds(run[0].cell()));
    assert forall|i: int| 0 <= i < w.len() implies {
        &&& in_bounds(#[trigger] w[i].cell())
        &&& dir.lane_of(w[i].cell()) == lane
        &&& b.contains_key(w[i].cell())
        &&& b[w[i].cell()] == w[i].value
        &&& !w[i].merged_this_move
    } by {
        if dir.wall_at_zero() {
            assert(w[i] == run[i]);
        } else {
            assert(w[i] == run[n - 1 - i]);
        }
    }
    assert forall|i: int, j: int| 0 <= i < j < w.len() implies dir.depth_of(#[trigger] w[i].cell())
        < dir.depth_of(#[trigger] w[j].cell()) by {
        if dir.wall_at_zero() {
            assert(w[i] == run[i] && w[j] == run[j]);
        } else {
            assert(w[i] == run[n - 1 - i] && w[j] == run[n - 1 - j]);
            assert(dir.coord_of(run[n - 1 - j].cell()) < dir.coord_of(run[n - 1 - i].cell()));
        }
    }
    assert forall|c: (int, int)|
        #[trigger] b.contains_key(c) && in_bounds(c) && dir.lane_of(c) == lane implies occupies(
        w,
        c,
    ) by {
        assert(occupies(sorted, c));
        let p = index_at(sorted, c);
        let at = lemma_concat_find(runs, p);
        assert(runs[at.0].0 == dir.lane_of(runs[at.0].1@[at.1].cell()));
        if at.0 < g {
            lemma_lanes_rise(sorted, dir, runs, at.0, g);
        }
        if g < at.0 {
            lemma_lanes_rise(sorted, dir, runs, g, at.0);
        }
        assert(at.0 == g);
        assert(run[at.1].cell() == c);
        if dir.wall_at_zero() {
            assert(w[at.1].cell() == c);
        } else {
            assert(w[n - 1 - at.1] == run[at.1]);
            assert(w[n - 1 - at.1].cell() == c);
        }
    }
}

/// Sorting the tiles of a grid by lane and cutting them into runs of equal
/// lane gives the lanes of its board that hold tiles.
pub(crate) proof fn lemma_runs_are_lanes(
    tiles: Seq<Tile>,
    sorted: Seq<Tile>,
    dir: Direction,
    runs: Seq<(u32, Vec<Tile>)>,
)
    requires
        tiles_valid(tiles),
        tiles_have_headroom(tiles),
        sorted.to_multiset() == tiles.to_multiset(),
        sorted_by_key(sorted, dir),
        cut_by_lane(sorted, dir, runs),
    ensures
        runs_are_lanes(board_of(tiles), dir, runs),
{
    let b = board_of(tiles);
    assert forall|g: int| 0 <= g < runs.len() implies {
        &&& (#[trigger] runs[g]).1@.len() > 0
        &&& 0 <= runs[g].0 < dir.lane_count()
        &&& is_lane_run(dir, runs[g].1@)
        &&& dir.lane_of(runs[g].1@[0].cell()) == runs[g].0
        &&& lists_lane(b, dir, runs[g].0 as int, toward_wall(dir, runs[g].1@))
    } by {
        lemma_run_is_lane(tiles, sorted, dir, runs, g);
    }
    assert forall|g: int, h: int| 0 <= g < h < runs.len() implies (#[trigger] runs[g]).0 != (
    #[trigger] runs[h]).0 by {
        lemma_lanes_rise(sorted, dir, runs, g, h);
    }
    lemma_reordered(tiles, sorted);
    lemma_board_of(sorted);
    assert forall|c: (int, int)| #[trigger] b.contains_key(c) implies run_lanes(runs).contains(
        dir.lane_of(c),
    ) by {
        assert(occupies(sorted, c));
        let p = index_at(sorted, c);
        let at = lemma_concat_find(runs, p);
        assert(runs[at.0].0 == dir.lane_of(runs[at.0].1@[at.1].cell()));
        assert(run_lanes(runs)[at.0] == dir.lane_of(c));
    }
}

/// Tiles that differ only in their merge marks stand for the same board.
pub(crate) proof fn lemma_board_ignores_marks(marked: Seq<Tile>, cleared: Seq<Tile>)
    requires
        marked.len() == cleared.len(),
        forall|i: int|
            0 <= i < marked.len() ==> (#[trigger] cleared[i]).position == marked[i].position
                && cleared[i].value == marked[i].value,
        forall|i: int, j: int|
            0 <= i < j < marked.len() ==> #[trigger] marked[i].cell() != #[trigger] marked[j].cell(),
    ensures
        board_of(cleared) == board_of(marked),
{
    assert forall|i: int, j: int| 0 <= i < j < cleared.len() implies #[trigger] cleared[i].cell()
        != #[trigger] cleared[j].cell() by {
        assert(marked[i].cell() != marked[j].cell());
    }
    lemma_board_of(marked);
    lemma_board_of(cleared);
    assert forall|c: (int, int)| occupies(marked, c) implies occupies(cleared, c) && board_of(
        cleared,
    )[c] == board_of(marked)[c] by {
        let i = index_at(marked, c);
        assert(cleared[i].cell() == c);
        assert(marked[i].cell() == c);
    }
    assert forall|c: (int, int)| occupies(cleared, c) implies occupies(marked, c) by {
        let i = index_at(cleared, c);
        assert(marked[i].cell() == c);
    }
    assert(board_of(cleared).dom() =~= board_of(marked).dom());
    assert(board_of(cleared) =~= board_of(marked));
}

/// Whether the swipe changes one of the lanes from place `from` on.
pub open spec fn some_lane_differs(b: Board, dir: Direction, lanes: Seq<int>, from: int) -> bool {
    exists|g: int| from <= g < lanes.len() && lane_differs(b, dir, #[trigger] lanes[g])
}

/// Before any run is swiped, no tile is settled and no lane has changed.
pub(crate) proof fn lemma_swipe_start(b: Board, dir: Direction, runs: Seq<(u32, Vec<Tile>)>)
    ensures
        runs.take(runs.len() as int) == runs,
        settled_lanes(b, dir, run_lanes(runs).skip(runs.len() as int)) == Seq::<Tile>::empty(),
        !some_lane_differs(b, dir, run_lanes(runs), runs.len() as int),
{
    assert(runs.take(runs.len() as int) =~= runs);
    assert(run_lanes(runs).skip(runs.len() as int) =~= Seq::<int>::empty());
}

/// Swiping run `g` settles its lane: the run can be swiped as a lane, what
/// it becomes is what the swipe leaves in that lane, and it is changed by
/// that just when the board is changed in that lane.
pub(crate) proof fn lemma_swipe_step(b: Board, dir: Direction, runs: Seq<(u32, Vec<Tile>)>, g: int)
    requires
        is_board(b),
        has_headroom(b),
        runs_are_lanes(b, dir, runs),
        0 <= g < runs.len(),
    ensures
        ({
            let run = runs[g].1@;
            let lanes = run_lanes(runs);
            let after = settled(dir, dir.lane_of(run[0].cell()), tile_values(toward_wall(dir, run)));
            &&& run.len() > 0
            &&& is_lane_run(dir, run)
            &&& settled_lanes(b, dir, lanes.skip(g)) == settled_lanes(b, dir, lanes.skip(g + 1)) + after
            &&& some_lane_differs(b, dir, lanes, g) <==> some_lane_differs(b, dir, lanes, g + 1) || after
                != toward_wall(dir, run)
        }),
{
    let run = runs[g].1@;
    let lanes = run_lanes(runs);
    let lane = runs[g].0 as int;
    let w = toward_wall(dir, run);
    assert(lanes[g] == lane);
    lemma_listed_values(b, dir, lane, w);
    lemma_lane_change(b, dir, lane, w);
    assert(lanes.skip(g).drop_first() =~= lanes.skip(g + 1));
    assert(lanes.skip(g)[0] == lane);
    if some_lane_differs(b, dir, lanes, g) {
        let h = choose|h: int| g <= h < lanes.len() && lane_differs(b, dir, #[trigger] lanes[h]);
        if h != g {
            assert(g + 1 <= h < lanes.len() && lane_differs(b, dir, lanes[h]));
        }
    }
    if some_lane_differs(b, dir, lanes, g + 1) {
        let h = choose|h: int| g + 1 <= h < lanes.len() && lane_differs(b, dir, #[trigger] lanes[h]);
        assert(g <= h < lanes.len() && lane_differs(b, dir, lanes[h]));
    }
    if lane_differs(b, dir, lane) {
        assert(g <= g < lanes.len() && lane_differs(b, dir, lanes[g]));
    }
}

/// When every run is swiped, the settled tiles stand for the swiped board,
/// and a lane has changed just when the board has.
pub(crate) proof fn lemma_swipe_end(b: Board, dir: Direction, runs: Seq<(u32, Vec<Tile>)>)
    requires
        is_board(b),
        has_headroom(b),
        runs_are_lanes(b, dir, runs),
    ensures
        ({
            let all = settled_lanes(b, dir, run_lanes(runs).skip(0));
            &&& board_of(all) == swipe_board(b, dir)
            &&& forall|j: int| 0 <= j < all.len() ==> in_bounds(#[trigger] all[j].cell())
            &&& forall|j: int, k: int|
                0 <= j < k < all.len() ==> #[trigger] all[j].cell() != #[trigger] all[k].cell()
            &&& some_lane_differs(b, dir, run_lanes(runs), 0) <==> swipe_board(b, dir) != b
        }),
{
    let lanes = run_lanes(runs);
    assert(lanes.skip(0) =~= lanes);
    assert(distinct_lanes(dir, lanes)) by {
        assert forall|i: int| 0 <= i < lanes.len() implies 0 <= #[trigger] lanes[i]
            < dir.lane_count() by {
            assert(0 <= runs[i].0 < dir.lane_count());
        }
        assert forall|i: int, j: int| 0 <= i < j < lanes.len() implies #[trigger] lanes[i]
            != #[trigger] lanes[j] by {
            assert(runs[i].0 != runs[j].0);
        }
    }
    lemma_swiped_board(b, dir, lanes);
    lemma_settled_lanes(b, dir, lanes);
    lemma_board_change(b, dir, lanes);
    if swipe_board(b, dir) != b {
        let i = choose|i: int| 0 <= i < lanes.len() && lane_differs(b, dir, #[trigger] lanes[i]);
        assert(0 <= i < lanes.len() && lane_differs(b, dir, lanes[i]));
    }
}

} // verus!
