//! The calls this library makes into the crates it is built on. What is
//! stated of them here is taken on trust from their documentation and
//! source; everything else in the library is proved from it.

use crate::tile::{Direction, Tile};
use itertools::Itertools;
use vstd::prelude::*;

verus! {

/// The key tiles are ordered by before the grid is cut into lanes: the
/// lane first, the coordinate along the lane second.
pub open spec fn lane_key(tile: Tile, dir: Direction) -> (int, int) {
    (dir.lane_of(tile.cell()), dir.coord_of(tile.cell()))
}

/// The order of keys: by first component, then by second.
pub open spec fn key_le(a: (int, int), b: (int, int)) -> bool {
    a.0 < b.0 || (a.0 == b.0 && a.1 <= b.1)
}

/// The tiles of `tiles` whose key is `key`, in the order they have there.
pub open spec fn with_key(tiles: Seq<Tile>, dir: Direction, key: (int, int)) -> Seq<Tile> {
    tiles.filter(|t: Tile| lane_key(t, dir) == key)
}

/// All the tiles of the runs, run after run.
pub open spec fn concat_runs(runs: Seq<(u32, Vec<Tile>)>) -> Seq<Tile>
    decreases runs.len(),
{
    if runs.len() == 0 {
        Seq::empty()
    } else {
        concat_runs(runs.drop_last()) + runs.last().1@
    }
}

/// The key of a tile for a swipe in direction `dir`.
pub fn sort_key(tile: &Tile, dir: Direction) -> (key: (u32, u32))
    ensures
        (key.0 as int, key.1 as int) == lane_key(*tile, dir),
{
    (tile.position.lane(dir), tile.position.coord(dir))
}

/// Calls `Itertools::sorted_by_key` on the tiles, with `sort_key` as the
/// key. Taken on trust: the result holds the same tiles as `tiles`, in
/// ascending order of their keys, and tiles of equal key keep the order
/// they had (the sort is stable).
#[verifier::external_body]
pub(crate) fn sorted_by_lane(tiles: Vec<Tile>, dir: Direction) -> (sorted: Vec<Tile>)
    ensures
        sorted@.to_multiset() == tiles@.to_multiset(),
        forall|i: int, j: int|
            0 <= i < j < sorted@.len() ==> key_le(
                #[trigger] lane_key(sorted@[i], dir),
                #[trigger] lane_key(sorted@[j], dir),
            ),
        forall|key: (int, int)| #[trigger] with_key(sorted@, dir, key) == with_key(tiles@, dir, key),
{
    tiles.into_iter().sorted_by_key(|t| sort_key(t, dir)).collect()
}

/// Calls `Itertools::group_by` on the tiles, with the lane of a tile as the
/// key, and collects each group. Taken on trust: the groups are the runs
/// of consecutive tiles of equal lane, so they are not empty, follow one
/// another as the tiles do, each comes with the lane of its tiles, and
/// neighbouring groups are of different lanes.
#[verifier::external_body]
pub(crate) fn grouped_by_lane(tiles: Vec<Tile>, dir: Direction) -> (runs: Vec<(u32, Vec<Tile>)>)
    ensures
        concat_runs(runs@) == tiles@,
        forall|g: int| 0 <= g < runs@.len() ==> (#[trigger] runs@[g]).1@.len() > 0,
        forall|g: int, i: int|
            0 <= g < runs@.len() && 0 <= i < runs@[g].1@.len() ==> runs@[g].0 == dir.lane_of(
                (#[trigger] runs@[g].1@[i]).cell(),
            ),
        forall|g: int| 0 <= g && g + 1 < runs@.len() ==> runs@[g].0 != (#[trigger] runs@[g + 1]).0,
{
    let groups = tiles.into_iter().group_by(|t| t.position.lane(dir));
    groups.into_iter().map(|(lane, run)| (lane, run.collect())).collect()
}

/// Calls `Itertools::cartesian_product` on the ranges `0..columns` and
/// `0..rows` and collects the pairs. Taken on trust: the pairs come column
/// by column and, within a column, row by row.
#[verifier::external_body]
pub(crate) fn cell_pairs(columns: u32, rows: u32) -> (pairs: Vec<(u32, u32)>)
    requires
        columns * rows <= usize::MAX,
    ensures
        pairs@.len() == columns * rows,
        forall|k: int|
            0 <= k < pairs@.len() ==> (#[trigger] pairs@[k]).0 == k / (rows as int) && pairs@[k].1 == k % (
            rows as int),
{
    (0..columns).cartesian_product(0..rows).collect()
}

/// Calls `rand::random` for a pair of numbers, which it draws one after
/// the other from the generator of the thread. Nothing is stated of them.
/// The call fails only where the system cannot seed the generator.
#[verifier::external_body]
pub(crate) fn random_rolls() -> (usize, u32) {
    rand::random::<(usize, u32)>()
}

} // verus!
