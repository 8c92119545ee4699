//! One lane of the grid: how a row or column of tile values compacts and
//! merges when it is swiped towards its wall.
//!
//! A lane is a sequence of tile values, listed from the tile nearest the
//! target wall outwards.

use crate::tile::{in_bounds, position_at, tile_values, Direction, Position, Tile};
use vstd::multiset::Multiset;
use vstd::prelude::*;

verus! {

/// The lane after a swipe. Walking outwards from the wall, two neighbouring
/// tiles of equal value become one tile of the next value; a tile made by a
/// merge does not merge again.
pub open spec fn collapse(s: Seq<int>) -> Seq<int>
    decreases s.len(),
{
    if s.len() == 0 {
        Seq::empty()
    } else if s.len() >= 2 && s[0] == s[1] {
        seq![s[0] + 1] + collapse(s.skip(2))
    } else {
        seq![s[0]] + collapse(s.skip(1))
    }
}

/// For each tile of `collapse(s)`, whether it was made by a merge.
pub open spec fn merge_marks(s: Seq<int>) -> Seq<bool>
    decreases s.len(),
{
    if s.len() == 0 {
        Seq::empty()
    } else if s.len() >= 2 && s[0] == s[1] {
        seq![true] + merge_marks(s.skip(2))
    } else {
        seq![false] + merge_marks(s.skip(1))
    }
}

/// The value of each pair of tiles that merges, in lane order.
pub open spec fn merged_values(s: Seq<int>) -> Seq<int>
    decreases s.len(),
{
    if s.len() == 0 {
        Seq::empty()
    } else if s.len() >= 2 && s[0] == s[1] {
        seq![s[0]] + merged_values(s.skip(2))
    } else {
        merged_values(s.skip(1))
    }
}

/// Index in `s` of the first tile that tile `k` of `collapse(s)` was made
/// from. Tile `k` was made from two tiles if it is marked as merged, from one
/// otherwise.
pub open spec fn first_source(s: Seq<int>, k: int) -> int
    decreases k,
{
    if k <= 0 {
        0
    } else if merge_marks(s)[k - 1] {
        first_source(s, k - 1) + 2
    } else {
        first_source(s, k - 1) + 1
    }
}

/// Whether no two neighbouring tiles of the lane have the same value.
pub open spec fn no_equal_neighbours(s: Seq<int>) -> bool {
    forall|i: int| 0 <= i && i + 1 < s.len() ==> s[i] != #[trigger] s[i + 1]
}

/// Every value of `s` raised by one.
pub open spec fn raised(s: Seq<int>) -> Seq<int> {
    Seq::new(s.len(), |i: int| s[i] + 1)
}

/// A swipe leaves as many tiles as there were, less one for each merge.
pub proof fn lemma_collapse_len(s: Seq<int>)
    ensures
        collapse(s).len() == merge_marks(s).len(),
        collapse(s).len() + merged_values(s).len() == s.len(),
        s.len() > 0 ==> collapse(s).len() > 0,
    decreases s.len(),
{
    if s.len() == 0 {
    } else if s.len() >= 2 && s[0] == s[1] {
        lemma_collapse_len(s.skip(2));
    } else {
        lemma_collapse_len(s.skip(1));
    }
}

/// A lane without equal neighbours is left as it is, and only such a lane.
pub proof fn lemma_collapse_fixed(s: Seq<int>)
    ensures
        no_equal_neighbours(s) <==> collapse(s) == s,
        no_equal_neighbours(s) <==> collapse(s).len() == s.len(),
        no_equal_neighbours(s) <==> merged_values(s).len() == 0,
        no_equal_neighbours(s) ==> forall|k: int| 0 <= k < s.len() ==> !(#[trigger] merge_marks(s)[k]),
    decreases s.len(),
{
    lemma_collapse_len(s);
    if s.len() == 0 {
        assert(collapse(s) =~= s);
    } else if s.len() >= 2 && s[0] == s[1] {
        lemma_collapse_len(s.skip(2));
        assert(s[0int] == s[0int + 1]);
    } else {
        let t = s.skip(1);
        lemma_collapse_fixed(t);
        lemma_collapse_len(t);
        if no_equal_neighbours(s) {
            assert forall|i: int| 0 <= i && i + 1 < t.len() implies t[i] != #[trigger] t[i + 1] by {
                assert(s[i + 1] != s[(i + 1) + 1]);
            }
            assert(collapse(s) =~= s);
            assert forall|k: int| 0 <= k < s.len() implies !(#[trigger] merge_marks(s)[k]) by {
                if k > 0 {
                    assert(merge_marks(s)[k] == merge_marks(t)[k - 1]);
                }
            }
        }
        if no_equal_neighbours(t) {
            assert forall|i: int| 0 <= i && i + 1 < s.len() implies s[i] != #[trigger] s[i + 1] by {
                if i > 0 {
                    assert(t[i - 1] != t[(i - 1) + 1]);
                }
            }
        }
    }
}

/// The tiles of `s` that tile `k` of the swiped lane is made from start
/// where those of the lane without its first block start, moved by the
/// size of that block.
proof fn lemma_first_source_step(s: Seq<int>, k: int)
    requires
        1 <= k <= collapse(s).len(),
    ensures
        s.len() >= 2 && s[0] == s[1] ==> first_source(s, k) == 2 + first_source(s.skip(2), k - 1),
        !(s.len() >= 2 && s[0] == s[1]) ==> first_source(s, k) == 1 + first_source(s.skip(1), k - 1),
    decreases k,
{
    lemma_collapse_len(s);
    reveal_with_fuel(first_source, 2);
    if k > 1 {
        lemma_first_source_step(s, k - 1);
        if s.len() >= 2 && s[0] == s[1] {
            assert(merge_marks(s)[k - 1] == merge_marks(s.skip(2))[k - 2]);
        } else {
            assert(merge_marks(s)[k - 1] == merge_marks(s.skip(1))[k - 2]);
        }
    }
}

/// No tile takes part in more than one merge. The tiles of the swiped lane
/// are made, in order, from consecutive blocks of the lane before: a block
/// of one tile, which keeps its value, or a block of two tiles of equal
/// value, which become one tile of the next value. The blocks follow one
/// another without gap or overlap and cover the lane.
pub proof fn lemma_single_merge(s: Seq<int>, k: int)
    requires
        0 <= k < collapse(s).len(),
    ensures
        ({
            let a = first_source(s, k);
            let merged = merge_marks(s)[k];
            &&& 0 <= a < s.len()
            &&& !merged ==> collapse(s)[k] == s[a] && first_source(s, k + 1) == a + 1
            &&& merged ==> a + 1 < s.len() && s[a] == s[a + 1] && collapse(s)[k] == s[a] + 1
                && first_source(s, k + 1) == a + 2
            &&& k + 1 == collapse(s).len() ==> first_source(s, k + 1) == s.len()
        }),
    decreases k,
{
    lemma_collapse_len(s);
    if k == 0 {
        if s.len() >= 2 && s[0] == s[1] {
            lemma_collapse_len(s.skip(2));
        } else {
            lemma_collapse_len(s.skip(1));
        }
    } else {
        lemma_first_source_step(s, k);
        lemma_first_source_step(s, k + 1);
        if s.len() >= 2 && s[0] == s[1] {
            let t = s.skip(2);
            lemma_single_merge(t, k - 1);
            lemma_collapse_len(t);
            assert(collapse(s)[k] == collapse(t)[k - 1]);
            assert(merge_marks(s)[k] == merge_marks(t)[k - 1]);
        } else {
            let t = s.skip(1);
            lemma_single_merge(t, k - 1);
            lemma_collapse_len(t);
            assert(collapse(s)[k] == collapse(t)[k - 1]);
            assert(merge_marks(s)[k] == merge_marks(t)[k - 1]);
        }
    }
}

/// The values of a lane are conserved up to merges: the tiles after the
/// swipe, together with two tiles of value `v` for each merge of value `v`,
/// are the tiles before the swipe together with one tile of value `v + 1`
/// for each merge.
pub proof fn lemma_collapse_conserves_values(s: Seq<int>)
    ensures
        collapse(s).to_multiset().add(merged_values(s).to_multiset()).add(
            merged_values(s).to_multiset(),
        ) == s.to_multiset().add(raised(merged_values(s)).to_multiset()),
    decreases s.len(),
{
    broadcast use vstd::multiset::group_multiset_axioms;

    let m = merged_values(s);
    let before = s.to_multiset().add(raised(m).to_multiset());
    let after = collapse(s).to_multiset().add(m.to_multiset()).add(m.to_multiset());
    if s.len() == 0 {
        assert(raised(m) =~= s);
        assert(collapse(s) =~= s);
        assert(m =~= s);
        assert(s.to_multiset().len() == 0) by {
            s.to_multiset_ensures();
        }
        assert(after =~= before);
    } else if s.len() >= 2 && s[0] == s[1] {
        let t = s.skip(2);
        let v = s[0];
        let mt = merged_values(t);
        lemma_collapse_conserves_values(t);
        let before_t = t.to_multiset().add(raised(mt).to_multiset());
        let after_t = collapse(t).to_multiset().add(mt.to_multiset()).add(mt.to_multiset());
        lemma_bag_cons(v + 1, collapse(t));
        lemma_bag_cons(v, mt);
        assert(raised(m) =~= seq![v + 1] + raised(mt));
        lemma_bag_cons(v + 1, raised(mt));
        assert(s =~= seq![v] + (seq![v] + t));
        lemma_bag_cons(v, t);
        lemma_bag_cons(v, seq![v] + t);
        assert forall|x: int| after.count(x) == before.count(x) by {
            assert(after_t.count(x) == before_t.count(x));
        }
        assert(after =~= before);
    } else {
        let t = s.skip(1);
        let mt = merged_values(t);
        lemma_collapse_conserves_values(t);
        let before_t = t.to_multiset().add(raised(mt).to_multiset());
        let after_t = collapse(t).to_multiset().add(mt.to_multiset()).add(mt.to_multiset());
        lemma_bag_cons(s[0], collapse(t));
        assert(s =~= seq![s[0]] + t);
        lemma_bag_cons(s[0], t);
        assert forall|x: int| after.count(x) == before.count(x) by {
            assert(after_t.count(x) == before_t.count(x));
        }
        assert(after =~= before);
    }
}

/// The bag of a sequence with one more value in front.
proof fn lemma_bag_cons(v: int, t: Seq<int>)
    ensures
        (seq![v] + t).to_multiset() == t.to_multiset().insert(v),
{
    broadcast use vstd::multiset::group_multiset_axioms;
    broadcast use vstd::seq_lib::group_to_multiset_ensures;

    vstd::seq_lib::lemma_multiset_commutative(seq![v], t);
    assert(seq![v] =~= Seq::<int>::empty().push(v));
    assert(Seq::<int>::empty().to_multiset() =~= Multiset::<int>::empty());
    assert(seq![v].to_multiset().add(t.to_multiset()) =~= t.to_multiset().insert(v));
}

/// Whether `tiles` can be the tiles of one lane, listed by rising
/// coordinate along the lane: all on the grid and in the same lane, none
/// marked as merged, none at the largest value a tile can hold.
pub open spec fn is_lane_run(dir: Direction, tiles: Seq<Tile>) -> bool {
    &&& forall|i: int|
        0 <= i < tiles.len() ==> {
            &&& in_bounds(#[trigger] tiles[i].cell())
            &&& !tiles[i].merged_this_move
            &&& tiles[i].value < u32::MAX
        }
    &&& forall|i: int, j: int|
        0 <= i < j < tiles.len() ==> {
            &&& dir.lane_of(#[trigger] tiles[i].cell()) == dir.lane_of(#[trigger] tiles[j].cell())
            &&& dir.coord_of(tiles[i].cell()) < dir.coord_of(tiles[j].cell())
        }
}

/// The tiles of a lane listed from the target wall outwards, given by
/// rising coordinate.
pub open spec fn toward_wall(dir: Direction, tiles: Seq<Tile>) -> Seq<Tile> {
    if dir.wall_at_zero() {
        tiles
    } else {
        tiles.reverse()
    }
}

/// The tiles of `lane` after a swipe in direction `dir`, from the wall
/// outwards, where `values` are the values of its tiles before the swipe in
/// that order: tile `k` sits `k` steps from the wall.
pub open spec fn settled(dir: Direction, lane: int, values: Seq<int>) -> Seq<Tile> {
    Seq::new(
        collapse(values).len(),
        |k: int|
            Tile {
                position: position_at(dir, lane, k),
                value: collapse(values)[k] as u32,
                merged_this_move: merge_marks(values)[k],
            },
    )
}

/// In a run, a tile is at least as far along the lane as it is in the run.
proof fn lemma_run_rises(dir: Direction, tiles: Seq<Tile>, i: int)
    requires
        is_lane_run(dir, tiles),
        0 <= i < tiles.len(),
    ensures
        dir.coord_of(tiles[i].cell()) >= i,
    decreases i,
{
    assert(in_bounds(tiles[i].cell()));
    if i > 0 {
        lemma_run_rises(dir, tiles, i - 1);
        assert(dir.coord_of(tiles[i - 1].cell()) < dir.coord_of(tiles[i].cell()));
    }
}

/// A run has at most as many tiles as a lane has cells.
pub(crate) proof fn lemma_run_fits(dir: Direction, tiles: Seq<Tile>)
    requires
        is_lane_run(dir, tiles),
    ensures
        tiles.len() <= dir.lane_len(),
{
    if tiles.len() > 0 {
        let last = tiles.len() - 1;
        lemma_run_rises(dir, tiles, last);
        assert(in_bounds(tiles[last].cell()));
    }
}

/// For each tile, whether it is marked as merged.
pub open spec fn tile_marks(tiles: Seq<Tile>) -> Seq<bool> {
    Seq::new(tiles.len(), |i: int| tiles[i].merged_this_move)
}

/// Whether the stack of tiles placed so far stands for the first `i` values
/// of the lane `s`: all of it but a last tile that can still merge is the
/// start of the swiped lane, and the rest of the swiped lane is what that
/// last tile and the values from `i` on collapse to.
spec fn stack_matches(s: Seq<int>, i: int, out: Seq<Tile>) -> bool {
    let k = out.len() as int;
    let open = k > 0 && !out[k - 1].merged_this_move;
    let closed = if open {
        k - 1
    } else {
        k
    };
    let pending = if open {
        seq![out[k - 1].value as int]
    } else {
        Seq::empty()
    };
    &&& collapse(s) == tile_values(out).take(closed) + collapse(pending + s.skip(i))
    &&& merge_marks(s) == tile_marks(out).take(closed) + merge_marks(pending + s.skip(i))
}

/// Placing the next tile of the lane on the stack keeps the stack in step
/// with the lane.
proof fn lemma_stack_push(s: Seq<int>, i: int, out: Seq<Tile>, t: Tile)
    requires
        0 <= i < s.len(),
        stack_matches(s, i, out),
        t.value == s[i],
        !t.merged_this_move,
        !(out.len() > 0 && !out.last().merged_this_move && out.last().value == t.value),
    ensures
        stack_matches(s, i + 1, out.push(t)),
{
    let k = out.len() as int;
    let open = k > 0 && !out[k - 1].merged_this_move;
    let next = out.push(t);
    let tail = seq![s[i]] + s.skip(i + 1);
    assert(tail =~= s.skip(i));
    assert(tile_values(next).take(k) =~= tile_values(out));
    assert(tile_marks(next).take(k) =~= tile_marks(out));
    if open {
        let v = out[k - 1].value as int;
        let rest = seq![v] + s.skip(i);
        assert(rest.skip(1) =~= s.skip(i));
        assert(rest[0] != rest[1]);
        assert(collapse(rest) == seq![v] + collapse(tail));
        assert(merge_marks(rest) == seq![false] + merge_marks(tail));
        let head = tile_values(out).take(k - 1);
        let head_marks = tile_marks(out).take(k - 1);
        assert(tile_values(out) =~= head + seq![v]);
        assert(tile_marks(out) =~= head_marks + seq![false]);
        assert(head + (seq![v] + collapse(tail)) =~= (head + seq![v]) + collapse(tail));
        assert(head_marks + (seq![false] + merge_marks(tail)) =~= (head_marks + seq![false])
            + merge_marks(tail));
    } else {
        assert(Seq::<int>::empty() + s.skip(i) =~= s.skip(i));
        assert(tile_values(out).take(k) =~= tile_values(out));
        assert(tile_marks(out).take(k) =~= tile_marks(out));
    }
}

/// Merging the next tile of the lane into the last tile of the stack keeps
/// the stack in step with the lane.
proof fn lemma_stack_merge(s: Seq<int>, i: int, out: Seq<Tile>, t: Tile)
    requires
        0 <= i < s.len(),
        stack_matches(s, i, out),
        out.len() > 0,
        !out.last().merged_this_move,
        out.last().value == s[i],
        t.value == s[i] + 1,
        t.merged_this_move,
    ensures
        stack_matches(s, i + 1, out.update(out.len() - 1, t)),
{
    let k = out.len() as int;
    let v = out[k - 1].value as int;
    let next = out.update(k - 1, t);
    let rest = seq![v] + s.skip(i);
    let tail = s.skip(i + 1);
    assert(rest.skip(2) =~= tail);
    assert(rest[0] == rest[1]);
    assert(collapse(rest) == seq![v + 1] + collapse(tail));
    assert(merge_marks(rest) == seq![true] + merge_marks(tail));
    assert(Seq::<int>::empty() + tail =~= tail);
    let head = tile_values(out).take(k - 1);
    let head_marks = tile_marks(out).take(k - 1);
    assert(tile_values(next).take(k) =~= head + seq![v + 1]);
    assert(tile_marks(next).take(k) =~= head_marks + seq![true]);
    assert(head + (seq![v + 1] + collapse(tail)) =~= (head + seq![v + 1]) + collapse(tail));
    assert(head_marks + (seq![true] + merge_marks(tail)) =~= (head_marks + seq![true])
        + merge_marks(tail));
}

/// When the whole lane is walked, the stack is the swiped lane.
proof fn lemma_stack_done(s: Seq<int>, out: Seq<Tile>)
    requires
        stack_matches(s, s.len() as int, out),
    ensures
        tile_values(out) == collapse(s),
        tile_marks(out) == merge_marks(s),
{
    let k = out.len() as int;
    let open = k > 0 && !out[k - 1].merged_this_move;
    let none = Seq::<int>::empty();
    assert(s.skip(s.len() as int) =~= none);
    assert(collapse(none) =~= none);
    assert(merge_marks(none) =~= Seq::<bool>::empty());
    if open {
        let v = out[k - 1].value as int;
        let rest = seq![v] + s.skip(s.len() as int);
        assert(rest =~= seq![v]);
        assert(rest.skip(1) =~= none);
        assert(collapse(rest) =~= seq![v]);
        assert(merge_marks(rest) =~= seq![false]);
        assert(tile_values(out) =~= tile_values(out).take(k - 1) + seq![v]);
        assert(tile_marks(out) =~= tile_marks(out).take(k - 1) + seq![false]);
    } else {
        assert(none + s.skip(s.len() as int) =~= none);
        assert(tile_values(out).take(k) =~= tile_values(out));
        assert(tile_marks(out).take(k) =~= tile_marks(out));
        assert(tile_values(out) =~= collapse(s));
        assert(tile_marks(out) =~= merge_marks(s));
    }
}

/// Swipes one lane. `v` holds the tiles of the lane by rising coordinate;
/// afterwards it holds the tiles of the swiped lane from the wall outwards,
/// those made by a merge marked as such. The result tells whether any tile
/// moved or merged.
pub fn swipe_range(dir: Direction, v: &mut Vec<Tile>) -> (changed: bool)
    requires
        is_lane_run(dir, old(v)@),
    ensures
        old(v)@.len() == 0 ==> final(v)@ == old(v)@,
        old(v)@.len() > 0 ==> final(v)@ == settled(
            dir,
            dir.lane_of(old(v)@[0].cell()),
            tile_values(toward_wall(dir, old(v)@)),
        ),
        changed <==> final(v)@ != toward_wall(dir, old(v)@),
{
    let n = v.len();
    if n == 0 {
        assert(toward_wall(dir, v@) =~= v@);
        return false;
    }
    let toward_zero = dir.toward_zero();
    let lane = v[0].position.lane(dir);
    let ghost run = v@;
    let ghost w = toward_wall(dir, run);
    let ghost s = tile_values(w);
    let mut out: Vec<Tile> = Vec::new();
    let mut changed = false;
    let ghost mut moved: int = 0;
    let mut i: usize = 0;
    proof {
        assert(in_bounds(run[0].cell()));
        lemma_run_fits(dir, run);
        assert(Seq::<int>::empty() + s.skip(0) =~= s);
        assert(tile_values(out@).take(0) + collapse(s) =~= collapse(s));
        assert(tile_marks(out@).take(0) + merge_marks(s) =~= merge_marks(s));
    }
    while i < n
        invariant
            0 <= i <= n,
            n == run.len(),
            v@ == run,
            is_lane_run(dir, run),
            w == toward_wall(dir, run),
            w.len() == n,
            s == tile_values(w),
            toward_zero == dir.wall_at_zero(),
            lane == dir.lane_of(run[0].cell()),
            lane < dir.lane_count(),
            n <= dir.lane_len(),
            out@.len() <= i,
            stack_matches(s, i as int, out@),
            forall|j: int| 0 <= j < out@.len() ==> out@[j].position == position_at(dir, lane as int, j),
            !changed ==> out@.len() == i && forall|j: int| 0 <= j < i ==> out@[j] == w[j],
            changed ==> out@.len() < i || (0 <= moved < out@.len() && out@[moved] != w[moved]),
        decreases n - i,
    {
        let t = if toward_zero {
            v[i]
        } else {
            v[n - 1 - i]
        };
        proof {
            let at = if toward_zero {
                i as int
            } else {
                n - 1 - i
            };
            assert(t == run[at] && t == w[i as int]);
            assert(in_bounds(run[at].cell()));
            assert(t.value == s[i as int]);
        }
        let k = out.len();
        if k > 0 && !out[k - 1].merged_this_move && out[k - 1].value == t.value {
            let prev = out[k - 1];
            let fused = Tile { position: prev.position, value: prev.value + 1, merged_this_move: true };
            proof {
                lemma_stack_merge(s, i as int, out@, fused);
            }
            out.set(k - 1, fused);
            changed = true;
        } else {
            let position = Position::at(dir, lane, k as u32);
            let placed = Tile { position, value: t.value, merged_this_move: false };
            proof {
                lemma_stack_push(s, i as int, out@, placed);
            }
            if position != t.position {
                changed = true;
                proof {
                    if out@.len() == i {
                        moved = k as int;
                    }
                }
            }
            out.push(placed);
        }
        i += 1;
    }
    proof {
        lemma_stack_done(s, out@);
        lemma_collapse_len(s);
        assert(out@ =~= settled(dir, lane as int, s));
        if !changed {
            assert(out@ =~= w);
        }
    }
    *v = out;
    changed
}

} // verus!
