//! What the host around the engine needs beside the grid: which swipe the
//! keys ask for, and which colour a tile is shown in.

use crate::tile::Direction;
use vstd::prelude::*;

verus! {

/// Number of colours tiles are shown in.
pub const PALETTE_SIZE: u32 = 10;

/// The swipe that the keys pressed in one tick ask for: W is up, A left,
/// S down, D right. With several keys pressed the first in this order
/// counts, so a tick yields one swipe at most.
pub open spec fn key_direction(w: bool, a: bool, s: bool, d: bool) -> Option<Direction> {
    if w {
        Some(Direction::Up)
    } else if a {
        Some(Direction::Left)
    } else if s {
        Some(Direction::Down)
    } else if d {
        Some(Direction::Right)
    } else {
        None
    }
}

/// The swipe that the keys pressed in one tick ask for.
pub fn direction_for_keys(w: bool, a: bool, s: bool, d: bool) -> (dir: Option<Direction>)
    ensures
        dir == key_direction(w, a, s, d),
{
    if w {
        Some(Direction::Up)
    } else if a {
        Some(Direction::Left)
    } else if s {
        Some(Direction::Down)
    } else if d {
        Some(Direction::Right)
    } else {
        None
    }
}

/// The colour a tile of the given value is shown in: each value has its
/// own colour up to the last one, which all higher values share.
pub fn colour_slot(value: u32) -> (slot: usize)
    ensures
        slot < PALETTE_SIZE,
        value < PALETTE_SIZE ==> slot == value,
        value >= PALETTE_SIZE ==> slot == PALETTE_SIZE - 1,
{
    if value < PALETTE_SIZE {
        value as usize
    } else {
        (PALETTE_SIZE - 1) as usize
    }
}

} // verus!
