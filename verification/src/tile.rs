//! Tiles, positions, directions and the geometry of lanes.

use vstd::prelude::*;

verus! {

/// Number of columns of the grid.
pub const WIDTH: u32 = 4;

/// Number of rows of the grid.
pub const HEIGHT: u32 = 4;

/// A swipe direction. `Left` and `Down` compact towards coordinate zero,
/// `Right` and `Up` towards the far edge.
#[derive(Clone, Copy, Debug, PartialEq, Eq, Structural)]
pub enum Direction {
    Up,
    Down,
    Left,
    Right,
}

/// A cell of the grid, column first.
#[derive(Clone, Copy, Debug, PartialEq, Eq, Structural)]
pub struct Position {
    pub x: u32,
    pub y: u32,
}

/// A numbered tile. `value` is the exponent of the number shown.
#[derive(Clone, Copy, Debug, PartialEq, Eq, Structural)]
pub struct Tile {
    pub position: Position,
    pub value: u32,
    pub merged_this_move: bool,
}

/// What a swipe did to the grid.
#[derive(Clone, Copy, Debug, PartialEq, Eq, Structural)]
pub struct SwipeResult {
    pub changed: bool,
}

impl View for Position {
    type V = (int, int);

    /// The cell as a pair of coordinates, column first.
    open spec fn view(&self) -> (int, int) {
        (self.x as int, self.y as int)
    }
}

/// Whether a cell lies on the grid.
pub open spec fn in_bounds(c: (int, int)) -> bool {
    0 <= c.0 < WIDTH && 0 <= c.1 < HEIGHT
}

impl Direction {
    /// Lanes are rows for `Left` and `Right`, columns for `Up` and `Down`.
    pub open spec fn is_horizontal(self) -> bool {
        self == Direction::Left || self == Direction::Right
    }

    /// Whether the target wall is the one at coordinate zero.
    pub open spec fn wall_at_zero(self) -> bool {
        self == Direction::Left || self == Direction::Down
    }

    /// Number of cells in one lane.
    pub open spec fn lane_len(self) -> int {
        if self.is_horizontal() {
            WIDTH as int
        } else {
            HEIGHT as int
        }
    }

    /// Number of lanes.
    pub open spec fn lane_count(self) -> int {
        if self.is_horizontal() {
            HEIGHT as int
        } else {
            WIDTH as int
        }
    }

    /// The lane a cell belongs to: its row for horizontal swipes, its column
    /// for vertical ones.
    pub open spec fn lane_of(self, c: (int, int)) -> int {
        if self.is_horizontal() {
            c.1
        } else {
            c.0
        }
    }

    /// The coordinate of a cell along its lane.
    pub open spec fn coord_of(self, c: (int, int)) -> int {
        if self.is_horizontal() {
            c.0
        } else {
            c.1
        }
    }

    /// How many steps a cell is away from the target wall.
    pub open spec fn depth_of(self, c: (int, int)) -> int {
        if self.wall_at_zero() {
            self.coord_of(c)
        } else {
            self.lane_len() - 1 - self.coord_of(c)
        }
    }

    /// The cell of `lane` that is `depth` steps away from the target wall.
    pub open spec fn cell_at(self, lane: int, depth: int) -> (int, int) {
        let coord = if self.wall_at_zero() {
            depth
        } else {
            self.lane_len() - 1 - depth
        };
        if self.is_horizontal() {
            (coord, lane)
        } else {
            (lane, coord)
        }
    }

    /// Whether lanes are rows.
    pub fn horizontal(self) -> (b: bool)
        ensures
            b == self.is_horizontal(),
    {
        match self {
            Direction::Left | Direction::Right => true,
            Direction::Up | Direction::Down => false,
        }
    }

    /// Whether the target wall is the one at coordinate zero.
    pub fn toward_zero(self) -> (b: bool)
        ensures
            b == self.wall_at_zero(),
    {
        match self {
            Direction::Left | Direction::Down => true,
            Direction::Up | Direction::Right => false,
        }
    }

    /// Number of cells in one lane.
    pub fn lane_length(self) -> (n: u32)
        ensures
            n == self.lane_len(),
    {
        if self.horizontal() {
            WIDTH
        } else {
            HEIGHT
        }
    }
}

/// The position of the cell of `lane` that is `depth` steps away from the
/// target wall.
pub open spec fn position_at(dir: Direction, lane: int, depth: int) -> Position {
    let c = dir.cell_at(lane, depth);
    Position { x: c.0 as u32, y: c.1 as u32 }
}

/// The values of a sequence of tiles, in the same order.
pub open spec fn tile_values(tiles: Seq<Tile>) -> Seq<int> {
    Seq::new(tiles.len(), |i: int| tiles[i].value as int)
}

impl Tile {
    /// The cell the tile occupies.
    pub open spec fn cell(self) -> (int, int) {
        self.position@
    }
}

impl Position {
    /// The cell of `lane` that is `depth` steps away from the target wall of
    /// a swipe in direction `dir`.
    pub fn at(dir: Direction, lane: u32, depth: u32) -> (p: Position)
        requires
            lane < dir.lane_count(),
            depth < dir.lane_len(),
        ensures
            p == position_at(dir, lane as int, depth as int),
            p@ == dir.cell_at(lane as int, depth as int),
            in_bounds(p@),
    {
        let coord = if dir.toward_zero() {
            depth
        } else {
            dir.lane_length() - 1 - depth
        };
        if dir.horizontal() {
            Position { x: coord, y: lane }
        } else {
            Position { x: lane, y: coord }
        }
    }

    /// Whether the position lies on the grid.
    pub fn on_grid(&self) -> (b: bool)
        ensures
            b == in_bounds(self@),
    {
        self.x < WIDTH && self.y < HEIGHT
    }

    /// The lane of this position for a swipe in direction `dir`.
    pub fn lane(&self, dir: Direction) -> (lane: u32)
        ensures
            lane == dir.lane_of(self@),
    {
        if dir.horizontal() {
            self.y
        } else {
            self.x
        }
    }

    /// The coordinate of this position along its lane.
    pub fn coord(&self, dir: Direction) -> (coord: u32)
        ensures
            coord == dir.coord_of(self@),
    {
        if dir.horizontal() {
            self.x
        } else {
            self.y
        }
    }
}

} // verus!
