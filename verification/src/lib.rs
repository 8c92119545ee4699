//! A sliding-tile merge puzzle on a fixed square grid.
//!
//! Tiles carry the exponent of the number they show. A swipe packs every
//! row or column against one wall and merges neighbouring tiles of equal
//! value, each tile at most once; after a swipe that changed the grid a new
//! tile is spawned in a free cell; the game ends when the grid is full.
//!
//! * [`tile`]: tiles, positions, directions and the geometry of lanes.
//! * [`lane`]: how one lane collapses, and the swipe of one lane.
//! * [`board`]: the grid as a map from cells to values, and the swipe on it.
//! * [`grid`]: the grid engine.
//! * [`spawn`]: free cells and the spawner.
//! * [`session`]: the queue of swipe commands and the tick that resolves them.
//! * [`host`]: keys and colours, for the program around the engine.
//! * [`laws`], [`values`]: what holds of every swipe.
//! * [`runs`]: how the tiles of a grid are cut into lanes.
//! * [`deps`]: the calls into other crates, whose contracts are taken on trust.

pub mod board;
pub mod deps;
pub mod grid;
pub mod host;
pub mod lane;
pub mod laws;
pub mod runs;
pub mod session;
pub mod spawn;
pub mod tile;
pub mod values;
