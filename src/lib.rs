//! Rules engine of a grid-based mine-clearing puzzle: the tile map with its
//! mine placement and neighbour counts, and the reveal / flag state machine.

pub mod lemmas;
pub mod engine;
pub mod laws;
pub mod options;
mod random;
pub mod tilemap;

pub use options::{GameOptions, Preset};
pub use engine::{reveal_tile, toggle_flag, FlagOutcome, RevealOutcome};
pub use tilemap::{GridError, GridModel, Layout, Position, Tile, TileMap, TileType};
