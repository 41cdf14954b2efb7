//! A verified engine for a turn-based "sink the fleet" game on a fixed
//! 9 x 9 grid: grid geometry, per-cell occupancy and hit state, fleet
//! placement (manual and randomized), hit resolution with exact progress
//! tracking, and the translation of already-parsed session commands into
//! board operations.

pub mod board;
pub mod cell;
pub mod commands;
pub mod geometry;
mod rng;
pub mod ship;

pub use board::Board;
pub use board::BoardConfig;
pub use board::PlacementError;
pub use cell::Cell;
pub use commands::command_handler;
pub use commands::command_parser;
pub use commands::CommandResult;
pub use commands::GameCommand;
pub use geometry::Direction;
pub use geometry::DirectionName;
pub use geometry::Position;
pub use ship::Ship;
pub use ship::ShipType;
