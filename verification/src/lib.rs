//! Rule engine for a sliding-tile merge puzzle.
//!
//! The library owns the grid state, the directional compaction-and-merge
//! algorithm, the score accumulator, and the animation event stream that a
//! renderer consumes. Every executable function carries a contract that pins
//! its behaviour down; the per-line merge model lives in [`line`], the grid
//! and the slide algorithm in [`board`], and the session facade in
//! [`game_service`].

pub mod board;
pub mod direction;
pub mod events;
pub mod game_service;
pub mod line;
mod rng;

pub use board::{Board, Tile};
pub use direction::Direction;
pub use events::MoveEvent;
pub use game_service::GameService;
