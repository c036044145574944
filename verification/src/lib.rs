//! Core logic of two terminal grid games: a 4x4 tile-sliding merge game and a
//! single-segment path game on a rectangular map.
//!
//! The merge game's engine works in canonical coordinates: one traversal
//! algorithm serves all four move directions through a coordinate transform.
//! Everything here is pure, bounded computation over fixed-size boards; the
//! host program owns the terminal I/O and feeds intents in.

pub mod grid;
pub mod line;
pub mod session;
pub mod snake;
pub mod spawn;
pub mod tile;
pub mod transform;
