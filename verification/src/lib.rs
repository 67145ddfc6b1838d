//! A move/threat-generation engine for an 8x8 two-player board game.
//!
//! The crate has two components, in dependency order:
//!
//! * [`board`] owns a fixed-size grid of tagged cell states, enforces
//!   bounds, exposes reads and writes of single cells, and renders a
//!   textual dump of the whole grid.
//! * [`piece`] is the move generator: given a piece kind, an owning side
//!   and a coordinate, it walks the grid and writes move/hit markers into
//!   a copy of the grid, never mutating the canonical one.
//!
//! [`laws`] states and proves the engine's board-wide guarantees: rays
//! stop at the first blocker, a lone rook on an open board marks exactly
//! fourteen squares, knight move sets have the expected sizes, and a pawn
//! marks at most its single forward square.

pub mod board;
pub mod laws;
pub mod piece;
pub mod render;
