//! Rules of Go, verified: legal moves, groups, liberties and captures.
//!
//! Two engines share one set of rules.
//! - A generic engine works on boards of any size through [`board::FlexibleBoard`], with a
//!   queue-based flood fill over any [`flexible_bitmask::FlexibleBitMask`] grid.
//! - A fast engine for the 19x19 board ([`fixed_board::Board`], [`game_state::GameState`])
//!   works on [`bitmask::BitMask`], six packed words with multi-word shifts and a bit-parallel
//!   flood fill.
//!
//! [`laws`] states and proves properties that tie the pieces together, among them that the two
//! flood fills reach the same points.

pub mod bitmask;
pub mod bitmask19;
pub mod bitmask_board;
pub mod bits;
pub mod board;
pub mod coordinate;
pub mod coordinate_set;
pub mod display;
pub mod fixed_board;
pub mod flexible_bitmask;
pub mod game;
pub mod game_state;
pub mod laws;
pub mod parsed_game;
pub mod player;
