//! Rules engine for a two-player stone-placement game on a square board.
//!
//! Stones of one colour that touch orthogonally form a chain; a chain whose
//! last vacant neighbour is taken is captured and turns into territory of
//! the captor.
//!
//! - `game` holds the board, the chain registries of the two sides and the
//!   placement entry point, `place_stone`.
//! - `rules` is the mathematical model that the contracts are written in.
//! - `laws` states and proves what holds of every position of a game.
//! - `counting` bounds the capture counters.
//! - `board` is a bare occupancy grid without chain bookkeeping.

pub mod board;
pub mod counting;
pub mod game;
pub mod laws;
pub mod rules;
