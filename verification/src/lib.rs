//! Decision core for the "Trap the Cat" pursuit game on a staggered
//! hexagonal board of 11 rows by 10 columns.
//!
//! The cat flees toward the board's edge; the player places permanent
//! obstacles to seal every escape route.  This crate holds the verified
//! game logic: grid geometry, the board state, the escape-distance
//! oracle, the cat's per-turn movement policy, the obstacle-placement
//! planner, and the board text codec.  Reading files, prompting a human
//! player and the turn-taking loop live outside the crate.

pub mod geometry;
pub mod tables;
pub mod bits;
pub mod board;
pub mod paths;
pub mod oracle;
pub mod policy;
pub mod planner;
pub mod codec;
pub mod mirror;
