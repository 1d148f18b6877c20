//! A sliding-tile puzzle solver: spiral goal boards, a configurable
//! heuristic, and a best-first search over the boards that the blank can
//! reach.

pub mod board;
pub mod closed;
pub mod config;
pub mod expand;
pub mod frontier;
pub mod goal;
pub mod heuristic;
pub mod laws;
pub mod path;
pub mod puzzle;
pub mod reach;
pub mod search;
pub mod solve;
pub mod tile;
pub mod validate;
