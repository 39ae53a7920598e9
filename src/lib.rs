//! A turn-based tank battle on a rectangular grid: the board model, the
//! move and combat rules, the round scheduler and a search-based strategy.

pub mod board;
pub mod random;
pub mod strategies;
pub mod game;
