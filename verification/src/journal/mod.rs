//! The game log: what one recorded game holds, and what can go wrong keeping it.

pub mod game;
pub mod stats;
pub mod store;
