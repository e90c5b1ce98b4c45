//! Scoring, simulation and search for decks: the parts that count in whole numbers.

pub mod math;
pub mod profile;
pub mod rng;
pub mod score;
pub mod search;
pub mod simulate;
