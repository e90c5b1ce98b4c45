//! Combo detection and Commander bracket estimation.
//!
//! The combo data is a snapshot of Commander Spellbook, an unofficial community project. It is
//! an optional artifact: everything here degrades to saying what it could not check rather
//! than assuming a deck is clean.

pub mod bracket;
pub mod combo;
pub mod detect;
