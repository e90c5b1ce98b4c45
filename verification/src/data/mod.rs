//! The card catalog: the card model, lookups, and search.

pub mod card;
pub mod catalog;
pub mod error;
pub mod search;
