//! Decks: the model, format rules, legality checking and decklist import and export.
//!
//! Decks are stored by Scryfall `oracle_id`, never by [`crate::CardId`]: a `CardId` is a
//! position in one catalog and shifts on every rebuild, so a deck keyed on it would quietly
//! become a different deck after the next set release.

pub mod deck;
pub mod legality;
pub mod rules;
pub mod stats;
pub mod store;
pub mod text;
