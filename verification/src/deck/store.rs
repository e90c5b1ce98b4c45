//! What a stored deck is, and what can go wrong storing one. The decks themselves live in an
//! embedded database that the application opens; each is stored as JSON under its id.

use vstd::prelude::*;

use crate::deck::deck::Deck;
use crate::text::{decimal, push_decimal, push_str};

verus! {

/// Identifier of a deck within one database.
#[derive(Debug, Clone, Copy, PartialEq, Eq, PartialOrd, Ord, Hash, Structural)]
pub struct DeckId(pub u64);

impl DeckId {
    /// The id as it is shown: its number.
    pub fn to_string(self) -> (r: String)
        ensures
            r@ == decimal(self.0 as nat),
    {
        let mut out = String::new();
        push_decimal(&mut out, self.0);
        out
    }
}

/// A stored deck: the deck itself plus its identity in the database.
#[derive(Debug, Clone, PartialEq, Eq)]
pub struct StoredDeck {
    pub id: DeckId,
    pub deck: Deck,
}

/// Something went wrong reading or writing a deck.
#[derive(Debug)]
pub enum DeckStoreError {
    /// A failure from the underlying database, flattened to a message: nothing here can act
    /// differently on the many kinds the database distinguishes.
    Database(String),
    Encoding(String),
    NotFound(DeckId),
}

impl DeckStoreError {
    pub open spec fn message(&self) -> Seq<char> {
        match self {
            DeckStoreError::Database(m) => "deck database error: "@ + m@,
            DeckStoreError::Encoding(m) => "could not encode or decode a deck: "@ + m@,
            DeckStoreError::NotFound(id) => "no deck with id "@ + decimal(id.0 as nat),
        }
    }

    pub fn to_string(&self) -> (r: String)
        ensures
            r@ == self.message(),
    {
        let mut out = String::new();
        match self {
            DeckStoreError::Database(m) => {
                push_str(&mut out, "deck database error: ");
                push_str(&mut out, m.as_str());
            },
            DeckStoreError::Encoding(m) => {
                push_str(&mut out, "could not encode or decode a deck: ");
                push_str(&mut out, m.as_str());
            },
            DeckStoreError::NotFound(id) => {
                push_str(&mut out, "no deck with id ");
                push_decimal(&mut out, id.0);
            },
        }
        assert(out@ =~= self.message());
        out
    }
}

} // verus!
