//! Deck building and collection management for Magic: The Gathering, with its rules,
//! parsers and recognisers stated as contracts and proved.

pub mod text;
pub mod color;
pub mod mana;
pub mod format;
pub mod tag;
pub mod data;
pub mod deck;
pub mod collection;
pub mod combo;
pub mod optimizer;
pub mod journal;
pub mod vision;


use vstd::prelude::*;

verus! {

/// Stable identifier for an oracle card within one catalog: its position in the catalog.
///
/// Only meaningful alongside the catalog that produced it. Distinct printings of the same card
/// share one `CardId`.
#[derive(Debug, Clone, Copy, PartialEq, Eq, PartialOrd, Ord, Hash, Structural)]
pub struct CardId(pub u32);

impl CardId {
    /// The position this id names.
    pub fn index(self) -> (r: usize)
        ensures
            r == self.0,
    {
        self.0 as usize
    }

    /// Renders as `#` and the number.
    pub fn to_string(self) -> (r: String)
        ensures
            r@ == seq!['#'] + text::decimal(self.0 as nat),
    {
        let mut out = String::new();
        text::push_char(&mut out, '#');
        text::push_decimal(&mut out, self.0 as u64);
        out
    }
}

} // verus!
