//! What one recorded game holds.
//!
//! Deliberately small. The log is filled in after a game, by someone who would rather be
//! shuffling for the next one, so every field here has to earn the seconds it costs. Anything
//! that can be derived (win rates, matchup tables, the effect of a change) is derived rather
//! than typed in.

use vstd::prelude::*;

use crate::text::{chars_of, string_of};

verus! {

/// How a game ended, from the point of view of the person keeping the log.
#[derive(Debug, Clone, Copy, PartialEq, Eq, Structural)]
pub enum Result_ {
    Win,
    Loss,
    /// A genuine draw, and also the honest answer for a game abandoned on time.
    Draw,
}

impl Result_ {
    pub const ALL: [Result_; 3] = [Result_::Win, Result_::Loss, Result_::Draw];

    /// The word a result is shown as.
    pub open spec fn word(self) -> Seq<char> {
        match self {
            Result_::Win => "Win"@,
            Result_::Loss => "Loss"@,
            Result_::Draw => "Draw"@,
        }
    }

    pub fn label(self) -> (r: &'static str)
        ensures
            r@ == self.word(),
    {
        match self {
            Result_::Win => "Win",
            Result_::Loss => "Loss",
            Result_::Draw => "Draw",
        }
    }
}

/// An opponent, as much as anyone bothers to record.
///
/// A free-text label rather than a deck reference: at a table you know "Jean's Atraxa", not a
/// decklist, and demanding more would mean the log stops being filled in.
#[derive(Debug, Clone, PartialEq, Eq)]
pub struct Opponent {
    /// What the deck was, as you would say it out loud: "Atraxa superfriends", "Burn".
    pub archetype: String,
    /// Whose it was, if that matters to you. Optional, and never required.
    pub player: String,
}

impl Default for Opponent {
    fn default() -> (r: Opponent)
        ensures
            r.archetype@.len() == 0,
            r.player@.len() == 0,
    {
        Opponent { archetype: String::new(), player: String::new() }
    }
}

/// Identifier for a stored game.
#[derive(Debug, Clone, Copy, PartialEq, Eq, PartialOrd, Ord, Hash, Structural)]
pub struct GameId(pub u64);

/// One game, after the fact.
#[derive(Debug, Clone, PartialEq)]
pub struct Game {
    pub id: GameId,
    /// The deck played, as a deck id's inner value. A deck that is later deleted leaves its
    /// games behind, which is the right way round: the games happened.
    pub deck_id: u64,
    /// `YYYY-MM-DD`: what a date input gives, and it sorts correctly as plain text.
    pub played_at: String,
    /// Scryfall format key, so a log can span formats.
    pub format: String,
    pub result: Result_,
    pub opponents: Vec<Opponent>,
    /// Whether you were on the play. Absent when nobody remembered, which is common.
    pub on_the_play: Option<bool>,
    /// Mulligans taken: the single strongest predictor of a loss, and the quantity the
    /// optimizer's simulation estimates, so the two can be compared.
    pub mulligans: Option<u32>,
    /// The turn the game ended on, if anyone counted.
    pub ended_on_turn: Option<u32>,
    pub notes: String,
}

/// A game before it has an id.
#[derive(Debug, Clone, PartialEq)]
pub struct NewGame {
    pub deck_id: u64,
    pub played_at: String,
    pub format: String,
    pub result: Result_,
    pub opponents: Vec<Opponent>,
    pub on_the_play: Option<bool>,
    pub mulligans: Option<u32>,
    pub ended_on_turn: Option<u32>,
    pub notes: String,
}

impl NewGame {
    /// The shortest useful record: a deck, a date, and how it went.
    pub fn new(deck_id: u64, played_at: &str, result: Result_) -> (r: NewGame)
        ensures
            r.deck_id == deck_id,
            r.played_at@ == played_at@,
            r.format@.len() == 0,
            r.result == result,
            r.opponents@.len() == 0,
            r.on_the_play is None,
            r.mulligans is None,
            r.ended_on_turn is None,
            r.notes@.len() == 0,
    {
        NewGame {
            deck_id,
            played_at: string_of(chars_of(played_at).as_slice()),
            format: String::new(),
            result,
            opponents: Vec::new(),
            on_the_play: None,
            mulligans: None,
            ended_on_turn: None,
            notes: String::new(),
        }
    }

    /// Adds an opponent known only by what they played.
    pub fn against(self, archetype: &str) -> (r: NewGame)
        ensures
            r.opponents@.len() == self.opponents@.len() + 1,
            forall|k: int| 0 <= k < self.opponents@.len() ==> r.opponents@[k] == self.opponents@[k],
            r.opponents@.last().archetype@ == archetype@,
            r.opponents@.last().player@.len() == 0,
            r.deck_id == self.deck_id,
            r.played_at == self.played_at,
            r.format == self.format,
            r.result == self.result,
            r.on_the_play == self.on_the_play,
            r.mulligans == self.mulligans,
            r.ended_on_turn == self.ended_on_turn,
            r.notes == self.notes,
    {
        let mut game = self;
        game.opponents.push(Opponent { archetype: string_of(chars_of(archetype).as_slice()), player: String::new() });
        game
    }

    /// The game as stored, under an id.
    pub fn with_id(self, id: GameId) -> (r: Game)
        ensures
            r.id == id,
            r.deck_id == self.deck_id,
            r.played_at == self.played_at,
            r.format == self.format,
            r.result == self.result,
            r.opponents == self.opponents,
            r.on_the_play == self.on_the_play,
            r.mulligans == self.mulligans,
            r.ended_on_turn == self.ended_on_turn,
            r.notes == self.notes,
    {
        Game {
            id,
            deck_id: self.deck_id,
            played_at: self.played_at,
            format: self.format,
            result: self.result,
            opponents: self.opponents,
            on_the_play: self.on_the_play,
            mulligans: self.mulligans,
            ended_on_turn: self.ended_on_turn,
            notes: self.notes,
        }
    }
}

} // verus!
