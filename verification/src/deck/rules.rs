//! Deck construction rules, per format.
//!
//! Data rather than code: one struct describes every format, so adding one is a table entry
//! and not a new branch in the legality checker. Ban and restriction lists do **not** live
//! here; they come from each card's legalities in the catalog.

use vstd::prelude::*;

use crate::format::Format;

verus! {

/// How many cards the main deck must hold.
#[derive(Debug, Clone, Copy, PartialEq, Eq, Structural)]
pub enum DeckSize {
    /// Exactly this many, as in Commander.
    Exactly(u32),
    /// This many or more, as in the 60-card formats.
    AtLeast(u32),
}

impl DeckSize {
    pub open spec fn least(self) -> u32 {
        match self {
            DeckSize::Exactly(n) | DeckSize::AtLeast(n) => n,
        }
    }

    pub fn minimum(self) -> (r: u32)
        ensures
            r == self.least(),
    {
        match self {
            DeckSize::Exactly(n) | DeckSize::AtLeast(n) => n,
        }
    }
}

/// Rules for formats played with a commander.
#[derive(Debug, Clone, Copy, PartialEq, Eq, Structural)]
pub struct CommanderRules {
    /// Fewest cards the command zone may hold.
    pub count_min: u32,
    /// Most cards the command zone may hold. Up to two covers partners, and Oathbreaker's
    /// planeswalker plus signature spell.
    pub count_max: u32,
    /// Whether every card must sit inside the commander's color identity.
    pub enforce_color_identity: bool,
    /// Whether the command zone counts towards the deck size: 99 plus a commander is a
    /// 100-card deck.
    pub counts_towards_deck_size: bool,
}

/// Everything needed to check a deck, for one format.
#[derive(Debug, Clone, Copy, PartialEq, Eq, Structural)]
pub struct FormatRules {
    pub format: Format,
    pub deck_size: DeckSize,
    /// Copies of any one card. Basic lands are exempt; the checker knows which cards those are.
    pub max_copies: u32,
    pub max_sideboard: u32,
    pub commander: Option<CommanderRules>,
    /// True when the format's rules here are inferred rather than confirmed against an
    /// official document, so a verdict is not presented as certain.
    pub approximate: bool,
}

/// The sixty-card constructed formats.
pub open spec fn sixty_card(f: Format) -> bool {
    f == Format::Standard || f == Format::Future || f == Format::Historic || f
        == Format::Timeless || f == Format::Pioneer || f == Format::Modern || f == Format::Legacy
        || f == Format::Vintage || f == Format::Pauper || f == Format::Penny || f
        == Format::Alchemy || f == Format::OldSchool || f == Format::Premodern
}

/// The rules of every format.
pub open spec fn rules_of(format: Format) -> FormatRules {
    if sixty_card(format) {
        FormatRules {
            format,
            deck_size: DeckSize::AtLeast(60),
            max_copies: 4,
            max_sideboard: 15,
            commander: None,
            approximate: false,
        }
    } else {
        match format {
            Format::Commander | Format::Duel | Format::PauperCommander | Format::Predh => FormatRules {
                format,
                deck_size: DeckSize::Exactly(100),
                max_copies: 1,
                max_sideboard: 0,
                commander: Some(
                    CommanderRules {
                        count_min: 1,
                        count_max: 2,
                        enforce_color_identity: true,
                        counts_towards_deck_size: true,
                    },
                ),
                approximate: false,
            },
            Format::Brawl => singleton(format, 100, 1, 1, false),
            Format::StandardBrawl => singleton(format, 60, 1, 1, false),
            Format::Gladiator => FormatRules {
                format,
                deck_size: DeckSize::Exactly(100),
                max_copies: 1,
                max_sideboard: 0,
                commander: None,
                approximate: false,
            },
            Format::Oathbreaker => singleton(format, 60, 2, 2, false),
            _ => singleton(format, 100, 1, 1, true),
        }
    }
}

/// A singleton format with a command zone.
pub open spec fn singleton(format: Format, size: u32, min: u32, max: u32, approximate: bool) -> FormatRules {
    FormatRules {
        format,
        deck_size: DeckSize::Exactly(size),
        max_copies: 1,
        max_sideboard: 0,
        commander: Some(
            CommanderRules {
                count_min: min,
                count_max: max,
                enforce_color_identity: true,
                counts_towards_deck_size: true,
            },
        ),
        approximate,
    }
}

fn singleton_rules(format: Format, size: u32, min: u32, max: u32, approximate: bool) -> (r: FormatRules)
    ensures
        r == singleton(format, size, min, max, approximate),
{
    FormatRules {
        format,
        deck_size: DeckSize::Exactly(size),
        max_copies: 1,
        max_sideboard: 0,
        commander: Some(
            CommanderRules {
                count_min: min,
                count_max: max,
                enforce_color_identity: true,
                counts_towards_deck_size: true,
            },
        ),
        approximate,
    }
}

impl FormatRules {
    /// Rules for a format.
    pub fn for_format(format: Format) -> (r: FormatRules)
        ensures
            r == rules_of(format),
    {
        match format {
            Format::Standard | Format::Future | Format::Historic | Format::Timeless
            | Format::Pioneer | Format::Modern | Format::Legacy | Format::Vintage | Format::Pauper
            | Format::Penny | Format::Alchemy | Format::OldSchool | Format::Premodern => FormatRules {
                format,
                deck_size: DeckSize::AtLeast(60),
                max_copies: 4,
                max_sideboard: 15,
                commander: None,
                approximate: false,
            },
            Format::Commander | Format::Duel | Format::PauperCommander | Format::Predh => FormatRules {
                format,
                deck_size: DeckSize::Exactly(100),
                max_copies: 1,
                max_sideboard: 0,
                commander: Some(
                    CommanderRules {
                        count_min: 1,
                        count_max: 2,
                        enforce_color_identity: true,
                        counts_towards_deck_size: true,
                    },
                ),
                approximate: false,
            },
            Format::Brawl => singleton_rules(format, 100, 1, 1, false),
            Format::StandardBrawl => singleton_rules(format, 60, 1, 1, false),
            Format::Gladiator => FormatRules {
                format,
                deck_size: DeckSize::Exactly(100),
                max_copies: 1,
                max_sideboard: 0,
                commander: None,
                approximate: false,
            },
            Format::Oathbreaker => singleton_rules(format, 60, 2, 2, false),
            Format::CompetitiveBrawl | Format::Tlr => singleton_rules(format, 100, 1, 1, true),
        }
    }

    pub fn is_singleton(&self) -> (r: bool)
        ensures
            r == (self.max_copies == 1),
    {
        self.max_copies == 1
    }

    pub fn has_commander(&self) -> (r: bool)
        ensures
            r == (self.commander is Some),
    {
        self.commander.is_some()
    }
}

/// Every format's rules name that format, ask for at least forty cards and allow at least one
/// copy of a card.
pub proof fn law_every_format_has_sane_rules(f: Format)
    ensures
        rules_of(f).format == f,
        rules_of(f).deck_size.least() >= 40,
        rules_of(f).max_copies >= 1,
{
}

/// Only the formats whose construction rules were inferred are flagged approximate.
pub proof fn law_only_unconfirmed_formats_are_approximate(f: Format)
    ensures
        rules_of(f).approximate <==> (f == Format::CompetitiveBrawl || f == Format::Tlr),
{
}

/// A format has a command zone exactly when it is commander-shaped in the catalog's sense,
/// except Gladiator, which is singleton with no commander.
pub proof fn law_command_zone_formats(f: Format)
    ensures
        (rules_of(f).commander is Some) <==> f.commander_shaped(),
        f == Format::Gladiator ==> rules_of(f).max_copies == 1 && rules_of(f).commander is None,
{
}

} // verus!
