//! Play formats and legality.
//!
//! The set of formats mirrors the keys of Scryfall's `legalities` object, so a card's
//! legality table can be stored as a fixed array indexed by [`Format`] with no lookup.

use vstd::prelude::*;

use crate::text::str_eq;

verus! {

/// A constructed or limited play format.
///
/// This list mirrors the keys of Scryfall's `legalities` object. It drifts as Wizards adds and
/// retires formats, which is why [`Format::from_scryfall_key`] reports unknown keys as `None`
/// rather than guessing.
#[derive(Debug, Clone, Copy, PartialEq, Eq, PartialOrd, Ord, Hash, Structural)]
pub enum Format {
    Standard,
    Future,
    Historic,
    Timeless,
    Gladiator,
    Pioneer,
    Modern,
    Legacy,
    Pauper,
    Vintage,
    Penny,
    Commander,
    Oathbreaker,
    StandardBrawl,
    Brawl,
    CompetitiveBrawl,
    Alchemy,
    PauperCommander,
    Duel,
    OldSchool,
    Premodern,
    Predh,
    /// Scryfall key `tlr`: a singleton, Commander-style format.
    Tlr,
}

/// Number of formats, i.e. the size of a legality table.
pub const FORMAT_COUNT: usize = 23;

impl Format {
    /// Every format. Position matches [`Format::index`].
    pub const ALL: [Format; 23] = [Format::Standard, Format::Future, Format::Historic, Format::Timeless, Format::Gladiator, Format::Pioneer, Format::Modern, Format::Legacy, Format::Pauper, Format::Vintage, Format::Penny, Format::Commander, Format::Oathbreaker, Format::StandardBrawl, Format::Brawl, Format::CompetitiveBrawl, Format::Alchemy, Format::PauperCommander, Format::Duel, Format::OldSchool, Format::Premodern, Format::Predh, Format::Tlr];

    /// Number of formats, i.e. the size of a legality table.
    pub const COUNT: usize = 23;

    /// Position of the format in [`Format::ALL`].
    pub open spec fn position(self) -> nat {
        match self {
            Format::Standard => 0,
            Format::Future => 1,
            Format::Historic => 2,
            Format::Timeless => 3,
            Format::Gladiator => 4,
            Format::Pioneer => 5,
            Format::Modern => 6,
            Format::Legacy => 7,
            Format::Pauper => 8,
            Format::Vintage => 9,
            Format::Penny => 10,
            Format::Commander => 11,
            Format::Oathbreaker => 12,
            Format::StandardBrawl => 13,
            Format::Brawl => 14,
            Format::CompetitiveBrawl => 15,
            Format::Alchemy => 16,
            Format::PauperCommander => 17,
            Format::Duel => 18,
            Format::OldSchool => 19,
            Format::Premodern => 20,
            Format::Predh => 21,
            Format::Tlr => 22,
        }
    }

    /// The key Scryfall uses in its `legalities` object.
    pub open spec fn key(self) -> Seq<char> {
        match self {
            Format::Standard => "standard"@,
            Format::Future => "future"@,
            Format::Historic => "historic"@,
            Format::Timeless => "timeless"@,
            Format::Gladiator => "gladiator"@,
            Format::Pioneer => "pioneer"@,
            Format::Modern => "modern"@,
            Format::Legacy => "legacy"@,
            Format::Pauper => "pauper"@,
            Format::Vintage => "vintage"@,
            Format::Penny => "penny"@,
            Format::Commander => "commander"@,
            Format::Oathbreaker => "oathbreaker"@,
            Format::StandardBrawl => "standardbrawl"@,
            Format::Brawl => "brawl"@,
            Format::CompetitiveBrawl => "competitivebrawl"@,
            Format::Alchemy => "alchemy"@,
            Format::PauperCommander => "paupercommander"@,
            Format::Duel => "duel"@,
            Format::OldSchool => "oldschool"@,
            Format::Premodern => "premodern"@,
            Format::Predh => "predh"@,
            Format::Tlr => "tlr"@,
        }
    }

    /// Human-readable name.
    pub open spec fn name(self) -> Seq<char> {
        match self {
            Format::Standard => "Standard"@,
            Format::Future => "Future Standard"@,
            Format::Historic => "Historic"@,
            Format::Timeless => "Timeless"@,
            Format::Gladiator => "Gladiator"@,
            Format::Pioneer => "Pioneer"@,
            Format::Modern => "Modern"@,
            Format::Legacy => "Legacy"@,
            Format::Pauper => "Pauper"@,
            Format::Vintage => "Vintage"@,
            Format::Penny => "Penny Dreadful"@,
            Format::Commander => "Commander"@,
            Format::Oathbreaker => "Oathbreaker"@,
            Format::StandardBrawl => "Standard Brawl"@,
            Format::Brawl => "Brawl"@,
            Format::CompetitiveBrawl => "Competitive Brawl"@,
            Format::Alchemy => "Alchemy"@,
            Format::PauperCommander => "Pauper Commander"@,
            Format::Duel => "Duel Commander"@,
            Format::OldSchool => "Old School"@,
            Format::Premodern => "Premodern"@,
            Format::Predh => "PreDH"@,
            Format::Tlr => "TLR"@,
        }
    }

    /// Formats built around a commander, which carry a color identity restriction.
    pub open spec fn commander_shaped(self) -> bool {
        self == Format::Commander || self == Format::Oathbreaker || self == Format::Brawl || self == Format::StandardBrawl || self == Format::CompetitiveBrawl || self == Format::PauperCommander || self == Format::Duel || self == Format::Predh || self == Format::Tlr
    }

    /// Whether EDHREC's popularity rank means anything here.
    ///
    /// The rank counts appearances in Commander decks, which is a usable stand-in for quality
    /// only in a Commander-shaped format. Anything reading it as quality must check this first.
    pub fn edhrec_rank_is_meaningful(self) -> (r: bool)
        ensures
            r == self.commander_shaped(),
    {
        matches!(self, Format::Commander | Format::Oathbreaker | Format::Brawl | Format::StandardBrawl | Format::CompetitiveBrawl | Format::PauperCommander | Format::Duel | Format::Predh | Format::Tlr)
    }

    /// Index into a legality array. Matches the position in [`Format::ALL`].
    pub fn index(self) -> (r: usize)
        ensures
            r == self.position(),
            r < FORMAT_COUNT,
    {
        match self {
            Format::Standard => 0,
            Format::Future => 1,
            Format::Historic => 2,
            Format::Timeless => 3,
            Format::Gladiator => 4,
            Format::Pioneer => 5,
            Format::Modern => 6,
            Format::Legacy => 7,
            Format::Pauper => 8,
            Format::Vintage => 9,
            Format::Penny => 10,
            Format::Commander => 11,
            Format::Oathbreaker => 12,
            Format::StandardBrawl => 13,
            Format::Brawl => 14,
            Format::CompetitiveBrawl => 15,
            Format::Alchemy => 16,
            Format::PauperCommander => 17,
            Format::Duel => 18,
            Format::OldSchool => 19,
            Format::Premodern => 20,
            Format::Predh => 21,
            Format::Tlr => 22,
        }
    }

    /// The format at a position of [`Format::ALL`].
    pub fn at(index: usize) -> (r: Format)
        requires
            index < FORMAT_COUNT,
        ensures
            r.position() == index,
    {
        match index {
            0 => Format::Standard,
            1 => Format::Future,
            2 => Format::Historic,
            3 => Format::Timeless,
            4 => Format::Gladiator,
            5 => Format::Pioneer,
            6 => Format::Modern,
            7 => Format::Legacy,
            8 => Format::Pauper,
            9 => Format::Vintage,
            10 => Format::Penny,
            11 => Format::Commander,
            12 => Format::Oathbreaker,
            13 => Format::StandardBrawl,
            14 => Format::Brawl,
            15 => Format::CompetitiveBrawl,
            16 => Format::Alchemy,
            17 => Format::PauperCommander,
            18 => Format::Duel,
            19 => Format::OldSchool,
            20 => Format::Premodern,
            21 => Format::Predh,
            _ => Format::Tlr,
        }
    }

    /// The key Scryfall uses in its `legalities` object.
    pub fn scryfall_key(self) -> (r: &'static str)
        ensures
            r@ == self.key(),
    {
        match self {
            Format::Standard => "standard",
            Format::Future => "future",
            Format::Historic => "historic",
            Format::Timeless => "timeless",
            Format::Gladiator => "gladiator",
            Format::Pioneer => "pioneer",
            Format::Modern => "modern",
            Format::Legacy => "legacy",
            Format::Pauper => "pauper",
            Format::Vintage => "vintage",
            Format::Penny => "penny",
            Format::Commander => "commander",
            Format::Oathbreaker => "oathbreaker",
            Format::StandardBrawl => "standardbrawl",
            Format::Brawl => "brawl",
            Format::CompetitiveBrawl => "competitivebrawl",
            Format::Alchemy => "alchemy",
            Format::PauperCommander => "paupercommander",
            Format::Duel => "duel",
            Format::OldSchool => "oldschool",
            Format::Premodern => "premodern",
            Format::Predh => "predh",
            Format::Tlr => "tlr",
        }
    }

    /// Maps a Scryfall legality key to a format.
    ///
    /// Returns `None` for keys that are not modelled. Callers ingesting Scryfall data should
    /// surface that rather than swallow it: an unmapped key means a whole format's legality is
    /// being discarded.
    pub fn from_scryfall_key(key: &str) -> (r: Option<Format>)
        ensures
            r matches Some(f) ==> f.key() == key@,
            r is None ==> forall|f: Format| f.key() != key@,
    {
        let mut i: usize = 0;
        while i < FORMAT_COUNT
            invariant
                i <= FORMAT_COUNT,
                forall|f: Format| f.position() < i ==> f.key() != key@,
            decreases FORMAT_COUNT - i,
        {
            let f = Format::at(i);
            if str_eq(f.scryfall_key(), key) {
                return Some(f);
            }
            proof {
                assert forall|g: Format| g.position() < i + 1 implies g.key() != key@ by {
                    if g.position() == i {
                        law_position_identifies(g, f);
                    }
                }
            }
            i = i + 1;
        }
        proof {
            assert forall|f: Format| f.key() != key@ by {
                assert(f.position() < 23);
            }
        }
        None
    }

    /// Human-readable name, for display.
    pub fn display_name(self) -> (r: &'static str)
        ensures
            r@ == self.name(),
    {
        match self {
            Format::Standard => "Standard",
            Format::Future => "Future Standard",
            Format::Historic => "Historic",
            Format::Timeless => "Timeless",
            Format::Gladiator => "Gladiator",
            Format::Pioneer => "Pioneer",
            Format::Modern => "Modern",
            Format::Legacy => "Legacy",
            Format::Pauper => "Pauper",
            Format::Vintage => "Vintage",
            Format::Penny => "Penny Dreadful",
            Format::Commander => "Commander",
            Format::Oathbreaker => "Oathbreaker",
            Format::StandardBrawl => "Standard Brawl",
            Format::Brawl => "Brawl",
            Format::CompetitiveBrawl => "Competitive Brawl",
            Format::Alchemy => "Alchemy",
            Format::PauperCommander => "Pauper Commander",
            Format::Duel => "Duel Commander",
            Format::OldSchool => "Old School",
            Format::Premodern => "Premodern",
            Format::Predh => "PreDH",
            Format::Tlr => "TLR",
        }
    }

    /// True for formats built around a commander, which carry a color identity restriction.
    pub fn is_singleton_commander(self) -> (r: bool)
        ensures
            r == self.commander_shaped(),
    {
        matches!(self, Format::Commander | Format::Oathbreaker | Format::Brawl | Format::StandardBrawl | Format::CompetitiveBrawl | Format::PauperCommander | Format::Duel | Format::Predh | Format::Tlr)
    }
}

/// Two formats at the same position are the same format.
pub proof fn law_position_identifies(a: Format, b: Format)
    requires
        a.position() == b.position(),
    ensures
        a == b,
{
}

/// No two formats share a Scryfall key, so a key names at most one format.
pub proof fn law_keys_are_unique(a: Format, b: Format)
    requires
        a.key() == b.key(),
    ensures
        a == b,
{

    reveal_strlit("standard");
    reveal_strlit("future");
    reveal_strlit("historic");
    reveal_strlit("timeless");
    reveal_strlit("gladiator");
    reveal_strlit("pioneer");
    reveal_strlit("modern");
    reveal_strlit("legacy");
    reveal_strlit("pauper");
    reveal_strlit("vintage");
    reveal_strlit("penny");
    reveal_strlit("commander");
    reveal_strlit("oathbreaker");
    reveal_strlit("standardbrawl");
    reveal_strlit("brawl");
    reveal_strlit("competitivebrawl");
    reveal_strlit("alchemy");
    reveal_strlit("paupercommander");
    reveal_strlit("duel");
    reveal_strlit("oldschool");
    reveal_strlit("premodern");
    reveal_strlit("predh");
    reveal_strlit("tlr");
    if a != b {
        assert(a.key().len() != b.key().len() || exists|i: int|
            0 <= i < a.key().len() && a.key()[i] != b.key()[i]) by {
            distinct_keys(a, b);
        }
    }
}

proof fn distinct_keys(a: Format, b: Format)
    requires
        a != b,
    ensures
        a.key() != b.key(),
{

    reveal_strlit("standard");
    reveal_strlit("future");
    reveal_strlit("historic");
    reveal_strlit("timeless");
    reveal_strlit("gladiator");
    reveal_strlit("pioneer");
    reveal_strlit("modern");
    reveal_strlit("legacy");
    reveal_strlit("pauper");
    reveal_strlit("vintage");
    reveal_strlit("penny");
    reveal_strlit("commander");
    reveal_strlit("oathbreaker");
    reveal_strlit("standardbrawl");
    reveal_strlit("brawl");
    reveal_strlit("competitivebrawl");
    reveal_strlit("alchemy");
    reveal_strlit("paupercommander");
    reveal_strlit("duel");
    reveal_strlit("oldschool");
    reveal_strlit("premodern");
    reveal_strlit("predh");
    reveal_strlit("tlr");
    if a.key() == b.key() {
        assert(a.key().len() == b.key().len());

        assert(a.key()[0] == b.key()[0]);
        assert(a.key()[1] == b.key()[1]);
        assert(a.key()[2] == b.key()[2]);
        assert(a.key()[3] == b.key()[3]);
        assert(a.key().len() < 5 || a.key()[4] == b.key()[4]);
        assert(a.key().len() < 9 || a.key()[8] == b.key()[8]);
        assert(a.key().len() < 10 || a.key()[9] == b.key()[9]);
    }
}

/// Looking a format up by its own key finds it: keys round-trip.
pub proof fn law_key_round_trip(f: Format, found: Format)
    requires
        found.key() == f.key(),
    ensures
        found == f,
{
    law_keys_are_unique(found, f);
}

/// How a card stands in a given format.
#[derive(Debug, Clone, Copy, PartialEq, Eq, Hash, Structural)]
pub enum Legality {
    /// Playable without restriction.
    Legal,
    /// Not in the format's card pool at all. The default, so an unknown format key on an
    /// unfamiliar card degrades to "cannot play it" rather than "anything goes".
    NotLegal,
    /// Legal, but limited to a single copy. Vintage only.
    Restricted,
    /// In the pool but banned.
    Banned,
}

impl Legality {
    /// What a Scryfall legality string means.
    pub open spec fn of_value(value: Seq<char>) -> Legality {
        if value == "legal"@ {
            Legality::Legal
        } else if value == "restricted"@ {
            Legality::Restricted
        } else if value == "banned"@ {
            Legality::Banned
        } else {
            Legality::NotLegal
        }
    }

    /// Whether a card may appear in a deck at all.
    pub open spec fn playable(self) -> bool {
        self == Legality::Legal || self == Legality::Restricted
    }

    /// The not-legal default.
    pub fn default_legality() -> (r: Legality)
        ensures
            r == Legality::NotLegal,
    {
        Legality::NotLegal
    }

    /// Reads a Scryfall legality string. Anything unrecognised reads as not legal.
    pub fn from_scryfall_value(value: &str) -> (r: Legality)
        ensures
            r == Legality::of_value(value@),
    {
        if str_eq(value, "legal") {
            Legality::Legal
        } else if str_eq(value, "restricted") {
            Legality::Restricted
        } else if str_eq(value, "banned") {
            Legality::Banned
        } else {
            Legality::NotLegal
        }
    }

    /// Whether the card may appear in a deck at all.
    pub fn is_playable(self) -> (r: bool)
        ensures
            r == self.playable(),
    {
        matches!(self, Legality::Legal | Legality::Restricted)
    }

    /// Maximum copies allowed by legality alone, before format deck rules apply.
    pub fn max_copies(self) -> (r: Option<u8>)
        ensures
            r == (match self {
                Legality::Legal => None::<u8>,
                Legality::Restricted => Some(1u8),
                _ => Some(0u8),
            }),
    {
        match self {
            Legality::Legal => None,
            Legality::Restricted => Some(1),
            Legality::NotLegal | Legality::Banned => Some(0),
        }
    }
}

/// A legality that is not one of the four known strings never reads as playable.
pub proof fn law_unknown_values_are_not_playable(value: Seq<char>)
    requires
        value != "legal"@,
        value != "restricted"@,
    ensures
        !Legality::of_value(value).playable(),
{
}

/// Rarity of a printing.
#[derive(Debug, Clone, Copy, PartialEq, Eq, PartialOrd, Ord, Hash, Structural)]
pub enum Rarity {
    Common,
    Uncommon,
    Rare,
    Mythic,
    Special,
    Bonus,
}

impl Rarity {
    /// What a Scryfall rarity string means; anything unknown is common.
    pub open spec fn of_value(value: Seq<char>) -> Rarity {
        if value == "uncommon"@ {
            Rarity::Uncommon
        } else if value == "rare"@ {
            Rarity::Rare
        } else if value == "mythic"@ {
            Rarity::Mythic
        } else if value == "special"@ {
            Rarity::Special
        } else if value == "bonus"@ {
            Rarity::Bonus
        } else {
            Rarity::Common
        }
    }

    pub fn from_scryfall_value(value: &str) -> (r: Rarity)
        ensures
            r == Rarity::of_value(value@),
    {
        if str_eq(value, "uncommon") {
            Rarity::Uncommon
        } else if str_eq(value, "rare") {
            Rarity::Rare
        } else if str_eq(value, "mythic") {
            Rarity::Mythic
        } else if str_eq(value, "special") {
            Rarity::Special
        } else if str_eq(value, "bonus") {
            Rarity::Bonus
        } else {
            Rarity::Common
        }
    }
}

} // verus!
