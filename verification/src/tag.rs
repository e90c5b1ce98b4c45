//! Functional tags: what a card *does*, as opposed to what it costs.
//!
//! Everything the optimizer measures (mana base, curve, opening hands) is blind to a card's
//! effect. A tag is the smallest thing that fixes that: not an understanding of the card, but a
//! claim about its role. The vocabulary is fixed and checked against Scryfall's tagger, and
//! [`Tag::from_scryfall_tag`] refuses names outside it rather than guessing.

use vstd::prelude::*;

use crate::text::str_eq;

verus! {

/// One functional role a card can have.
///
/// The order is **stable**: a tag's position indexes a bit in a [`TagSet`] that is written
/// into the card catalog, so new variants go at the end.
#[derive(Debug, Clone, Copy, PartialEq, Eq, PartialOrd, Ord, Hash, Structural)]
pub enum Tag {
    CardAdvantage,
    Draw,
    Cantrip,
    Scry,
    ImpulseDraw,
    Wheel,
    Tutor,
    Ramp,
    LandRamp,
    ManaRock,
    ManaDork,
    Ritual,
    CostReducer,
    Removal,
    SpotRemoval,
    BoardWipe,
    Counterspell,
    Protection,
    Bounce,
    Discard,
    HandDisruption,
    GraveyardHate,
    CombatTrick,
    Recursion,
    SacrificeOutlet,
    DeathTrigger,
    Blink,
    CheatIntoPlay,
    Lifegain,
    Anthem,
    Mill,
    SelfMill,
    Evasion,
    ExtraTurn,
    ExtraCombat,
}

/// Number of tags in the vocabulary.
pub const TAG_COUNT: usize = 35;

impl Tag {
    /// Every tag, in order.
    pub const ALL: [Tag; 35] = [Tag::CardAdvantage, Tag::Draw, Tag::Cantrip, Tag::Scry, Tag::ImpulseDraw, Tag::Wheel, Tag::Tutor, Tag::Ramp, Tag::LandRamp, Tag::ManaRock, Tag::ManaDork, Tag::Ritual, Tag::CostReducer, Tag::Removal, Tag::SpotRemoval, Tag::BoardWipe, Tag::Counterspell, Tag::Protection, Tag::Bounce, Tag::Discard, Tag::HandDisruption, Tag::GraveyardHate, Tag::CombatTrick, Tag::Recursion, Tag::SacrificeOutlet, Tag::DeathTrigger, Tag::Blink, Tag::CheatIntoPlay, Tag::Lifegain, Tag::Anthem, Tag::Mill, Tag::SelfMill, Tag::Evasion, Tag::ExtraTurn, Tag::ExtraCombat];

    /// Position of the tag in [`Tag::ALL`], which is also its bit in a [`TagSet`].
    pub open spec fn position(self) -> nat {
        match self {
            Tag::CardAdvantage => 0,
            Tag::Draw => 1,
            Tag::Cantrip => 2,
            Tag::Scry => 3,
            Tag::ImpulseDraw => 4,
            Tag::Wheel => 5,
            Tag::Tutor => 6,
            Tag::Ramp => 7,
            Tag::LandRamp => 8,
            Tag::ManaRock => 9,
            Tag::ManaDork => 10,
            Tag::Ritual => 11,
            Tag::CostReducer => 12,
            Tag::Removal => 13,
            Tag::SpotRemoval => 14,
            Tag::BoardWipe => 15,
            Tag::Counterspell => 16,
            Tag::Protection => 17,
            Tag::Bounce => 18,
            Tag::Discard => 19,
            Tag::HandDisruption => 20,
            Tag::GraveyardHate => 21,
            Tag::CombatTrick => 22,
            Tag::Recursion => 23,
            Tag::SacrificeOutlet => 24,
            Tag::DeathTrigger => 25,
            Tag::Blink => 26,
            Tag::CheatIntoPlay => 27,
            Tag::Lifegain => 28,
            Tag::Anthem => 29,
            Tag::Mill => 30,
            Tag::SelfMill => 31,
            Tag::Evasion => 32,
            Tag::ExtraTurn => 33,
            Tag::ExtraCombat => 34,
        }
    }

    /// The name Scryfall's tagger uses.
    pub open spec fn tagger_name(self) -> Seq<char> {
        match self {
            Tag::CardAdvantage => "card-advantage"@,
            Tag::Draw => "draw"@,
            Tag::Cantrip => "cantrip"@,
            Tag::Scry => "scry"@,
            Tag::ImpulseDraw => "impulse-draw"@,
            Tag::Wheel => "wheel"@,
            Tag::Tutor => "tutor"@,
            Tag::Ramp => "ramp"@,
            Tag::LandRamp => "land-ramp"@,
            Tag::ManaRock => "mana-rock"@,
            Tag::ManaDork => "mana-dork"@,
            Tag::Ritual => "ritual"@,
            Tag::CostReducer => "cost-reducer"@,
            Tag::Removal => "removal"@,
            Tag::SpotRemoval => "spot-removal"@,
            Tag::BoardWipe => "board-wipe"@,
            Tag::Counterspell => "counterspell"@,
            Tag::Protection => "protection"@,
            Tag::Bounce => "bounce"@,
            Tag::Discard => "discard"@,
            Tag::HandDisruption => "hand-disruption"@,
            Tag::GraveyardHate => "graveyard-hate"@,
            Tag::CombatTrick => "combat-trick"@,
            Tag::Recursion => "recursion"@,
            Tag::SacrificeOutlet => "sacrifice-outlet"@,
            Tag::DeathTrigger => "death-trigger"@,
            Tag::Blink => "blink"@,
            Tag::CheatIntoPlay => "cheat-into-play"@,
            Tag::Lifegain => "lifegain"@,
            Tag::Anthem => "anthem"@,
            Tag::Mill => "mill"@,
            Tag::SelfMill => "self-mill"@,
            Tag::Evasion => "evasion"@,
            Tag::ExtraTurn => "extra-turn"@,
            Tag::ExtraCombat => "extra-combat"@,
        }
    }

    /// A label for a person to read.
    pub open spec fn caption(self) -> Seq<char> {
        match self {
            Tag::CardAdvantage => "Card advantage"@,
            Tag::Draw => "Draw"@,
            Tag::Cantrip => "Cantrip"@,
            Tag::Scry => "Scry"@,
            Tag::ImpulseDraw => "Impulse draw"@,
            Tag::Wheel => "Wheel"@,
            Tag::Tutor => "Tutor"@,
            Tag::Ramp => "Ramp"@,
            Tag::LandRamp => "Land ramp"@,
            Tag::ManaRock => "Mana rock"@,
            Tag::ManaDork => "Mana dork"@,
            Tag::Ritual => "Ritual"@,
            Tag::CostReducer => "Cost reducer"@,
            Tag::Removal => "Removal"@,
            Tag::SpotRemoval => "Spot removal"@,
            Tag::BoardWipe => "Board wipe"@,
            Tag::Counterspell => "Counterspell"@,
            Tag::Protection => "Protection"@,
            Tag::Bounce => "Bounce"@,
            Tag::Discard => "Discard"@,
            Tag::HandDisruption => "Hand disruption"@,
            Tag::GraveyardHate => "Graveyard hate"@,
            Tag::CombatTrick => "Combat trick"@,
            Tag::Recursion => "Recursion"@,
            Tag::SacrificeOutlet => "Sacrifice outlet"@,
            Tag::DeathTrigger => "Death trigger"@,
            Tag::Blink => "Blink"@,
            Tag::CheatIntoPlay => "Cheat into play"@,
            Tag::Lifegain => "Lifegain"@,
            Tag::Anthem => "Anthem"@,
            Tag::Mill => "Mill"@,
            Tag::SelfMill => "Self-mill"@,
            Tag::Evasion => "Evasion"@,
            Tag::ExtraTurn => "Extra turn"@,
            Tag::ExtraCombat => "Extra combat"@,
        }
    }

    /// Position of the tag, as a number.
    pub fn index(self) -> (r: u8)
        ensures
            r == self.position(),
            r < TAG_COUNT,
    {
        match self {
            Tag::CardAdvantage => 0,
            Tag::Draw => 1,
            Tag::Cantrip => 2,
            Tag::Scry => 3,
            Tag::ImpulseDraw => 4,
            Tag::Wheel => 5,
            Tag::Tutor => 6,
            Tag::Ramp => 7,
            Tag::LandRamp => 8,
            Tag::ManaRock => 9,
            Tag::ManaDork => 10,
            Tag::Ritual => 11,
            Tag::CostReducer => 12,
            Tag::Removal => 13,
            Tag::SpotRemoval => 14,
            Tag::BoardWipe => 15,
            Tag::Counterspell => 16,
            Tag::Protection => 17,
            Tag::Bounce => 18,
            Tag::Discard => 19,
            Tag::HandDisruption => 20,
            Tag::GraveyardHate => 21,
            Tag::CombatTrick => 22,
            Tag::Recursion => 23,
            Tag::SacrificeOutlet => 24,
            Tag::DeathTrigger => 25,
            Tag::Blink => 26,
            Tag::CheatIntoPlay => 27,
            Tag::Lifegain => 28,
            Tag::Anthem => 29,
            Tag::Mill => 30,
            Tag::SelfMill => 31,
            Tag::Evasion => 32,
            Tag::ExtraTurn => 33,
            Tag::ExtraCombat => 34,
        }
    }

    /// The tag at a position of [`Tag::ALL`].
    pub fn at(index: usize) -> (r: Tag)
        requires
            index < TAG_COUNT,
        ensures
            r.position() == index,
    {
        match index {
            0 => Tag::CardAdvantage,
            1 => Tag::Draw,
            2 => Tag::Cantrip,
            3 => Tag::Scry,
            4 => Tag::ImpulseDraw,
            5 => Tag::Wheel,
            6 => Tag::Tutor,
            7 => Tag::Ramp,
            8 => Tag::LandRamp,
            9 => Tag::ManaRock,
            10 => Tag::ManaDork,
            11 => Tag::Ritual,
            12 => Tag::CostReducer,
            13 => Tag::Removal,
            14 => Tag::SpotRemoval,
            15 => Tag::BoardWipe,
            16 => Tag::Counterspell,
            17 => Tag::Protection,
            18 => Tag::Bounce,
            19 => Tag::Discard,
            20 => Tag::HandDisruption,
            21 => Tag::GraveyardHate,
            22 => Tag::CombatTrick,
            23 => Tag::Recursion,
            24 => Tag::SacrificeOutlet,
            25 => Tag::DeathTrigger,
            26 => Tag::Blink,
            27 => Tag::CheatIntoPlay,
            28 => Tag::Lifegain,
            29 => Tag::Anthem,
            30 => Tag::Mill,
            31 => Tag::SelfMill,
            32 => Tag::Evasion,
            33 => Tag::ExtraTurn,
            _ => Tag::ExtraCombat,
        }
    }

    /// The name Scryfall's tagger uses, which is also what the artifact builder queries.
    pub fn scryfall_tag(self) -> (r: &'static str)
        ensures
            r@ == self.tagger_name(),
    {
        match self {
            Tag::CardAdvantage => "card-advantage",
            Tag::Draw => "draw",
            Tag::Cantrip => "cantrip",
            Tag::Scry => "scry",
            Tag::ImpulseDraw => "impulse-draw",
            Tag::Wheel => "wheel",
            Tag::Tutor => "tutor",
            Tag::Ramp => "ramp",
            Tag::LandRamp => "land-ramp",
            Tag::ManaRock => "mana-rock",
            Tag::ManaDork => "mana-dork",
            Tag::Ritual => "ritual",
            Tag::CostReducer => "cost-reducer",
            Tag::Removal => "removal",
            Tag::SpotRemoval => "spot-removal",
            Tag::BoardWipe => "board-wipe",
            Tag::Counterspell => "counterspell",
            Tag::Protection => "protection",
            Tag::Bounce => "bounce",
            Tag::Discard => "discard",
            Tag::HandDisruption => "hand-disruption",
            Tag::GraveyardHate => "graveyard-hate",
            Tag::CombatTrick => "combat-trick",
            Tag::Recursion => "recursion",
            Tag::SacrificeOutlet => "sacrifice-outlet",
            Tag::DeathTrigger => "death-trigger",
            Tag::Blink => "blink",
            Tag::CheatIntoPlay => "cheat-into-play",
            Tag::Lifegain => "lifegain",
            Tag::Anthem => "anthem",
            Tag::Mill => "mill",
            Tag::SelfMill => "self-mill",
            Tag::Evasion => "evasion",
            Tag::ExtraTurn => "extra-turn",
            Tag::ExtraCombat => "extra-combat",
        }
    }

    /// A label for a person to read.
    pub fn label(self) -> (r: &'static str)
        ensures
            r@ == self.caption(),
    {
        match self {
            Tag::CardAdvantage => "Card advantage",
            Tag::Draw => "Draw",
            Tag::Cantrip => "Cantrip",
            Tag::Scry => "Scry",
            Tag::ImpulseDraw => "Impulse draw",
            Tag::Wheel => "Wheel",
            Tag::Tutor => "Tutor",
            Tag::Ramp => "Ramp",
            Tag::LandRamp => "Land ramp",
            Tag::ManaRock => "Mana rock",
            Tag::ManaDork => "Mana dork",
            Tag::Ritual => "Ritual",
            Tag::CostReducer => "Cost reducer",
            Tag::Removal => "Removal",
            Tag::SpotRemoval => "Spot removal",
            Tag::BoardWipe => "Board wipe",
            Tag::Counterspell => "Counterspell",
            Tag::Protection => "Protection",
            Tag::Bounce => "Bounce",
            Tag::Discard => "Discard",
            Tag::HandDisruption => "Hand disruption",
            Tag::GraveyardHate => "Graveyard hate",
            Tag::CombatTrick => "Combat trick",
            Tag::Recursion => "Recursion",
            Tag::SacrificeOutlet => "Sacrifice outlet",
            Tag::DeathTrigger => "Death trigger",
            Tag::Blink => "Blink",
            Tag::CheatIntoPlay => "Cheat into play",
            Tag::Lifegain => "Lifegain",
            Tag::Anthem => "Anthem",
            Tag::Mill => "Mill",
            Tag::SelfMill => "Self-mill",
            Tag::Evasion => "Evasion",
            Tag::ExtraTurn => "Extra turn",
            Tag::ExtraCombat => "Extra combat",
        }
    }

    /// Parses a Scryfall tag name, or reports that the vocabulary has drifted.
    ///
    /// Returning `None` rather than guessing is deliberate: a tag that quietly stops matching
    /// would remove a whole role from every deck's analysis with nothing to explain it.
    pub fn from_scryfall_tag(name: &str) -> (r: Option<Tag>)
        ensures
            r matches Some(t) ==> t.tagger_name() == name@,
            r is None ==> forall|t: Tag| t.tagger_name() != name@,
    {
        let mut i: usize = 0;
        while i < TAG_COUNT
            invariant
                i <= TAG_COUNT,
                forall|t: Tag| t.position() < i ==> t.tagger_name() != name@,
            decreases TAG_COUNT - i,
        {
            let t = Tag::at(i);
            if str_eq(t.scryfall_tag(), name) {
                return Some(t);
            }
            proof {
                assert forall|u: Tag| u.position() < i + 1 implies u.tagger_name() != name@ by {
                    if u.position() == i {
                        law_tag_position_identifies(u, t);
                    }
                }
            }
            i = i + 1;
        }
        proof {
            assert forall|t: Tag| t.tagger_name() != name@ by {
                assert(t.position() < TAG_COUNT);
            }
        }
        None
    }

    /// The bit this tag occupies in a [`TagSet`].
    pub fn bit(self) -> (r: u64)
        ensures
            r == 1u64 << (self.position() as u64),
    {
        1u64 << (self.index() as u64)
    }
}

/// Two tags at the same position are the same tag.
pub proof fn law_tag_position_identifies(a: Tag, b: Tag)
    requires
        a.position() == b.position(),
    ensures
        a == b,
{
}

/// A few characters of a tag's name that already tell every tag apart.
spec fn signature(t: Tag) -> (nat, char, char) {
    match t {
        Tag::CardAdvantage => (14, 'c', 'a'),
        Tag::Draw => (4, 'd', ' '),
        Tag::Cantrip => (7, 'c', 'i'),
        Tag::Scry => (4, 's', ' '),
        Tag::ImpulseDraw => (12, 'i', 's'),
        Tag::Wheel => (5, 'w', ' '),
        Tag::Tutor => (5, 't', ' '),
        Tag::Ramp => (4, 'r', ' '),
        Tag::LandRamp => (9, 'l', 'r'),
        Tag::ManaRock => (9, 'm', 'r'),
        Tag::ManaDork => (9, 'm', 'd'),
        Tag::Ritual => (6, 'r', 'l'),
        Tag::CostReducer => (12, 'c', 'r'),
        Tag::Removal => (7, 'r', 'a'),
        Tag::SpotRemoval => (12, 's', 'r'),
        Tag::BoardWipe => (10, 'b', '-'),
        Tag::Counterspell => (12, 'c', 'e'),
        Tag::Protection => (10, 'p', 'c'),
        Tag::Bounce => (6, 'b', 'e'),
        Tag::Discard => (7, 'd', 'r'),
        Tag::HandDisruption => (15, 'h', 'd'),
        Tag::GraveyardHate => (14, 'g', 'y'),
        Tag::CombatTrick => (12, 'c', 't'),
        Tag::Recursion => (9, 'r', 's'),
        Tag::SacrificeOutlet => (16, 's', 'f'),
        Tag::DeathTrigger => (13, 'd', '-'),
        Tag::Blink => (5, 'b', ' '),
        Tag::CheatIntoPlay => (15, 'c', '-'),
        Tag::Lifegain => (8, 'l', 'a'),
        Tag::Anthem => (6, 'a', 'm'),
        Tag::Mill => (4, 'm', ' '),
        Tag::SelfMill => (9, 's', 'm'),
        Tag::Evasion => (7, 'e', 'o'),
        Tag::ExtraTurn => (10, 'e', '-'),
        Tag::ExtraCombat => (12, 'e', '-'),
    }
}

/// The tag a signature belongs to.
spec fn from_signature(s: (nat, char, char)) -> Tag {
    if s == (14nat, 'c', 'a') {
        Tag::CardAdvantage
    } else if s == (4nat, 'd', ' ') {
        Tag::Draw
    } else if s == (7nat, 'c', 'i') {
        Tag::Cantrip
    } else if s == (4nat, 's', ' ') {
        Tag::Scry
    } else if s == (12nat, 'i', 's') {
        Tag::ImpulseDraw
    } else if s == (5nat, 'w', ' ') {
        Tag::Wheel
    } else if s == (5nat, 't', ' ') {
        Tag::Tutor
    } else if s == (4nat, 'r', ' ') {
        Tag::Ramp
    } else if s == (9nat, 'l', 'r') {
        Tag::LandRamp
    } else if s == (9nat, 'm', 'r') {
        Tag::ManaRock
    } else if s == (9nat, 'm', 'd') {
        Tag::ManaDork
    } else if s == (6nat, 'r', 'l') {
        Tag::Ritual
    } else if s == (12nat, 'c', 'r') {
        Tag::CostReducer
    } else if s == (7nat, 'r', 'a') {
        Tag::Removal
    } else if s == (12nat, 's', 'r') {
        Tag::SpotRemoval
    } else if s == (10nat, 'b', '-') {
        Tag::BoardWipe
    } else if s == (12nat, 'c', 'e') {
        Tag::Counterspell
    } else if s == (10nat, 'p', 'c') {
        Tag::Protection
    } else if s == (6nat, 'b', 'e') {
        Tag::Bounce
    } else if s == (7nat, 'd', 'r') {
        Tag::Discard
    } else if s == (15nat, 'h', 'd') {
        Tag::HandDisruption
    } else if s == (14nat, 'g', 'y') {
        Tag::GraveyardHate
    } else if s == (12nat, 'c', 't') {
        Tag::CombatTrick
    } else if s == (9nat, 'r', 's') {
        Tag::Recursion
    } else if s == (16nat, 's', 'f') {
        Tag::SacrificeOutlet
    } else if s == (13nat, 'd', '-') {
        Tag::DeathTrigger
    } else if s == (5nat, 'b', ' ') {
        Tag::Blink
    } else if s == (15nat, 'c', '-') {
        Tag::CheatIntoPlay
    } else if s == (8nat, 'l', 'a') {
        Tag::Lifegain
    } else if s == (6nat, 'a', 'm') {
        Tag::Anthem
    } else if s == (4nat, 'm', ' ') {
        Tag::Mill
    } else if s == (9nat, 's', 'm') {
        Tag::SelfMill
    } else if s == (7nat, 'e', 'o') {
        Tag::Evasion
    } else if s == (10nat, 'e', '-') {
        Tag::ExtraTurn
    } else {
        Tag::ExtraCombat
    }
}

proof fn lemma_signature(t: Tag)
    ensures
        from_signature(signature(t)) == t,
        t.tagger_name().len() == signature(t).0,
        t.tagger_name()[0] == signature(t).1,
        t.tagger_name().len() > 5 ==> t.tagger_name()[5] == signature(t).2,
        t.tagger_name().len() <= 5 ==> signature(t).2 == ' ',
{
    match t {
        Tag::CardAdvantage => {
            reveal_strlit("card-advantage");
        },
        Tag::Draw => {
            reveal_strlit("draw");
        },
        Tag::Cantrip => {
            reveal_strlit("cantrip");
        },
        Tag::Scry => {
            reveal_strlit("scry");
        },
        Tag::ImpulseDraw => {
            reveal_strlit("impulse-draw");
        },
        Tag::Wheel => {
            reveal_strlit("wheel");
        },
        Tag::Tutor => {
            reveal_strlit("tutor");
        },
        Tag::Ramp => {
            reveal_strlit("ramp");
        },
        Tag::LandRamp => {
            reveal_strlit("land-ramp");
        },
        Tag::ManaRock => {
            reveal_strlit("mana-rock");
        },
        Tag::ManaDork => {
            reveal_strlit("mana-dork");
        },
        Tag::Ritual => {
            reveal_strlit("ritual");
        },
        Tag::CostReducer => {
            reveal_strlit("cost-reducer");
        },
        Tag::Removal => {
            reveal_strlit("removal");
        },
        Tag::SpotRemoval => {
            reveal_strlit("spot-removal");
        },
        Tag::BoardWipe => {
            reveal_strlit("board-wipe");
        },
        Tag::Counterspell => {
            reveal_strlit("counterspell");
        },
        Tag::Protection => {
            reveal_strlit("protection");
        },
        Tag::Bounce => {
            reveal_strlit("bounce");
        },
        Tag::Discard => {
            reveal_strlit("discard");
        },
        Tag::HandDisruption => {
            reveal_strlit("hand-disruption");
        },
        Tag::GraveyardHate => {
            reveal_strlit("graveyard-hate");
        },
        Tag::CombatTrick => {
            reveal_strlit("combat-trick");
        },
        Tag::Recursion => {
            reveal_strlit("recursion");
        },
        Tag::SacrificeOutlet => {
            reveal_strlit("sacrifice-outlet");
        },
        Tag::DeathTrigger => {
            reveal_strlit("death-trigger");
        },
        Tag::Blink => {
            reveal_strlit("blink");
        },
        Tag::CheatIntoPlay => {
            reveal_strlit("cheat-into-play");
        },
        Tag::Lifegain => {
            reveal_strlit("lifegain");
        },
        Tag::Anthem => {
            reveal_strlit("anthem");
        },
        Tag::Mill => {
            reveal_strlit("mill");
        },
        Tag::SelfMill => {
            reveal_strlit("self-mill");
        },
        Tag::Evasion => {
            reveal_strlit("evasion");
        },
        Tag::ExtraTurn => {
            reveal_strlit("extra-turn");
        },
        Tag::ExtraCombat => {
            reveal_strlit("extra-combat");
        },
    }
}

/// No two tags share a tagger name, so a name names at most one tag.
pub proof fn law_tag_names_are_unique(a: Tag, b: Tag)
    requires
        a.tagger_name() == b.tagger_name(),
    ensures
        a == b,
{
    lemma_signature(a);
    lemma_signature(b);
    assert(signature(a) == signature(b));
}

/// True when bit `i` of `bits` is set.
pub open spec fn bit64(bits: u64, i: u64) -> bool {
    bits & (1u64 << i) != 0
}

/// Number of set bits among the lowest `n`.
pub open spec fn ones(bits: u64, n: nat) -> nat
    decreases n,
{
    if n == 0 {
        0
    } else {
        ones(bits, (n - 1) as nat) + (if bit64(bits, (n - 1) as u64) {
            1nat
        } else {
            0nat
        })
    }
}

proof fn word_ops(a: u64, b: u64, i: u64, j: u64)
    by (bit_vector)
    requires
        i < 64,
        j < 64,
    ensures
        bit64(a | b, i) == (bit64(a, i) || bit64(b, i)),
        bit64(a & b, i) == (bit64(a, i) && bit64(b, i)),
        bit64(a | (1u64 << i), i),
        i != j ==> bit64(a | (1u64 << i), j) == bit64(a, j),
        !bit64(0u64, i),
        (1u64 << i) != 0,
        a & (1u64 << i) == 0 || a & (1u64 << i) == (1u64 << i),
{
}

/// The roles one card has, as a bitset.
#[derive(Debug, Clone, Copy, Default, PartialEq, Eq, Hash, Structural)]
pub struct TagSet(u64);

impl TagSet {
    /// The raw bits.
    pub closed spec fn raw(self) -> u64 {
        self.0
    }

    /// True when the set holds `t`.
    pub open spec fn has(self, t: Tag) -> bool {
        bit64(self.raw(), t.position() as u64)
    }

    /// The empty set.
    pub fn none() -> (r: TagSet)
        ensures
            r.raw() == 0,
            forall|t: Tag| !r.has(t),
    {
        let r = TagSet(0);
        assert forall|t: Tag| !r.has(t) by {
            word_ops(0, 0, t.position() as u64, 0);
        }
        r
    }

    pub fn from_bits(bits: u64) -> (r: TagSet)
        ensures
            r.raw() == bits,
    {
        TagSet(bits)
    }

    pub fn bits(self) -> (r: u64)
        ensures
            r == self.raw(),
    {
        self.0
    }

    /// Adds a tag.
    pub fn insert(&mut self, tag: Tag)
        ensures
            final(self).raw() == old(self).raw() | (1u64 << (tag.position() as u64)),
            final(self).has(tag),
            forall|t: Tag| t != tag ==> final(self).has(t) == old(self).has(t),
    {
        let ghost a = self.0;
        let i = tag.index();
        self.0 = self.0 | tag.bit();
        proof {
            word_ops(a, a, i as u64, 0);
            assert forall|t: Tag| t != tag implies bit64(a | (1u64 << (i as u64)), t.position() as u64)
                == bit64(a, t.position() as u64) by {
                word_ops(a, a, i as u64, t.position() as u64);
            }
        }
    }

    pub fn contains(self, tag: Tag) -> (r: bool)
        ensures
            r == self.has(tag),
    {
        self.0 & tag.bit() != 0
    }

    /// True when no bit at all is set.
    pub fn is_empty(self) -> (r: bool)
        ensures
            r == (self.raw() == 0),
    {
        self.0 == 0
    }

    /// Number of bits set.
    pub fn len(self) -> (r: u32)
        ensures
            r == ones(self.raw(), 64),
    {
        let mut count: u32 = 0;
        let mut i: u64 = 0;
        while i < 64
            invariant
                i <= 64,
                count == ones(self.0, i as nat),
                count <= i,
            decreases 64 - i,
        {
            if self.0 & (1u64 << i) != 0 {
                count = count + 1;
            }
            i = i + 1;
        }
        count
    }

    pub fn union(self, other: TagSet) -> (r: TagSet)
        ensures
            r.raw() == self.raw() | other.raw(),
            forall|t: Tag| r.has(t) == (self.has(t) || other.has(t)),
    {
        proof {
            assert forall|t: Tag| bit64(self.0 | other.0, t.position() as u64) == (bit64(
                self.0,
                t.position() as u64,
            ) || bit64(other.0, t.position() as u64)) by {
                word_ops(self.0, other.0, t.position() as u64, 0);
            }
        }
        TagSet(self.0 | other.0)
    }

    /// True when the two sets share a bit.
    pub fn intersects(self, other: TagSet) -> (r: bool)
        ensures
            r == (self.raw() & other.raw() != 0),
    {
        self.0 & other.0 != 0
    }

    /// The tags in the set, in order.
    pub fn iter(self) -> (r: Vec<Tag>)
        ensures
            forall|k: int| 0 <= k < r@.len() ==> self.has(#[trigger] r@[k]),
            forall|t: Tag| self.has(t) ==> r@.contains(t),
            forall|a: int, b: int|
                0 <= a < b < r@.len() ==> (#[trigger] r@[a]).position() < (#[trigger] r@[b]).position(),
    {
        let mut out: Vec<Tag> = Vec::new();
        let mut i: usize = 0;
        while i < TAG_COUNT
            invariant
                i <= TAG_COUNT,
                forall|k: int| 0 <= k < out@.len() ==> self.has(#[trigger] out@[k]),
                forall|k: int| 0 <= k < out@.len() ==> (#[trigger] out@[k]).position() < i,
                forall|t: Tag| t.position() < i && self.has(t) ==> out@.contains(t),
                forall|a: int, b: int|
                    0 <= a < b < out@.len() ==> (#[trigger] out@[a]).position() < (
                    #[trigger] out@[b]).position(),
            decreases TAG_COUNT - i,
        {
            let t = Tag::at(i);
            let ghost before = out@;
            if self.contains(t) {
                out.push(t);
                proof {
                    assert forall|u: Tag| u.position() < i + 1 && self.has(u) implies out@.contains(u) by {
                        if u.position() == i {
                            law_tag_position_identifies(u, t);
                            assert(out@[out@.len() - 1] == t);
                        } else {
                            let k = choose|k: int| 0 <= k < before.len() && before[k] == u;
                            assert(out@[k] == u);
                        }
                    }
                }
            } else {
                proof {
                    assert forall|u: Tag| u.position() < i + 1 && self.has(u) implies out@.contains(u) by {
                        if u.position() == i {
                            law_tag_position_identifies(u, t);
                        }
                    }
                }
            }
            i = i + 1;
        }
        proof {
            assert forall|t: Tag| self.has(t) implies out@.contains(t) by {
                assert(t.position() < TAG_COUNT);
            }
        }
        out
    }

    /// A set holding exactly the given tags.
    pub fn from_tags(tags: &[Tag]) -> (r: TagSet)
        ensures
            forall|t: Tag| r.has(t) <==> tags@.contains(t),
            forall|i: u64| i >= TAG_COUNT ==> !bit64(r.raw(), i),
    {
        let mut set = TagSet::none();
        proof {
            assert forall|j: u64| j >= TAG_COUNT implies !bit64(set.raw(), j) by {
                if j < 64 {
                    word_ops(0, 0, j, 0);
                } else {
                    high_bits(0, j);
                }
            }
        }
        let mut i: usize = 0;
        while i < tags.len()
            invariant
                i <= tags@.len(),
                forall|t: Tag| set.has(t) <==> tags@.take(i as int).contains(t),
                forall|j: u64| j >= TAG_COUNT ==> !bit64(set.raw(), j),
            decreases tags@.len() - i,
        {
            let ghost before = set;
            let tag = tags[i];
            set.insert(tag);
            proof {
                assert forall|j: u64| j >= TAG_COUNT implies !bit64(set.raw(), j) by {
                    if j < 64 {
                        word_ops(before.raw(), before.raw(), tag.position() as u64, j);
                    } else {
                        high_bits(set.raw(), j);
                    }
                }
                assert forall|t: Tag| set.has(t) <==> tags@.take(i + 1).contains(t) by {
                    if tags@.take(i as int).contains(t) {
                        let k = choose|k: int| #![trigger tags@.take(i as int)[k]]
                            0 <= k < i && tags@.take(i as int)[k] == t;
                        assert(tags@.take(i + 1)[k] == t);
                    }
                    if tags@.take(i + 1).contains(t) {
                        let k = choose|k: int| #![trigger tags@.take(i + 1)[k]]
                            0 <= k < i + 1 && tags@.take(i + 1)[k] == t;
                        if k < i {
                            assert(tags@.take(i as int)[k] == t);
                        }
                    }
                    assert(tags@.take(i + 1)[i as int] == tag);
                }
            }
            i = i + 1;
        }
        assert(tags@.take(tags@.len() as int) =~= tags@);
        set
    }
}

proof fn high_bits(a: u64, j: u64)
    by (bit_vector)
    requires
        j >= 64,
    ensures
        !bit64(a, j),
{
}

/// Adding a tag to a set makes it non-empty and keeps everything that was there.
pub proof fn law_insert_keeps(s: TagSet, t: Tag, after: TagSet)
    requires
        after.raw() == s.raw() | (1u64 << (t.position() as u64)),
    ensures
        after.has(t),
        forall|u: Tag| s.has(u) ==> after.has(u),
{
    word_ops(s.raw(), s.raw(), t.position() as u64, 0);
    assert forall|u: Tag| s.has(u) implies after.has(u) by {
        word_ops(s.raw(), s.raw(), t.position() as u64, u.position() as u64);
    }
}

} // verus!
