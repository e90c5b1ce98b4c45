//! The card model, as the catalog holds it.
//!
//! Cards are written once by the artifact builder and then only ever read. The model is
//! **multi-faced from the start**: even single-faced cards carry one face, so consumers never
//! need two code paths. Anything derived (parsed mana costs, color sets) is recomputed on
//! access rather than stored.

use vstd::prelude::*;

use crate::color::{bit_set, Color, ColorSet};
use crate::format::{Format, Legality, Rarity, FORMAT_COUNT};
use crate::mana::{parse_cost, CostFault, ManaCost, ManaCostError, ManaSymbol};
use crate::tag::TagSet;
use crate::text::{
    alphanumeric, chars_eq_ignore_case, chars_of, eq_ignore_case, has_sub, is_alphanumeric,
    slice_chars, str_contains, str_eq,
};

verus! {

/// Number of legality slots stored per card: one per [`Format`].
pub const LEGALITY_SLOTS: usize = 23;

/// How a card's faces are arranged, from Scryfall's `layout` field.
///
/// Only the distinctions that change behaviour are modelled; everything else collapses into
/// [`Layout::Other`], which is treated as single-faced.
#[derive(Debug, Clone, Copy, PartialEq, Eq, Structural)]
pub enum Layout {
    /// One face, the overwhelming majority of cards.
    Normal,
    /// `Fire // Ice`: two halves, either castable.
    Split,
    /// Two halves, the second only castable after the first.
    Adventure,
    /// Transforms in place; the back face has no mana cost of its own.
    Transform,
    /// Modal double-faced: either side can be played from hand.
    ModalDfc,
    /// Combines with another card.
    Meld,
    /// Rotates rather than transforming.
    Flip,
    /// Anything else: tokens, emblems, art series, planes, schemes.
    Other,
}

impl Layout {
    /// What a Scryfall layout string means.
    pub open spec fn of_value(value: Seq<char>) -> Layout {
        if value == "normal"@ {
            Layout::Normal
        } else if value == "split"@ {
            Layout::Split
        } else if value == "adventure"@ {
            Layout::Adventure
        } else if value == "transform"@ {
            Layout::Transform
        } else if value == "modal_dfc"@ {
            Layout::ModalDfc
        } else if value == "meld"@ {
            Layout::Meld
        } else if value == "flip"@ {
            Layout::Flip
        } else {
            Layout::Other
        }
    }

    pub fn from_scryfall_value(value: &str) -> (r: Layout)
        ensures
            r == Layout::of_value(value@),
    {
        if str_eq(value, "normal") {
            Layout::Normal
        } else if str_eq(value, "split") {
            Layout::Split
        } else if str_eq(value, "adventure") {
            Layout::Adventure
        } else if str_eq(value, "transform") {
            Layout::Transform
        } else if str_eq(value, "modal_dfc") {
            Layout::ModalDfc
        } else if str_eq(value, "meld") {
            Layout::Meld
        } else if str_eq(value, "flip") {
            Layout::Flip
        } else {
            Layout::Other
        }
    }

    /// True when every face is on the same physical side of the card.
    pub open spec fn one_sided(self) -> bool {
        self == Layout::Normal || self == Layout::Split || self == Layout::Adventure || self
            == Layout::Flip || self == Layout::Other
    }

    /// True when both faces are on the same physical side of the card, so the whole card is
    /// visible at once.
    pub fn is_single_sided(self) -> (r: bool)
        ensures
            r == self.one_sided(),
    {
        matches!(self, Layout::Normal | Layout::Split | Layout::Adventure | Layout::Flip | Layout::Other)
    }
}

/// A character that separates words of a type line: anything but a letter, digit or
/// apostrophe.
pub open spec fn separates(c: char) -> bool {
    !(alphanumeric(c) || c == '\'')
}

/// `s[a..b]` is one word of `s`: bounded by separators (or the ends) and holding none.
pub open spec fn is_word(s: Seq<char>, a: int, b: int) -> bool {
    &&& 0 <= a <= b <= s.len()
    &&& (a == 0 || separates(s[a - 1]))
    &&& (b == s.len() || separates(s[b]))
    &&& forall|k: int| a <= k < b ==> !separates(#[trigger] s[k])
}

/// True when some word of `type_line` equals `kind`, ignoring ASCII case.
pub open spec fn names_type(type_line: Seq<char>, kind: Seq<char>) -> bool {
    exists|a: int, b: int|
        is_word(type_line, a, b) && eq_ignore_case(#[trigger] type_line.subrange(a, b), kind)
}

fn separates_exec(c: char) -> (r: bool)
    ensures
        r == separates(c),
{
    !(is_alphanumeric(c) || c == '\'')
}

proof fn lemma_word_starts_at(s: Seq<char>, start: int, a: int, b: int)
    requires
        is_word(s, a, b),
        0 <= start <= b,
        start == 0 || separates(s[start - 1]),
        forall|k: int| start <= k < b ==> !separates(#[trigger] s[k]),
    ensures
        a == start,
{
    if a < start {
        assert(!separates(s[start - 1]));
    } else if a > start {
        assert(!separates(s[a - 1]));
    }
}

/// Whole-word, case-insensitive search in a type line.
///
/// Matches on whole words so that `"Land"` does not also match `"Landfall"`.
pub fn type_line_has(type_line: &str, kind: &str) -> (r: bool)
    ensures
        r == names_type(type_line@, kind@),
{
    let s = chars_of(type_line);
    let k = chars_of(kind);
    let mut start: usize = 0;
    let mut i: usize = 0;
    while i < s.len()
        invariant
            s@ == type_line@,
            k@ == kind@,
            start <= i <= s@.len(),
            start == 0 || separates(s@[start - 1]),
            forall|m: int| start <= m < i ==> !separates(#[trigger] s@[m]),
            forall|a: int, b: int|
                is_word(s@, a, b) && b < i ==> !eq_ignore_case(#[trigger] s@.subrange(a, b), k@),
        decreases s@.len() - i,
    {
        if separates_exec(s[i]) {
            let word = slice_chars(s.as_slice(), start, i);
            if chars_eq_ignore_case(word.as_slice(), k.as_slice()) {
                assert(is_word(s@, start as int, i as int));
                assert(eq_ignore_case(s@.subrange(start as int, i as int), k@));
                assert(names_type(s@, k@));
                return true;
            }
            proof {
                assert forall|a: int, b: int|
                    is_word(s@, a, b) && b < i + 1 implies !eq_ignore_case(
                    #[trigger] s@.subrange(a, b),
                    k@,
                ) by {
                    if b == i {
                        lemma_word_starts_at(s@, start as int, a, b);
                    }
                }
            }
            start = i + 1;
        }
        i = i + 1;
    }
    let word = slice_chars(s.as_slice(), start, s.len());
    let last = chars_eq_ignore_case(word.as_slice(), k.as_slice());
    proof {
        if last {
            assert(is_word(s@, start as int, s@.len() as int));
            assert(eq_ignore_case(s@.subrange(start as int, s@.len() as int), k@));
        } else {
            assert forall|a: int, b: int| is_word(s@, a, b) implies !eq_ignore_case(
                #[trigger] s@.subrange(a, b),
                k@,
            ) by {
                if b == s@.len() {
                    lemma_word_starts_at(s@, start as int, a, b);
                }
            }
        }
    }
    last
}

/// How a stored legality byte reads. Unknown values read as not legal, so a corrupt byte can
/// never make a card look playable.
pub open spec fn legality_of_byte(b: u8) -> Legality {
    if b == 0 {
        Legality::Legal
    } else if b == 2 {
        Legality::Restricted
    } else if b == 3 {
        Legality::Banned
    } else {
        Legality::NotLegal
    }
}

/// The byte a legality is stored as.
pub open spec fn legality_byte(l: Legality) -> u8 {
    match l {
        Legality::Legal => 0,
        Legality::NotLegal => 1,
        Legality::Restricted => 2,
        Legality::Banned => 3,
    }
}

/// The byte a rarity is stored as.
pub open spec fn rarity_byte(r: Rarity) -> u8 {
    match r {
        Rarity::Common => 0,
        Rarity::Uncommon => 1,
        Rarity::Rare => 2,
        Rarity::Mythic => 3,
        Rarity::Special => 4,
        Rarity::Bonus => 5,
    }
}

/// How a stored rarity byte reads; unknown values read as common.
pub open spec fn rarity_of_byte(b: u8) -> Rarity {
    if b == 1 {
        Rarity::Uncommon
    } else if b == 2 {
        Rarity::Rare
    } else if b == 3 {
        Rarity::Mythic
    } else if b == 4 {
        Rarity::Special
    } else if b == 5 {
        Rarity::Bonus
    } else {
        Rarity::Common
    }
}

/// Encodes a [`Legality`] for storage. Must stay in sync with [`ArchivedCard::legality`].
pub fn legality_to_u8(legality: Legality) -> (r: u8)
    ensures
        r == legality_byte(legality),
{
    match legality {
        Legality::Legal => 0,
        Legality::NotLegal => 1,
        Legality::Restricted => 2,
        Legality::Banned => 3,
    }
}

/// Encodes a [`Rarity`] for storage.
pub fn rarity_to_u8(rarity: Rarity) -> (r: u8)
    ensures
        r == rarity_byte(rarity),
{
    match rarity {
        Rarity::Common => 0,
        Rarity::Uncommon => 1,
        Rarity::Rare => 2,
        Rarity::Mythic => 3,
        Rarity::Special => 4,
        Rarity::Bonus => 5,
    }
}

/// Decodes a stored rarity.
pub fn rarity_from_u8(value: u8) -> (r: Rarity)
    ensures
        r == rarity_of_byte(value),
{
    match value {
        1 => Rarity::Uncommon,
        2 => Rarity::Rare,
        3 => Rarity::Mythic,
        4 => Rarity::Special,
        5 => Rarity::Bonus,
        _ => Rarity::Common,
    }
}

/// Decoding a stored legality gives back the legality that was stored.
pub proof fn law_legality_encoding_round_trips(l: Legality)
    ensures
        legality_of_byte(legality_byte(l)) == l,
{
}

/// Decoding a stored rarity gives back the rarity that was stored.
pub proof fn law_rarity_encoding_round_trips(r: Rarity)
    ensures
        rarity_of_byte(rarity_byte(r)) == r,
{
}

/// One face of a card, as the artifact builder writes it.
#[derive(Debug, Clone)]
pub struct CardFace {
    pub name: String,
    /// Raw Scryfall notation, e.g. `{2}{W}`. Empty for the back of a transforming card.
    pub mana_cost: String,
    pub type_line: String,
    pub oracle_text: String,
    pub power: Option<String>,
    pub toughness: Option<String>,
    pub loyalty: Option<String>,
    /// [`ColorSet`] bits for this face specifically.
    pub colors: u8,
}

/// One face of a card, as the catalog holds it.
#[derive(Debug, Clone)]
pub struct ArchivedCardFace {
    pub name: String,
    pub mana_cost: String,
    pub type_line: String,
    pub oracle_text: String,
    pub power: Option<String>,
    pub toughness: Option<String>,
    pub loyalty: Option<String>,
    pub colors: u8,
}

impl ArchivedCardFace {
    /// The face as the catalog stores it.
    pub fn archive(face: CardFace) -> (r: ArchivedCardFace)
        ensures
            r.name == face.name,
            r.mana_cost == face.mana_cost,
            r.type_line == face.type_line,
            r.oracle_text == face.oracle_text,
            r.colors == face.colors,
    {
        ArchivedCardFace {
            name: face.name,
            mana_cost: face.mana_cost,
            type_line: face.type_line,
            oracle_text: face.oracle_text,
            power: face.power,
            toughness: face.toughness,
            loyalty: face.loyalty,
            colors: face.colors,
        }
    }

    pub fn name(&self) -> (r: &str)
        ensures
            r@ == self.name@,
    {
        self.name.as_str()
    }

    pub fn type_line(&self) -> (r: &str)
        ensures
            r@ == self.type_line@,
    {
        self.type_line.as_str()
    }

    pub fn oracle_text(&self) -> (r: &str)
        ensures
            r@ == self.oracle_text@,
    {
        self.oracle_text.as_str()
    }

    pub fn colors(&self) -> (r: ColorSet)
        ensures
            forall|c: Color| r.has(c) == bit_set(self.colors, c.position()),
    {
        ColorSet::from_bits(self.colors)
    }

    pub fn mana_cost(&self) -> (r: Result<ManaCost, ManaCostError>)
        ensures
            r matches Ok(cost) ==> parse_cost(self.mana_cost@) == Ok::<Seq<ManaSymbol>, CostFault>(
                cost@,
            ),
            r matches Err(e) ==> parse_cost(self.mana_cost@) == Err::<Seq<ManaSymbol>, CostFault>(
                e@,
            ),
    {
        ManaCost::parse(self.mana_cost.as_str())
    }

    /// The raw cost string, for display.
    pub fn mana_cost_display(&self) -> (r: &str)
        ensures
            r@ == self.mana_cost@,
    {
        self.mana_cost.as_str()
    }
}

/// An oracle card, as the catalog holds it: the rules of a card, independent of printing.
#[derive(Debug, Clone)]
pub struct ArchivedCard {
    /// Scryfall's oracle UUID. Stable across printings and catalog rebuilds.
    pub oracle_id: String,
    /// Full name, including `//` for multi-part cards.
    pub name: String,
    /// Raw Scryfall notation. Empty for transforming cards, which carry costs per face.
    pub mana_cost: String,
    /// Scryfall's `cmc` rounded to the nearest whole number, negative values read as 0.
    pub mana_value: u32,
    /// Twice Scryfall's `cmc`, exactly: mana values are whole or half numbers.
    pub mana_value_halves: u32,
    /// [`ColorSet`] bits.
    pub colors: u8,
    /// [`ColorSet`] bits. This is what the Commander identity rule tests against.
    pub color_identity: u8,
    /// [`ColorSet`] bits for the mana this card can produce, from Scryfall's `produced_mana`.
    pub produced_mana: u8,
    pub type_line: String,
    pub oracle_text: String,
    pub power: Option<String>,
    pub toughness: Option<String>,
    pub loyalty: Option<String>,
    pub keywords: Vec<String>,
    /// One stored [`Legality`] per format, indexed by [`Format::index`].
    pub legalities: Vec<u8>,
    pub rarity: u8,
    /// Popularity rank in Commander. Absent for cards nobody plays.
    pub edhrec_rank: Option<u32>,
    /// Scryfall's flag for the official Commander Game Changers list.
    pub game_changer: bool,
    /// What the card does, as [`TagSet`] bits. Zero means nothing is known.
    pub tags: u64,
    pub reserved: bool,
    pub layout: Layout,
    /// Always at least one entry.
    pub faces: Vec<ArchivedCardFace>,
    pub set_code: String,
    pub collector_number: String,
    pub released_at: String,
    /// Scryfall image id, used to build a CDN URL on demand.
    pub image_id: String,
}

impl ArchivedCard {
    /// The card's legality in a format.
    pub open spec fn legality_in(self, format: Format) -> Legality {
        if format.position() < self.legalities@.len() {
            legality_of_byte(self.legalities@[format.position() as int])
        } else {
            Legality::NotLegal
        }
    }

    /// True when the card's type line, or any face's, names `kind` as a word.
    pub open spec fn typed(self, kind: Seq<char>) -> bool {
        names_type(self.type_line@, kind) || exists|i: int|
            0 <= i < self.faces@.len() && names_type(#[trigger] self.faces@[i].type_line@, kind)
    }

    /// True when the card's text, or any face's, says it can be a commander.
    pub open spec fn says_commander(self) -> bool {
        has_sub(self.oracle_text@, "can be your commander"@) || exists|i: int|
            0 <= i < self.faces@.len() && has_sub(
                #[trigger] self.faces@[i].oracle_text@,
                "can be your commander"@,
            )
    }

    /// A legendary creature, or a card whose text makes it a commander.
    pub open spec fn commander_eligible(self) -> bool {
        (self.typed("Legendary"@) && self.typed("Creature"@)) || self.says_commander()
    }

    /// Can produce mana at all, of any color or none.
    pub open spec fn makes_mana(self) -> bool {
        (exists|c: Color| bit_set(self.produced_mana, c.position())) || self.typed("Land"@)
    }

    pub fn name(&self) -> (r: &str)
        ensures
            r@ == self.name@,
    {
        self.name.as_str()
    }

    pub fn type_line(&self) -> (r: &str)
        ensures
            r@ == self.type_line@,
    {
        self.type_line.as_str()
    }

    pub fn oracle_text(&self) -> (r: &str)
        ensures
            r@ == self.oracle_text@,
    {
        self.oracle_text.as_str()
    }

    pub fn oracle_id(&self) -> (r: &str)
        ensures
            r@ == self.oracle_id@,
    {
        self.oracle_id.as_str()
    }

    /// Rounded mana value.
    pub fn mana_value(&self) -> (r: u32)
        ensures
            r == self.mana_value,
    {
        self.mana_value
    }

    pub fn colors(&self) -> (r: ColorSet)
        ensures
            forall|c: Color| r.has(c) == bit_set(self.colors, c.position()),
    {
        ColorSet::from_bits(self.colors)
    }

    /// Twice the exact mana value.
    pub fn mana_value_halves(&self) -> (r: u32)
        ensures
            r == self.mana_value_halves,
    {
        self.mana_value_halves
    }

    pub fn color_identity(&self) -> (r: ColorSet)
        ensures
            forall|c: Color| r.has(c) == bit_set(self.color_identity, c.position()),
    {
        ColorSet::from_bits(self.color_identity)
    }

    /// Colors of mana this card can produce.
    pub fn produced_mana(&self) -> (r: ColorSet)
        ensures
            forall|c: Color| r.has(c) == bit_set(self.produced_mana, c.position()),
    {
        ColorSet::from_bits(self.produced_mana)
    }

    /// True when the card can produce mana at all, of any color or none.
    ///
    /// Lands count even when they tap for colorless, which `produced_mana` records as an
    /// empty color set; hence the type check alongside it.
    pub fn produces_mana(&self) -> (r: bool)
        ensures
            r == self.makes_mana(),
    {
        let produced = self.produced_mana();
        let colored = !produced.is_colorless();
        let land = self.has_type("Land");
        proof {
            if !colored {
                assert forall|c: Color| !bit_set(self.produced_mana, c.position()) by {
                    assert(!produced.has(c));
                }
            } else {
                let c = choose|c: Color| produced.has(c);
                assert(bit_set(self.produced_mana, c.position()));
            }
        }
        colored || land
    }

    pub fn rarity(&self) -> (r: Rarity)
        ensures
            r == rarity_of_byte(self.rarity),
    {
        rarity_from_u8(self.rarity)
    }

    /// Legality in one format. Unknown stored values read as [`Legality::NotLegal`], so a
    /// corrupt byte can never make a card look playable.
    pub fn legality(&self, format: Format) -> (r: Legality)
        ensures
            r == self.legality_in(format),
    {
        let index = format.index();
        if index < self.legalities.len() {
            match self.legalities[index] {
                0 => Legality::Legal,
                2 => Legality::Restricted,
                3 => Legality::Banned,
                _ => Legality::NotLegal,
            }
        } else {
            Legality::NotLegal
        }
    }

    pub fn is_legal_in(&self, format: Format) -> (r: bool)
        ensures
            r == self.legality_in(format).playable(),
    {
        self.legality(format).is_playable()
    }

    pub fn edhrec_rank(&self) -> (r: Option<u32>)
        ensures
            r == self.edhrec_rank,
    {
        self.edhrec_rank
    }

    pub fn is_game_changer(&self) -> (r: bool)
        ensures
            r == self.game_changer,
    {
        self.game_changer
    }

    /// What the card does. Empty means nothing is known, not that it does nothing.
    pub fn tags(&self) -> (r: TagSet)
        ensures
            r.raw() == self.tags,
    {
        TagSet::from_bits(self.tags)
    }

    /// The raw cost string as Scryfall wrote it, for display, split halves included.
    pub fn mana_cost_display(&self) -> (r: &str)
        ensures
            r@ == self.mana_cost@,
    {
        self.mana_cost.as_str()
    }

    /// Parses the top-level mana cost.
    ///
    /// Split and adventure cards store both halves separated by `" // "`; that is not a
    /// castable cost, so it reads as empty, as do transforming cards whose costs live on their
    /// faces.
    pub fn mana_cost(&self) -> (r: Result<ManaCost, ManaCostError>)
        ensures
            has_sub(self.mana_cost@, " // "@) ==> (r matches Ok(cost) && cost@.len() == 0),
            !has_sub(self.mana_cost@, " // "@) ==> (r matches Ok(cost) ==> parse_cost(
                self.mana_cost@,
            ) == Ok::<Seq<ManaSymbol>, CostFault>(cost@)),
            !has_sub(self.mana_cost@, " // "@) ==> (r matches Err(e) ==> parse_cost(
                self.mana_cost@,
            ) == Err::<Seq<ManaSymbol>, CostFault>(e@)),
    {
        if str_contains(self.mana_cost.as_str(), " // ") {
            Ok(ManaCost::empty())
        } else {
            ManaCost::parse(self.mana_cost.as_str())
        }
    }

    pub fn faces(&self) -> (r: &[ArchivedCardFace])
        ensures
            r@ == self.faces@,
    {
        self.faces.as_slice()
    }

    pub fn is_multi_faced(&self) -> (r: bool)
        ensures
            r == (self.faces@.len() > 1),
    {
        self.faces.len() > 1
    }

    /// True when the type line names `kind`, e.g. `"Creature"` or `"Legendary"`, on the card
    /// or on any of its faces. Matches whole words, ignoring ASCII case.
    pub fn has_type(&self, kind: &str) -> (r: bool)
        ensures
            r == self.typed(kind@),
    {
        if type_line_has(self.type_line.as_str(), kind) {
            return true;
        }
        let mut i: usize = 0;
        while i < self.faces.len()
            invariant
                i <= self.faces@.len(),
                forall|k: int| 0 <= k < i ==> !names_type(#[trigger] self.faces@[k].type_line@, kind@),
            decreases self.faces@.len() - i,
        {
            if type_line_has(self.faces[i].type_line.as_str(), kind) {
                return true;
            }
            i = i + 1;
        }
        false
    }

    /// True when this card can be a commander: a legendary creature, or a card that says so.
    ///
    /// The text check catches planeswalker commanders reading "can be your commander".
    pub fn can_be_commander(&self) -> (r: bool)
        ensures
            r == self.commander_eligible(),
    {
        if self.has_type("Legendary") && self.has_type("Creature") {
            return true;
        }
        if str_contains(self.oracle_text.as_str(), "can be your commander") {
            return true;
        }
        let mut i: usize = 0;
        while i < self.faces.len()
            invariant
                i <= self.faces@.len(),
                forall|k: int| 0 <= k < i ==> !has_sub(#[trigger] self.faces@[k].oracle_text@, "can be your commander"@),
            decreases self.faces@.len() - i,
        {
            if str_contains(self.faces[i].oracle_text.as_str(), "can be your commander") {
                return true;
            }
            i = i + 1;
        }
        false
    }
}

} // verus!
