//! Reducing a deck to the numbers scoring and simulation actually need.
//!
//! Built once per evaluation: the optimizer scores a deck thousands of times, so this walks
//! the deck once and hands back flat arrays.

use vstd::prelude::*;

use crate::color::{bit_set, Color, ColorSet};
use crate::data::card::ArchivedCard;
use crate::data::catalog::{first_card, Catalog};
use crate::deck::deck::{Deck, DeckEntry, Zone};
use crate::deck::legality::card_named;
use crate::deck::stats::{cost_symbols, pip_weight};
use crate::optimizer::simulate::Card;
use crate::tag::{bit64, Tag, TAG_COUNT};

verus! {

/// A coloured requirement the deck has to be able to meet.
#[derive(Debug, Clone, Copy, PartialEq, Eq, Structural)]
pub struct PipRequirement {
    pub color: Color,
    /// Symbols of this colour in one card's cost.
    pub pips: u32,
    /// The turn it wants to be cast on, which is its mana value, clamped to one to six.
    pub turn: u32,
    /// Copies in the deck, so a four-of weighs four times a singleton.
    pub copies: u32,
}

/// What a deck looks like once flattened.
#[derive(Debug, Clone)]
pub struct DeckProfile {
    /// One entry per physical card, for the simulator to shuffle.
    pub cards: Vec<Card>,
    /// Sources of each colour, indexed in WUBRG order.
    pub color_sources: [u32; 5],
    /// Cards producing mana of any kind, including colourless lands.
    pub mana_producers: u32,
    pub lands: u32,
    pub creatures: u32,
    /// Copies carrying each functional role, indexed by tag position. Counted per copy: four
    /// Lightning Bolts are four pieces of removal.
    pub roles: [u32; TAG_COUNT],
    /// Non-land copies carrying at least one role: the denominator for anything reading
    /// `roles`. Not the non-land count: a deck can hold cards whose role is simply unknown,
    /// and scoring those as "no role" would invent a weakness the deck may not have.
    pub with_roles: u32,
    /// Non-land copies the catalog knows but the tagger does not.
    pub without_roles: u32,
    pub pip_requirements: Vec<PipRequirement>,
    pub color_identity: ColorSet,
    /// Cards not found in the catalog, so a score can be labelled unreliable rather than
    /// quietly computed from a partial deck.
    pub unresolved: u32,
}

impl Default for DeckProfile {
    fn default() -> (r: DeckProfile)
        ensures
            r.cards@.len() == 0,
            r.color_sources@ == seq![0u32, 0, 0, 0, 0],
            r.mana_producers == 0,
            r.lands == 0,
            r.creatures == 0,
            forall|k: int| 0 <= k < TAG_COUNT ==> r.roles@[k] == 0,
            r.with_roles == 0,
            r.without_roles == 0,
            r.pip_requirements@.len() == 0,
            forall|c: Color| !r.color_identity.has(c),
            r.unresolved == 0,
    {
        DeckProfile {
            cards: Vec::new(),
            color_sources: [0; 5],
            mana_producers: 0,
            lands: 0,
            creatures: 0,
            roles: [0; 35],
            with_roles: 0,
            without_roles: 0,
            pip_requirements: Vec::new(),
            color_identity: ColorSet::colorless(),
            unresolved: 0,
        }
    }
}

/// Position of a color in WUBRG order.
pub open spec fn color_slot(c: Color) -> int {
    c.position() as int
}

impl DeckProfile {
    /// Cards in the deck, in 32 bits.
    pub fn deck_size(&self) -> (r: u32)
        ensures
            r == self.cards@.len() % 0x1_0000_0000,
    {
        let n = self.cards.len() as u64;
        assert((n as u32) == n % 0x1_0000_0000) by (bit_vector);
        n as u32
    }

    /// Copies carrying any of these roles. Without per-card sets this cannot be exact, so it
    /// takes the largest single role rather than the sum: for groups built from a parent tag
    /// and its children, which is how the vocabulary is shaped, the parent's count is the
    /// right answer, and adding would make Lightning Bolt, both removal and spot removal,
    /// look like two pieces of interaction.
    pub fn copies_with_any(&self, tags: &[Tag]) -> (r: u32)
        ensures
            forall|k: int| 0 <= k < tags@.len() ==> self.roles@[tags@[k].position() as int] <= r,
            tags@.len() == 0 ==> r == 0,
            tags@.len() > 0 ==> exists|k: int|
                0 <= k < tags@.len() && r == self.roles@[tags@[k].position() as int],
    {
        let mut best: u32 = 0;
        let mut i: usize = 0;
        while i < tags.len()
            invariant
                i <= tags@.len(),
                forall|k: int| 0 <= k < i ==> self.roles@[tags@[k].position() as int] <= best,
                i == 0 ==> best == 0,
                i > 0 ==> exists|k: int| 0 <= k < i && best == self.roles@[tags@[k].position() as int],
            decreases tags@.len() - i,
        {
            let v = self.roles[tags[i].index() as usize];
            if i == 0 || v > best {
                best = v;
            }
            i = i + 1;
        }
        best
    }

    pub fn sources_of(&self, color: Color) -> (r: u32)
        ensures
            r == self.color_sources@[color_slot(color)],
    {
        self.color_sources[color.index() as usize]
    }

    /// Colours the deck actually asks for, which is not the same as its identity: a commander
    /// widens identity without any card in the deck needing that colour.
    pub fn required_colors(&self) -> (r: ColorSet)
        ensures
            forall|c: Color| r.has(c) <==> exists|k: int|
                0 <= k < self.pip_requirements@.len() && #[trigger] self.pip_requirements@[k].color == c,
    {
        let mut colors: Vec<Color> = Vec::new();
        let mut i: usize = 0;
        while i < self.pip_requirements.len()
            invariant
                i <= self.pip_requirements@.len(),
                colors@.len() == i,
                forall|k: int| 0 <= k < i ==> colors@[k] == self.pip_requirements@[k].color,
            decreases self.pip_requirements@.len() - i,
        {
            colors.push(self.pip_requirements[i].color);
            i = i + 1;
        }
        let r = ColorSet::from_colors(colors.as_slice());
        proof {
            assert forall|c: Color| r.has(c) <==> exists|k: int|
                0 <= k < self.pip_requirements@.len() && #[trigger] self.pip_requirements@[k].color == c by {
                if r.has(c) {
                    let k = choose|k: int| 0 <= k < colors@.len() && colors@[k] == c;
                    assert(self.pip_requirements@[k].color == c);
                }
                if exists|k: int| 0 <= k < self.pip_requirements@.len() && #[trigger] self.pip_requirements@[k].color == c {
                    let k = choose|k: int| 0 <= k < self.pip_requirements@.len() && #[trigger] self.pip_requirements@[k].color == c;
                    assert(colors@[k] == c);
                }
            }
        }
        r
    }
}

/// Oracle id to card, built once and reused.
pub struct CardIndex<'a> {
    catalog: &'a Catalog,
}

impl<'a> CardIndex<'a> {
    pub closed spec fn cards(&self) -> Seq<ArchivedCard> {
        self.catalog.cards_view()
    }

    pub fn build(catalog: &'a Catalog) -> (r: CardIndex<'a>)
        ensures
            r.cards() == catalog.cards_view(),
    {
        CardIndex { catalog }
    }

    /// The cards behind the index, in catalog order.
    pub(crate) fn catalog_cards(&self) -> (r: &'a [ArchivedCard])
        ensures
            r@ == self.cards(),
    {
        self.catalog.cards()
    }

    /// The card with an oracle id, if the catalog has one.
    pub fn get(&self, oracle_id: &str) -> (r: Option<&'a ArchivedCard>)
        ensures
            r == (match first_card(self.cards(), oracle_id@) {
                Some(i) => Some(&self.cards()[i]),
                None => None,
            }),
    {
        self.catalog.find_by_oracle_id(oracle_id)
    }

    /// The oracle id of every card of the catalog, in catalog order.
    pub fn oracle_ids(&self) -> (r: Vec<&'a str>)
        ensures
            r@.len() == self.cards().len(),
            forall|k: int| 0 <= k < r@.len() ==> (#[trigger] r@[k])@ == self.cards()[k].oracle_id@,
    {
        let cards = self.catalog.cards();
        let mut out: Vec<&'a str> = Vec::new();
        let mut i: usize = 0;
        while i < cards.len()
            invariant
                cards@ == self.cards(),
                i <= cards@.len(),
                out@.len() == i,
                forall|k: int| 0 <= k < i ==> (#[trigger] out@[k])@ == cards@[k].oracle_id@,
            decreases cards@.len() - i,
        {
            out.push(cards[i].oracle_id.as_str());
            i = i + 1;
        }
        out
    }

    pub fn len(&self) -> (r: usize)
        ensures
            r == self.cards().len(),
    {
        self.catalog.len()
    }

    pub fn is_empty(&self) -> (r: bool)
        ensures
            r == (self.cards().len() == 0),
    {
        self.catalog.is_empty()
    }
}

/// One of the numbers a deck is flattened to.
#[derive(Debug, Clone, Copy, PartialEq, Eq, Structural)]
pub enum Count {
    Unresolved,
    Lands,
    Creatures,
    WithRoles,
    WithoutRoles,
    Role(Tag),
    Producers,
    Sources(Color),
}

/// What one entry adds to a count. The sideboard adds nothing; roles are counted for spells
/// only, since a land ramp package would otherwise count twice.
pub open spec fn count_weight(m: Count, cards: Seq<ArchivedCard>, e: DeckEntry) -> nat {
    let q = e.quantity as nat;
    if e.zone == Zone::Sideboard {
        0
    } else {
        match card_named(cards, e.oracle_id@) {
            None => if m == Count::Unresolved {
                q
            } else {
                0
            },
            Some(card) => {
                let land = card.typed("Land"@);
                match m {
                    Count::Unresolved => 0,
                    Count::Lands => if land { q } else { 0 },
                    Count::Creatures => if card.typed("Creature"@) { q } else { 0 },
                    Count::WithRoles => if !land && card.tags != 0 { q } else { 0 },
                    Count::WithoutRoles => if !land && card.tags == 0 { q } else { 0 },
                    Count::Role(t) => if !land && card.tags != 0 && bit64(card.tags, t.position() as u64) {
                        q
                    } else {
                        0
                    },
                    Count::Producers => if card.makes_mana() { q } else { 0 },
                    Count::Sources(c) => if card.makes_mana() && bit_set(card.produced_mana, c.position()) {
                        q
                    } else {
                        0
                    },
                }
            },
        }
    }
}

/// A count over a list of entries.
pub open spec fn count_of(es: Seq<DeckEntry>, cards: Seq<ArchivedCard>, m: Count) -> nat
    decreases es.len(),
{
    if es.len() == 0 {
        0
    } else {
        count_of(es.drop_last(), cards, m) + count_weight(m, cards, es.last())
    }
}

/// The simulator's cards for one entry: one per copy.
pub open spec fn copies_of_card(e: DeckEntry, cards: Seq<ArchivedCard>) -> Seq<Card> {
    if e.zone == Zone::Sideboard {
        Seq::empty()
    } else {
        match card_named(cards, e.oracle_id@) {
            None => Seq::empty(),
            Some(card) => {
                let land = card.typed("Land"@);
                Seq::new(
                    e.quantity as nat,
                    |k: int| Card { is_land: land, mana_value: if land { 0 } else { card.mana_value } },
                )
            },
        }
    }
}

/// The simulator's cards for a list of entries, in deck order.
pub open spec fn library(es: Seq<DeckEntry>, cards: Seq<ArchivedCard>) -> Seq<Card>
    decreases es.len(),
{
    if es.len() == 0 {
        Seq::empty()
    } else {
        library(es.drop_last(), cards) + copies_of_card(es.last(), cards)
    }
}

/// The turn a spell wants: its mana value, clamped to one to six so a fifteen-drop does not
/// claim a mana base is fine simply because turn fifteen sees most of the deck.
pub open spec fn wanted_turn(mana_value: u32) -> u32 {
    if mana_value < 1 {
        1
    } else if mana_value > 6 {
        6
    } else {
        mana_value
    }
}

/// The requirements of one entry, in WUBRG order: spells only, since a land's own colour
/// identity asks nothing of the mana base.
pub open spec fn entry_requirements(e: DeckEntry, cards: Seq<ArchivedCard>) -> Seq<PipRequirement> {
    if e.zone == Zone::Sideboard {
        Seq::empty()
    } else {
        match card_named(cards, e.oracle_id@) {
            None => Seq::empty(),
            Some(card) => if card.typed("Land"@) || cost_symbols(card) is None {
                Seq::empty()
            } else {
                crate::color::wubrg().filter(|c: Color| pip_weight(card, c) > 0).map_values(
                    |c: Color|
                        PipRequirement {
                            color: c,
                            pips: pip_weight(card, c) as u32,
                            turn: wanted_turn(card.mana_value),
                            copies: e.quantity,
                        },
                )
            },
        }
    }
}

/// The requirements of a list of entries, in deck order.
pub open spec fn requirements(es: Seq<DeckEntry>, cards: Seq<ArchivedCard>) -> Seq<PipRequirement>
    decreases es.len(),
{
    if es.len() == 0 {
        Seq::empty()
    } else {
        requirements(es.drop_last(), cards) + entry_requirements(es.last(), cards)
    }
}

/// True when a counted card of the deck has `c` in its color identity.
pub open spec fn identity_of(es: Seq<DeckEntry>, cards: Seq<ArchivedCard>, c: Color) -> bool
    decreases es.len(),
{
    if es.len() == 0 {
        false
    } else {
        identity_of(es.drop_last(), cards, c) || (es.last().zone != Zone::Sideboard && (card_named(
            cards,
            es.last().oracle_id@,
        ) matches Some(card) && bit_set(card.color_identity, c.position())))
    }
}

/// True when every count of a deck fits in 32 bits.
pub open spec fn fits(es: Seq<DeckEntry>, cards: Seq<ArchivedCard>) -> bool {
    forall|m: Count| #[trigger] count_of(es, cards, m) <= u32::MAX
}

fn count_weight_of(m: Count, entry: &DeckEntry, index: &CardIndex<'_>) -> (r: u32)
    ensures
        r == count_weight(m, index.cards(), *entry),
{
    let q = entry.quantity;
    if entry.zone == Zone::Sideboard {
        return 0;
    }
    let card = match index.get(entry.oracle_id.as_str()) {
        Some(card) => card,
        None => {
            return if m == Count::Unresolved {
                q
            } else {
                0
            };
        },
    };
    let land = card.has_type("Land");
    let tags = card.tags();
    match m {
        Count::Unresolved => 0,
        Count::Lands => if land { q } else { 0 },
        Count::Creatures => if card.has_type("Creature") { q } else { 0 },
        Count::WithRoles => if !land && !tags.is_empty() { q } else { 0 },
        Count::WithoutRoles => if !land && tags.is_empty() { q } else { 0 },
        Count::Role(t) => {
            if !land && !tags.is_empty() && tags.contains(t) {
                q
            } else {
                0
            }
        },
        Count::Producers => if card.produces_mana() { q } else { 0 },
        Count::Sources(c) => if card.produces_mana() && card.produced_mana().contains(c) {
            q
        } else {
            0
        },
    }
}

proof fn lemma_count_prefix(es: Seq<DeckEntry>, cards: Seq<ArchivedCard>, m: Count, k: int)
    requires
        0 <= k <= es.len(),
    ensures
        count_of(es.take(k), cards, m) <= count_of(es, cards, m),
    decreases es.len() - k,
{
    if k < es.len() {
        lemma_count_prefix(es, cards, m, k + 1);
        assert(es.take(k + 1).drop_last() =~= es.take(k));
    } else {
        assert(es.take(k) =~= es);
    }
}

fn count(deck: &Deck, index: &CardIndex<'_>, m: Count) -> (r: u32)
    requires
        count_of(deck.entries@, index.cards(), m) <= u32::MAX,
    ensures
        r == count_of(deck.entries@, index.cards(), m),
{
    let ghost es = deck.entries@;
    let ghost cards = index.cards();
    let mut total: u32 = 0;
    let mut i: usize = 0;
    while i < deck.entries.len()
        invariant
            es == deck.entries@,
            cards == index.cards(),
            count_of(es, cards, m) <= u32::MAX,
            i <= es.len(),
            total == count_of(es.take(i as int), cards, m),
        decreases es.len() - i,
    {
        assert(es.take(i + 1).drop_last() =~= es.take(i as int));
        proof {
            lemma_count_prefix(es, cards, m, i + 1);
        }
        total = total + count_weight_of(m, &deck.entries[i], index);
        i = i + 1;
    }
    assert(es.take(i as int) =~= es);
    total
}

fn push_copies(out: &mut Vec<Card>, entry: &DeckEntry, index: &CardIndex<'_>)
    ensures
        final(out)@ == old(out)@ + copies_of_card(*entry, index.cards()),
{
    if entry.zone == Zone::Sideboard {
        assert(old(out)@ + Seq::<Card>::empty() =~= old(out)@);
        return;
    }
    let card = match index.get(entry.oracle_id.as_str()) {
        Some(card) => card,
        None => {
            assert(old(out)@ + Seq::<Card>::empty() =~= old(out)@);
            return;
        },
    };
    let land = card.has_type("Land");
    let made = Card { is_land: land, mana_value: if land { 0 } else { card.mana_value } };
    let ghost start = out@;
    let mut k: u32 = 0;
    while k < entry.quantity
        invariant
            k <= entry.quantity,
            out@ == start + Seq::new(k as nat, |j: int| made),
        decreases entry.quantity - k,
    {
        out.push(made);
        k = k + 1;
        assert(out@ =~= start + Seq::new(k as nat, |j: int| made));
    }
    assert(copies_of_card(*entry, index.cards()) =~= Seq::new(entry.quantity as nat, |j: int| made));
}

fn push_requirements(out: &mut Vec<PipRequirement>, entry: &DeckEntry, index: &CardIndex<'_>)
    ensures
        final(out)@ == old(out)@ + entry_requirements(*entry, index.cards()),
{
    if entry.zone == Zone::Sideboard {
        assert(old(out)@ + Seq::<PipRequirement>::empty() =~= old(out)@);
        return;
    }
    let card = match index.get(entry.oracle_id.as_str()) {
        Some(card) => card,
        None => {
            assert(old(out)@ + Seq::<PipRequirement>::empty() =~= old(out)@);
            return;
        },
    };
    if card.has_type("Land") {
        assert(old(out)@ + Seq::<PipRequirement>::empty() =~= old(out)@);
        return;
    }
    let cost = match card.mana_cost() {
        Ok(cost) => cost,
        Err(_) => {
            assert(old(out)@ + Seq::<PipRequirement>::empty() =~= old(out)@);
            return;
        },
    };
    let turn = if card.mana_value < 1 {
        1
    } else if card.mana_value > 6 {
        6
    } else {
        card.mana_value
    };
    let colors = [Color::White, Color::Blue, Color::Black, Color::Red, Color::Green];
    let ghost start = out@;
    let ghost want = |c: Color| pip_weight(*card, c) > 0;
    let ghost make = |c: Color|
        PipRequirement {
            color: c,
            pips: pip_weight(*card, c) as u32,
            turn: wanted_turn(card.mana_value),
            copies: entry.quantity,
        };
    let mut k: usize = 0;
    while k < 5
        invariant
            colors@ == crate::color::wubrg(),
            k <= 5,
            out@ == start + colors@.take(k as int).filter(want).map_values(make),
            cost_symbols(*card) == Some(cost@),
            turn == wanted_turn(card.mana_value),
            forall|x: Color| #[trigger] want(x) == (pip_weight(*card, x) > 0),
            forall|x: Color| #[trigger] make(x) == (PipRequirement {
                color: x,
                pips: pip_weight(*card, x) as u32,
                turn: wanted_turn(card.mana_value),
                copies: entry.quantity,
            }),
        decreases 5 - k,
    {
        let c = colors[k];
        let pips = cost.pip_count(c);
        let ghost before = out@;
        let ghost prev = colors@.take(k as int).filter(want);
        assert(colors@.take(k + 1).drop_last() =~= colors@.take(k as int));
        assert(colors@.take(k + 1).last() == c);
        assert(colors@.take(k + 1).filter(want) == (if want(c) { prev.push(c) } else { prev })) by {
            reveal_with_fuel(Seq::filter, 1);
        }
        assert(pips as nat == pip_weight(*card, c));
        assert(make(c) == PipRequirement { color: c, pips, turn, copies: entry.quantity });
        assert(prev.push(c).map_values(make) =~= prev.map_values(make).push(make(c)));
        if pips > 0 {
            out.push(PipRequirement { color: c, pips, turn, copies: entry.quantity });
        }
        assert(out@ =~= start + colors@.take(k + 1).filter(want).map_values(make));
        k = k + 1;
    }
    assert(colors@.take(5) =~= colors@);
}

/// Flattens a deck against a catalog. The sideboard is excluded throughout: it is not part of
/// what you shuffle up.
pub fn profile(deck: &Deck, catalog: &Catalog) -> (r: DeckProfile)
    requires
        fits(deck.entries@, catalog.cards_view()),
    ensures
        profile_is(r, deck.entries@, catalog.cards_view()),
{
    profile_with_index(deck, &CardIndex::build(catalog))
}

/// What a profile holds, field by field.
pub open spec fn profile_is(r: DeckProfile, es: Seq<DeckEntry>, cards: Seq<ArchivedCard>) -> bool {
    &&& r.cards@ == library(es, cards)
    &&& forall|c: Color| r.color_sources@[color_slot(c)] == count_of(es, cards, Count::Sources(c))
    &&& r.color_sources@.len() == 5
    &&& r.mana_producers == count_of(es, cards, Count::Producers)
    &&& r.lands == count_of(es, cards, Count::Lands)
    &&& r.creatures == count_of(es, cards, Count::Creatures)
    &&& forall|t: Tag| r.roles@[t.position() as int] == count_of(es, cards, Count::Role(t))
    &&& r.with_roles == count_of(es, cards, Count::WithRoles)
    &&& r.without_roles == count_of(es, cards, Count::WithoutRoles)
    &&& r.pip_requirements@ == requirements(es, cards)
    &&& forall|c: Color| r.color_identity.has(c) == identity_of(es, cards, c)
    &&& r.unresolved == count_of(es, cards, Count::Unresolved)
}

/// Flattens a deck against a prebuilt index.
pub fn profile_with_index(deck: &Deck, index: &CardIndex<'_>) -> (r: DeckProfile)
    requires
        fits(deck.entries@, index.cards()),
    ensures
        profile_is(r, deck.entries@, index.cards()),
{
    let ghost es = deck.entries@;
    let ghost cards = index.cards();
    let mut built = DeckProfile::default();
    assert(count_of(es, cards, Count::Unresolved) <= u32::MAX);
    assert(count_of(es, cards, Count::Lands) <= u32::MAX);
    assert(count_of(es, cards, Count::Creatures) <= u32::MAX);
    assert(count_of(es, cards, Count::WithRoles) <= u32::MAX);
    assert(count_of(es, cards, Count::WithoutRoles) <= u32::MAX);
    assert(count_of(es, cards, Count::Producers) <= u32::MAX);
    built.unresolved = count(deck, index, Count::Unresolved);
    built.lands = count(deck, index, Count::Lands);
    built.creatures = count(deck, index, Count::Creatures);
    built.with_roles = count(deck, index, Count::WithRoles);
    built.without_roles = count(deck, index, Count::WithoutRoles);
    built.mana_producers = count(deck, index, Count::Producers);

    let colors = [Color::White, Color::Blue, Color::Black, Color::Red, Color::Green];
    let mut k: usize = 0;
    while k < 5
        invariant
            es == deck.entries@,
            cards == index.cards(),
            fits(es, cards),
            colors@ == crate::color::wubrg(),
            k <= 5,
            built.color_sources@.len() == 5,
            forall|j: int| 0 <= j < k ==> built.color_sources@[j] == count_of(es, cards, Count::Sources(colors@[j])),
            built.unresolved == count_of(es, cards, Count::Unresolved),
            built.lands == count_of(es, cards, Count::Lands),
            built.creatures == count_of(es, cards, Count::Creatures),
            built.with_roles == count_of(es, cards, Count::WithRoles),
            built.without_roles == count_of(es, cards, Count::WithoutRoles),
            built.mana_producers == count_of(es, cards, Count::Producers),
            built.cards@.len() == 0,
            built.pip_requirements@.len() == 0,
        decreases 5 - k,
    {
        assert(count_of(es, cards, Count::Sources(colors[k as int])) <= u32::MAX);
        let v = count(deck, index, Count::Sources(colors[k]));
        built.color_sources[k] = v;
        k = k + 1;
    }
    assert forall|c: Color| built.color_sources@[color_slot(c)] == count_of(es, cards, Count::Sources(c)) by {
        assert(colors@[color_slot(c)] == c);
    }

    let mut t: usize = 0;
    while t < TAG_COUNT
        invariant
            es == deck.entries@,
            cards == index.cards(),
            fits(es, cards),
            t <= TAG_COUNT,
            built.roles@.len() == TAG_COUNT,
            forall|g: Tag| g.position() < t ==> built.roles@[g.position() as int] == count_of(es, cards, Count::Role(g)),
            built.color_sources@.len() == 5,
            forall|c: Color| built.color_sources@[color_slot(c)] == count_of(es, cards, Count::Sources(c)),
            built.unresolved == count_of(es, cards, Count::Unresolved),
            built.lands == count_of(es, cards, Count::Lands),
            built.creatures == count_of(es, cards, Count::Creatures),
            built.with_roles == count_of(es, cards, Count::WithRoles),
            built.without_roles == count_of(es, cards, Count::WithoutRoles),
            built.mana_producers == count_of(es, cards, Count::Producers),
            built.cards@.len() == 0,
            built.pip_requirements@.len() == 0,
        decreases TAG_COUNT - t,
    {
        let tag = Tag::at(t);
        assert(count_of(es, cards, Count::Role(tag)) <= u32::MAX);
        let v = count(deck, index, Count::Role(tag));
        built.roles[t] = v;
        proof {
            assert forall|g: Tag| g.position() < t + 1 implies built.roles@[g.position() as int] == count_of(es, cards, Count::Role(g)) by {
                if g.position() == t {
                    crate::tag::law_tag_position_identifies(g, tag);
                }
            }
        }
        t = t + 1;
    }
    proof {
        assert forall|g: Tag| built.roles@[g.position() as int] == count_of(es, cards, Count::Role(g)) by {
            assert(g.position() < TAG_COUNT);
        }
    }

    let mut identity = ColorSet::colorless();
    let mut i: usize = 0;
    while i < deck.entries.len()
        invariant
            es == deck.entries@,
            cards == index.cards(),
            i <= es.len(),
            built.cards@ == library(es.take(i as int), cards),
            built.pip_requirements@ == requirements(es.take(i as int), cards),
            forall|c: Color| identity.has(c) == identity_of(es.take(i as int), cards, c),
            built.color_sources@.len() == 5,
            forall|c: Color| built.color_sources@[color_slot(c)] == count_of(es, cards, Count::Sources(c)),
            forall|g: Tag| built.roles@[g.position() as int] == count_of(es, cards, Count::Role(g)),
            built.unresolved == count_of(es, cards, Count::Unresolved),
            built.lands == count_of(es, cards, Count::Lands),
            built.creatures == count_of(es, cards, Count::Creatures),
            built.with_roles == count_of(es, cards, Count::WithRoles),
            built.without_roles == count_of(es, cards, Count::WithoutRoles),
            built.mana_producers == count_of(es, cards, Count::Producers),
        decreases es.len() - i,
    {
        assert(es.take(i + 1).drop_last() =~= es.take(i as int));
        let entry = &deck.entries[i];
        push_copies(&mut built.cards, entry, index);
        push_requirements(&mut built.pip_requirements, entry, index);
        if entry.zone != Zone::Sideboard {
            match index.get(entry.oracle_id.as_str()) {
                Some(card) => {
                    identity = identity.union(card.color_identity());
                },
                None => {},
            }
        }
        i = i + 1;
    }
    assert(es.take(i as int) =~= es);
    built.color_identity = identity;
    built
}

} // verus!
