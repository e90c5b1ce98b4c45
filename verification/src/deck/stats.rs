//! Descriptive numbers about a deck.
//!
//! Description only: nothing here judges a deck. Deciding that a curve is wrong is the
//! optimizer's job; this just counts what is there so the editor can draw it.

use vstd::prelude::*;

use crate::color::{Color, ColorSet};
use crate::data::card::ArchivedCard;
use crate::data::catalog::Catalog;
use crate::deck::deck::{Deck, DeckEntry, Zone};
use crate::deck::legality::card_named;
use crate::mana::{parse_cost, pips, ManaSymbol};
use crate::text::has_sub;

verus! {

/// Mana values above this share the top bucket. Individual counts past it are noise on a
/// chart, and every deckbuilding site collapses them the same way.
pub const CURVE_CAP: u32 = 7;

/// One column of the mana curve.
#[derive(Debug, Clone, Copy, PartialEq, Eq, Structural)]
pub struct CurveBucket {
    pub mana_value: u32,
    pub count: u32,
    /// True for the top bucket, which holds everything at or above it.
    pub is_overflow: bool,
}

/// How many symbols of each colour the deck's costs ask for.
#[derive(Debug, Clone, Copy, PartialEq, Eq, Structural)]
pub struct ColorPips {
    /// WUBRG letter.
    pub color: char,
    /// Total coloured symbols across every copy: the input Karsten's land formulas want,
    /// which is why it counts pips rather than cards.
    pub pips: u32,
    /// Cards asking for this colour at all.
    pub cards: u32,
}

/// Counted properties of a deck.
#[derive(Debug, Clone)]
pub struct DeckStats {
    /// Main deck plus command zone. The sideboard is excluded: it is not what you draw from.
    pub total_cards: u32,
    pub lands: u32,
    pub creatures: u32,
    /// Buckets 0 through [`CURVE_CAP`], always all present so a chart has no gaps.
    pub curve: Vec<CurveBucket>,
    /// Non-land cards, which the mean mana value is taken over. Lands would drag it towards
    /// zero and say nothing.
    pub non_land_cards: u32,
    /// Twice the total mana value of the non-land cards; over twice `non_land_cards` it is
    /// their mean mana value.
    pub mana_value_halves_total: u64,
    pub color_pips: Vec<ColorPips>,
    /// Combined colour identity, as WUBRG letters.
    pub color_identity: String,
    /// Cards the catalog could not resolve, so the numbers can be labelled incomplete rather
    /// than quietly wrong.
    pub unresolved_cards: u32,
}

/// One of the numbers a deck is counted for.
#[derive(Debug, Clone, Copy, PartialEq, Eq, Structural)]
pub enum Measure {
    Unresolved,
    Total,
    Lands,
    Creatures,
    /// Non-land cards in one curve bucket.
    Bucket(u32),
    NonLand,
    /// Twice the mana value of the non-land cards.
    Halves,
    Pips(Color),
    CardsWith(Color),
}

/// The mana symbols of a card's castable cost: nothing for a split card's joined cost, and
/// `None` when the cost does not parse.
pub open spec fn cost_symbols(card: ArchivedCard) -> Option<Seq<ManaSymbol>> {
    if has_sub(card.mana_cost@, " // "@) {
        Some(Seq::empty())
    } else {
        match parse_cost(card.mana_cost@) {
            Ok(s) => Some(s),
            Err(_) => None,
        }
    }
}

/// Coloured symbols of `c` in a card's cost, as [`crate::mana::ManaCost::pip_count`] gives
/// them.
pub open spec fn pip_weight(card: ArchivedCard, c: Color) -> nat {
    match cost_symbols(card) {
        Some(s) => pips(s, c) % 0x1_0000_0000,
        None => 0,
    }
}

/// What one entry adds to a measure. The sideboard adds nothing; lands stay out of the curve
/// and out of the mean.
pub open spec fn weight(m: Measure, cards: Seq<ArchivedCard>, e: DeckEntry) -> nat {
    let q = e.quantity as nat;
    if e.zone == Zone::Sideboard {
        0
    } else {
        match card_named(cards, e.oracle_id@) {
            None => if m == Measure::Unresolved {
                q
            } else {
                0
            },
            Some(card) => {
                let land = card.typed("Land"@);
                match m {
                    Measure::Unresolved => 0,
                    Measure::Total => q,
                    Measure::Lands => if land {
                        q
                    } else {
                        0
                    },
                    Measure::Creatures => if card.typed("Creature"@) {
                        q
                    } else {
                        0
                    },
                    Measure::Bucket(b) => if !land && (if card.mana_value < CURVE_CAP {
                        card.mana_value
                    } else {
                        CURVE_CAP
                    }) == b {
                        q
                    } else {
                        0
                    },
                    Measure::NonLand => if !land {
                        q
                    } else {
                        0
                    },
                    Measure::Halves => if !land {
                        card.mana_value_halves as nat * q
                    } else {
                        0
                    },
                    Measure::Pips(c) => pip_weight(card, c) * q,
                    Measure::CardsWith(c) => if pip_weight(card, c) > 0 {
                        q
                    } else {
                        0
                    },
                }
            },
        }
    }
}

/// A measure over a list of entries.
pub open spec fn tally(es: Seq<DeckEntry>, cards: Seq<ArchivedCard>, m: Measure) -> nat
    decreases es.len(),
{
    if es.len() == 0 {
        0
    } else {
        tally(es.drop_last(), cards, m) + weight(m, cards, es.last())
    }
}

/// True when a counted card of the deck has `c` in its color identity.
pub open spec fn identity_in(es: Seq<DeckEntry>, cards: Seq<ArchivedCard>, c: Color) -> bool
    decreases es.len(),
{
    if es.len() == 0 {
        false
    } else {
        identity_in(es.drop_last(), cards, c) || (es.last().zone != Zone::Sideboard && (card_named(
            cards,
            es.last().oracle_id@,
        ) matches Some(card) && crate::color::bit_set(card.color_identity, c.position())))
    }
}

fn pip_weight_of(card: &ArchivedCard, c: Color) -> (r: u32)
    ensures
        r == pip_weight(*card, c),
{
    match card.mana_cost() {
        Ok(cost) => cost.pip_count(c),
        Err(_) => 0,
    }
}

fn weight_of(m: Measure, entry: &DeckEntry, catalog: &Catalog) -> (r: u64)
    ensures
        r == weight(m, catalog.cards_view(), *entry),
{
    let q = entry.quantity as u64;
    if entry.zone == Zone::Sideboard {
        return 0;
    }
    let card = match catalog.find_by_oracle_id(entry.oracle_id.as_str()) {
        Some(card) => card,
        None => {
            return if m == Measure::Unresolved {
                q
            } else {
                0
            };
        },
    };
    let land = card.has_type("Land");
    match m {
        Measure::Unresolved => 0,
        Measure::Total => q,
        Measure::Lands => if land {
            q
        } else {
            0
        },
        Measure::Creatures => if card.has_type("Creature") {
            q
        } else {
            0
        },
        Measure::Bucket(b) => {
            let bucket = if card.mana_value < CURVE_CAP {
                card.mana_value
            } else {
                CURVE_CAP
            };
            if !land && bucket == b {
                q
            } else {
                0
            }
        },
        Measure::NonLand => if !land {
            q
        } else {
            0
        },
        Measure::Halves => if !land {
            assert(card.mana_value_halves as nat * q <= 0xffff_ffff * 0xffff_ffff) by (nonlinear_arith)
                requires
                    card.mana_value_halves <= 0xffff_ffff,
                    q <= 0xffff_ffff,
            ;
            card.mana_value_halves as u64 * q
        } else {
            0
        },
        Measure::Pips(c) => {
            let p = pip_weight_of(card, c) as u64;
            assert(p * q <= 0xffff_ffff * 0xffff_ffff) by (nonlinear_arith)
                requires
                    p <= 0xffff_ffff,
                    q <= 0xffff_ffff,
            ;
            p * q
        },
        Measure::CardsWith(c) => if pip_weight_of(card, c) > 0 {
            q
        } else {
            0
        },
    }
}

proof fn lemma_tally_prefix(es: Seq<DeckEntry>, cards: Seq<ArchivedCard>, m: Measure, k: int)
    requires
        0 <= k <= es.len(),
    ensures
        tally(es.take(k), cards, m) <= tally(es, cards, m),
    decreases es.len() - k,
{
    if k < es.len() {
        lemma_tally_prefix(es, cards, m, k + 1);
        assert(es.take(k + 1).drop_last() =~= es.take(k));
    } else {
        assert(es.take(k) =~= es);
    }
}

/// A measure of a deck.
fn measure(deck: &Deck, catalog: &Catalog, m: Measure) -> (r: u64)
    requires
        tally(deck.entries@, catalog.cards_view(), m) <= u64::MAX,
    ensures
        r == tally(deck.entries@, catalog.cards_view(), m),
{
    let ghost es = deck.entries@;
    let ghost cards = catalog.cards_view();
    let mut total: u64 = 0;
    let mut i: usize = 0;
    while i < deck.entries.len()
        invariant
            es == deck.entries@,
            cards == catalog.cards_view(),
            tally(es, cards, m) <= u64::MAX,
            i <= es.len(),
            total == tally(es.take(i as int), cards, m),
        decreases es.len() - i,
    {
        assert(es.take(i + 1).drop_last() =~= es.take(i as int));
        proof {
            lemma_tally_prefix(es, cards, m, i + 1);
        }
        total = total + weight_of(m, &deck.entries[i], catalog);
        i = i + 1;
    }
    assert(es.take(i as int) =~= es);
    total
}

/// The combined identity of the counted cards.
fn identity_of(deck: &Deck, catalog: &Catalog) -> (r: ColorSet)
    ensures
        forall|c: Color| r.has(c) == identity_in(deck.entries@, catalog.cards_view(), c),
{
    let ghost es = deck.entries@;
    let ghost cards = catalog.cards_view();
    let mut identity = ColorSet::colorless();
    let mut i: usize = 0;
    while i < deck.entries.len()
        invariant
            es == deck.entries@,
            cards == catalog.cards_view(),
            i <= es.len(),
            forall|c: Color| identity.has(c) == identity_in(es.take(i as int), cards, c),
        decreases es.len() - i,
    {
        assert(es.take(i + 1).drop_last() =~= es.take(i as int));
        let entry = &deck.entries[i];
        if entry.zone != Zone::Sideboard {
            match catalog.find_by_oracle_id(entry.oracle_id.as_str()) {
                Some(card) => {
                    identity = identity.union(card.color_identity());
                },
                None => {},
            }
        }
        i = i + 1;
    }
    assert(es.take(i as int) =~= es);
    identity
}

/// True when every count of a deck fits the counters: the cards' numbers in 32 bits, twice
/// their mana value in 64.
pub open spec fn countable(es: Seq<DeckEntry>, cards: Seq<ArchivedCard>) -> bool {
    &&& forall|m: Measure| m != Measure::Halves ==> #[trigger] tally(es, cards, m) <= u32::MAX
    &&& tally(es, cards, Measure::Halves) <= u64::MAX
}

/// Counts a deck.
pub fn stats(deck: &Deck, catalog: &Catalog) -> (r: DeckStats)
    requires
        countable(deck.entries@, catalog.cards_view()),
    ensures
        ({
            let es = deck.entries@;
            let cards = catalog.cards_view();
            &&& r.total_cards == tally(es, cards, Measure::Total)
            &&& r.lands == tally(es, cards, Measure::Lands)
            &&& r.creatures == tally(es, cards, Measure::Creatures)
            &&& r.curve@.len() == CURVE_CAP + 1
            &&& forall|b: int| 0 <= b <= CURVE_CAP ==> (#[trigger] r.curve@[b]) == (CurveBucket {
                mana_value: b as u32,
                count: tally(es, cards, Measure::Bucket(b as u32)) as u32,
                is_overflow: b == CURVE_CAP,
            })
            &&& r.non_land_cards == tally(es, cards, Measure::NonLand)
            &&& r.mana_value_halves_total == tally(es, cards, Measure::Halves)
            &&& r.color_pips@.len() == 5
            &&& forall|k: int| 0 <= k < 5 ==> (#[trigger] r.color_pips@[k]) == (ColorPips {
                color: crate::color::wubrg()[k].letter(),
                pips: tally(es, cards, Measure::Pips(crate::color::wubrg()[k])) as u32,
                cards: tally(es, cards, Measure::CardsWith(crate::color::wubrg()[k])) as u32,
            })
            &&& r.color_identity@ == crate::color::render(
                identity_in(es, cards, Color::White),
                identity_in(es, cards, Color::Blue),
                identity_in(es, cards, Color::Black),
                identity_in(es, cards, Color::Red),
                identity_in(es, cards, Color::Green),
            )
            &&& r.unresolved_cards == tally(es, cards, Measure::Unresolved)
        }),
{
    let ghost es = deck.entries@;
    let ghost cards = catalog.cards_view();
    assert(tally(es, cards, Measure::Total) <= u32::MAX);
    assert(tally(es, cards, Measure::Lands) <= u32::MAX);
    assert(tally(es, cards, Measure::Creatures) <= u32::MAX);
    assert(tally(es, cards, Measure::NonLand) <= u32::MAX);
    assert(tally(es, cards, Measure::Unresolved) <= u32::MAX);
    let total_cards = measure(deck, catalog, Measure::Total) as u32;
    let lands = measure(deck, catalog, Measure::Lands) as u32;
    let creatures = measure(deck, catalog, Measure::Creatures) as u32;
    let non_land_cards = measure(deck, catalog, Measure::NonLand) as u32;
    let mana_value_halves_total = measure(deck, catalog, Measure::Halves);
    let unresolved_cards = measure(deck, catalog, Measure::Unresolved) as u32;

    let mut curve: Vec<CurveBucket> = Vec::new();
    let mut b: u32 = 0;
    while b <= CURVE_CAP
        invariant
            es == deck.entries@,
            cards == catalog.cards_view(),
            countable(es, cards),
            b <= CURVE_CAP + 1,
            curve@.len() == b,
            forall|k: int| 0 <= k < b ==> (#[trigger] curve@[k]) == (CurveBucket {
                mana_value: k as u32,
                count: tally(es, cards, Measure::Bucket(k as u32)) as u32,
                is_overflow: k == CURVE_CAP,
            }),
        decreases CURVE_CAP + 1 - b,
    {
        assert(tally(es, cards, Measure::Bucket(b)) <= u32::MAX);
        let count = measure(deck, catalog, Measure::Bucket(b)) as u32;
        curve.push(CurveBucket { mana_value: b, count, is_overflow: b == CURVE_CAP });
        b = b + 1;
    }

    let colors = [Color::White, Color::Blue, Color::Black, Color::Red, Color::Green];
    let mut color_pips: Vec<ColorPips> = Vec::new();
    let mut k: usize = 0;
    while k < 5
        invariant
            es == deck.entries@,
            cards == catalog.cards_view(),
            countable(es, cards),
            colors@ == crate::color::wubrg(),
            k <= 5,
            color_pips@.len() == k,
            forall|j: int| 0 <= j < k ==> (#[trigger] color_pips@[j]) == (ColorPips {
                color: crate::color::wubrg()[j].letter(),
                pips: tally(es, cards, Measure::Pips(crate::color::wubrg()[j])) as u32,
                cards: tally(es, cards, Measure::CardsWith(crate::color::wubrg()[j])) as u32,
            }),
        decreases 5 - k,
    {
        let c = colors[k];
        assert(tally(es, cards, Measure::Pips(c)) <= u32::MAX);
        assert(tally(es, cards, Measure::CardsWith(c)) <= u32::MAX);
        let pips = measure(deck, catalog, Measure::Pips(c)) as u32;
        let with = measure(deck, catalog, Measure::CardsWith(c)) as u32;
        color_pips.push(ColorPips { color: c.symbol(), pips, cards: with });
        k = k + 1;
    }

    let identity = identity_of(deck, catalog);
    DeckStats {
        total_cards,
        lands,
        creatures,
        curve,
        non_land_cards,
        mana_value_halves_total,
        color_pips,
        color_identity: identity.to_string(),
        unresolved_cards,
    }
}

/// The curve's buckets over one list of entries, added up.
pub open spec fn curve_sum(es: Seq<DeckEntry>, cards: Seq<ArchivedCard>) -> nat {
    tally(es, cards, Measure::Bucket(0)) + tally(es, cards, Measure::Bucket(1)) + tally(
        es,
        cards,
        Measure::Bucket(2),
    ) + tally(es, cards, Measure::Bucket(3)) + tally(es, cards, Measure::Bucket(4)) + tally(
        es,
        cards,
        Measure::Bucket(5),
    ) + tally(es, cards, Measure::Bucket(6)) + tally(es, cards, Measure::Bucket(7))
}

/// Every non-land card sits in exactly one bucket of the curve, the top one taking every
/// mana value at or above it: the buckets add up to the non-land cards.
pub proof fn law_curve_counts_every_non_land(es: Seq<DeckEntry>, cards: Seq<ArchivedCard>)
    ensures
        curve_sum(es, cards) == tally(es, cards, Measure::NonLand),
    decreases es.len(),
{
    if es.len() > 0 {
        law_curve_counts_every_non_land(es.drop_last(), cards);
    }
}

/// The cards counted are the lands and the non-lands; the sideboard is in neither.
pub proof fn law_total_is_lands_and_non_lands(es: Seq<DeckEntry>, cards: Seq<ArchivedCard>)
    ensures
        tally(es, cards, Measure::Total) == tally(es, cards, Measure::Lands) + tally(
            es,
            cards,
            Measure::NonLand,
        ),
    decreases es.len(),
{
    if es.len() > 0 {
        law_total_is_lands_and_non_lands(es.drop_last(), cards);
    }
}

/// Each counted non-land card is charted at its own mana value, and only there, up to the top
/// bucket, which takes every mana value of [`CURVE_CAP`] and above; lands and sideboard cards
/// are charted nowhere.
pub proof fn law_a_card_is_charted_at_its_mana_value(cards: Seq<ArchivedCard>, e: DeckEntry, card: ArchivedCard, b: u32)
    requires
        card_named(cards, e.oracle_id@) == Some(card),
    ensures
        e.zone != Zone::Sideboard && !card.typed("Land"@) && card.mana_value < CURVE_CAP
            ==> weight(Measure::Bucket(b), cards, e) == (if b == card.mana_value {
            e.quantity as nat
        } else {
            0
        }),
        e.zone != Zone::Sideboard && !card.typed("Land"@) && card.mana_value >= CURVE_CAP
            ==> weight(Measure::Bucket(b), cards, e) == (if b == CURVE_CAP {
            e.quantity as nat
        } else {
            0
        }),
        e.zone == Zone::Sideboard || card.typed("Land"@) ==> weight(Measure::Bucket(b), cards, e)
            == 0,
{
}
} // verus!
