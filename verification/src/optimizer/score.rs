//! The vocabulary a deck is scored in: archetypes and the role groups a deck needs some of.
//!
//! The criteria themselves are probabilities and weighted averages, computed by the
//! application around this library; what stands here is the whole-number part they rest on.

use vstd::prelude::*;

use crate::optimizer::profile::DeckProfile;
use crate::optimizer::simulate::Card;
use crate::tag::Tag;

verus! {

/// What a deck is trying to do, and therefore what curve suits it.
///
/// The curve and role targets that go with each archetype are conventional, not derived: they
/// are the shapes deckbuilders generally aim for.
#[derive(Debug, Clone, Copy, PartialEq, Eq, Structural)]
pub enum Archetype {
    Aggro,
    Midrange,
    Control,
}

impl Archetype {
    pub const ALL: [Archetype; 3] = [Archetype::Aggro, Archetype::Midrange, Archetype::Control];

    /// The name an archetype is shown under.
    pub open spec fn name(self) -> Seq<char> {
        match self {
            Archetype::Aggro => "Aggro"@,
            Archetype::Midrange => "Midrange"@,
            Archetype::Control => "Control"@,
        }
    }

    pub fn label(self) -> (r: &'static str)
        ensures
            r@ == self.name(),
    {
        match self {
            Archetype::Aggro => "Aggro",
            Archetype::Midrange => "Midrange",
            Archetype::Control => "Control",
        }
    }
}

/// A family of roles a deck needs some of.
///
/// Grouped rather than scored tag by tag: a deck does not need a board wipe specifically, it
/// needs answers, and which shape they take is the deckbuilder's business.
#[derive(Debug, Clone, Copy, PartialEq, Eq, Structural)]
pub enum RoleGroup {
    Interaction,
    CardAdvantage,
    Ramp,
}

impl RoleGroup {
    /// The name a group is shown under.
    pub open spec fn name(self) -> Seq<char> {
        match self {
            RoleGroup::Interaction => "interaction"@,
            RoleGroup::CardAdvantage => "card advantage"@,
            RoleGroup::Ramp => "ramp"@,
        }
    }

    /// The tags that count towards a group, broadest first.
    pub open spec fn members(self) -> Seq<Tag> {
        match self {
            RoleGroup::Interaction => seq![Tag::Removal, Tag::SpotRemoval, Tag::BoardWipe, Tag::Counterspell],
            RoleGroup::CardAdvantage => seq![Tag::CardAdvantage, Tag::Draw, Tag::Cantrip],
            RoleGroup::Ramp => seq![Tag::Ramp, Tag::ManaRock, Tag::ManaDork, Tag::LandRamp],
        }
    }

    pub fn label(self) -> (r: &'static str)
        ensures
            r@ == self.name(),
    {
        match self {
            RoleGroup::Interaction => "interaction",
            RoleGroup::CardAdvantage => "card advantage",
            RoleGroup::Ramp => "ramp",
        }
    }

    /// The tags that count towards this group.
    ///
    /// Each list starts with the broadest tag, because a deck's share of a group is the
    /// largest single count among them rather than a sum: the vocabulary is hierarchical, so
    /// the parent already contains its children.
    pub fn tags(self) -> (r: Vec<Tag>)
        ensures
            r@ == self.members(),
    {
        let r = match self {
            RoleGroup::Interaction => vec![Tag::Removal, Tag::SpotRemoval, Tag::BoardWipe, Tag::Counterspell],
            RoleGroup::CardAdvantage => vec![Tag::CardAdvantage, Tag::Draw, Tag::Cantrip],
            RoleGroup::Ramp => vec![Tag::Ramp, Tag::ManaRock, Tag::ManaDork, Tag::LandRamp],
        };
        assert(r@ =~= self.members());
        r
    }
}


/// Number of curve buckets: mana value 0 through 7-or-more.
pub const CURVE_BUCKETS: usize = 8;

/// The earliest turn by which a deck is asked to have made its land drops, whatever its curve.
///
/// Even a deck of nothing but one-drops wants a second land, to double-spell and because a
/// one-land hand is a mulligan waiting to happen.
pub const MIN_HORIZON: usize = 2;

/// The latest turn a land-drop horizon is looked for at: a deck of nothing but the most
/// expensive spells stops here.
pub const MAX_HORIZON: usize = 20;

/// Fewer spells of known role than this and the roles criterion says nothing: scoring a deck
/// as having no removal when nothing in it is tagged would invent a weakness.
pub const MIN_IDENTIFIABLE_SPELLS: u32 = 8;

/// Spells (non-land cards) in `cards`.
pub open spec fn spells(cards: Seq<Card>) -> nat
    decreases cards.len(),
{
    if cards.len() == 0 {
        0
    } else {
        spells(cards.drop_last()) + if !cards.last().is_land {
            1nat
        } else {
            0nat
        }
    }
}

/// Spells in `cards` castable by `turn`: those of mana value at most `turn`.
pub open spec fn affordable(cards: Seq<Card>, turn: int) -> nat
    decreases cards.len(),
{
    if cards.len() == 0 {
        0
    } else {
        affordable(cards.drop_last(), turn) + if !cards.last().is_land && cards.last().mana_value <= turn {
            1nat
        } else {
            0nat
        }
    }
}

/// Nine spells in ten, rounded up: the share of a deck that should be castable by its horizon.
/// Not all of it: a control deck's single seven-drop should not drag the horizon out to turn
/// seven.
pub open spec fn wanted(spell_count: nat) -> nat {
    (9 * spell_count + 9) / 10
}

/// Spells in `cards` whose curve bucket is `bucket`: their mana value, with everything from
/// seven up in the last bucket.
pub open spec fn in_bucket(cards: Seq<Card>, bucket: int) -> nat
    decreases cards.len(),
{
    if cards.len() == 0 {
        0
    } else {
        let c = cards.last();
        let b = if c.mana_value >= CURVE_BUCKETS - 1 {
            CURVE_BUCKETS - 1
        } else {
            c.mana_value as int
        };
        in_bucket(cards.drop_last(), bucket) + if !c.is_land && b == bucket {
            1nat
        } else {
            0nat
        }
    }
}

proof fn lemma_counts_bounded(cards: Seq<Card>, turn: int)
    ensures
        affordable(cards, turn) <= spells(cards) <= cards.len(),
    decreases cards.len(),
{
    if cards.len() > 0 {
        lemma_counts_bounded(cards.drop_last(), turn);
    }
}

fn count_spells(cards: &[Card]) -> (r: u64)
    requires
        cards@.len() <= u64::MAX,
    ensures
        r == spells(cards@),
{
    let mut n: u64 = 0;
    let mut i: usize = 0;
    while i < cards.len()
        invariant
            i <= cards@.len() <= u64::MAX,
            n == spells(cards@.take(i as int)),
            n <= i,
        decreases cards@.len() - i,
    {
        assert(cards@.take(i + 1).drop_last() =~= cards@.take(i as int));
        if !cards[i].is_land {
            n = n + 1;
        }
        i = i + 1;
    }
    assert(cards@.take(i as int) =~= cards@);
    n
}

fn count_affordable(cards: &[Card], turn: usize) -> (r: u64)
    requires
        cards@.len() <= u64::MAX,
    ensures
        r == affordable(cards@, turn as int),
{
    let mut n: u64 = 0;
    let mut i: usize = 0;
    while i < cards.len()
        invariant
            i <= cards@.len() <= u64::MAX,
            n == affordable(cards@.take(i as int), turn as int),
            n <= i,
        decreases cards@.len() - i,
    {
        assert(cards@.take(i + 1).drop_last() =~= cards@.take(i as int));
        if !cards[i].is_land && cards[i].mana_value as usize <= turn {
            n = n + 1;
        }
        i = i + 1;
    }
    assert(cards@.take(i as int) =~= cards@);
    n
}

/// The turn by which the deck needs its lands: the earliest turn from [`MIN_HORIZON`] on by
/// which nine in ten of its spells are castable, and [`MAX_HORIZON`] when no earlier turn is.
///
/// The horizon belongs to the deck, not to the criterion: a burn list topping out at three
/// mana has no use for a fourth land, and asking every deck for one punished it for missing a
/// drop it does not need.
pub fn land_drop_horizon(profile: &DeckProfile) -> (r: usize)
    requires
        profile.cards@.len() <= u64::MAX,
    ensures
        MIN_HORIZON <= r <= MAX_HORIZON,
        r < MAX_HORIZON ==> affordable(profile.cards@, r as int) >= wanted(spells(profile.cards@)),
        forall|t: int| MIN_HORIZON <= t < r ==> affordable(profile.cards@, t) < wanted(spells(profile.cards@)),
{
    let cards = profile.cards.as_slice();
    let n = count_spells(cards);
    let want: u128 = (9 * (n as u128) + 9) / 10;
    let mut turn: usize = MIN_HORIZON;
    loop
        invariant
            cards@ == profile.cards@,
            cards@.len() <= u64::MAX,
            n == spells(cards@),
            want == wanted(spells(cards@)),
            MIN_HORIZON <= turn <= MAX_HORIZON,
            forall|t: int| MIN_HORIZON <= t < turn ==> affordable(cards@, t) < wanted(spells(cards@)),
        decreases MAX_HORIZON - turn,
    {
        let affordable_now = count_affordable(cards, turn);
        if affordable_now as u128 >= want {
            return turn;
        }
        if turn >= MAX_HORIZON {
            return turn;
        }
        turn = turn + 1;
    }
}

/// The deck's spells counted by curve bucket: index `b` holds the spells of mana value `b`, and
/// the last bucket everything from seven up.
pub fn spell_curve(profile: &DeckProfile) -> (r: Vec<u32>)
    requires
        profile.cards@.len() <= u32::MAX,
    ensures
        r@.len() == CURVE_BUCKETS,
        forall|b: int| 0 <= b < CURVE_BUCKETS ==> r@[b] == in_bucket(profile.cards@, b),
{
    let cards = profile.cards.as_slice();
    let mut counts: Vec<u32> = vec![0, 0, 0, 0, 0, 0, 0, 0];
    let mut i: usize = 0;
    while i < cards.len()
        invariant
            cards@ == profile.cards@,
            i <= cards@.len() <= u32::MAX,
            counts@.len() == CURVE_BUCKETS,
            forall|b: int| 0 <= b < CURVE_BUCKETS ==> #[trigger] counts@[b] == in_bucket(cards@.take(i as int), b),
            forall|b: int| 0 <= b < CURVE_BUCKETS ==> #[trigger] counts@[b] <= i,
        decreases cards@.len() - i,
    {
        let ghost before = counts@;
        assert(cards@.take(i + 1).drop_last() =~= cards@.take(i as int));
        let card = cards[i];
        if !card.is_land {
            let b: usize = if card.mana_value as usize >= CURVE_BUCKETS - 1 {
                CURVE_BUCKETS - 1
            } else {
                card.mana_value as usize
            };
            let v = counts[b] + 1;
            counts.set(b, v);
        }
        i = i + 1;
        assert forall|b: int| 0 <= b < CURVE_BUCKETS implies #[trigger] counts@[b] == in_bucket(cards@.take(i as int), b) by {
            assert(cards@.take(i as int).last() == card);
        }
    }
    assert(cards@.take(i as int) =~= cards@);
    counts
}

} // verus!
