//! Goldfishing a deck: drawing opening hands and seeing what happens.
//!
//! "Goldfish" because there is no opponent: nothing interacts, nothing gets countered. That
//! makes the numbers optimistic in absolute terms and useful in relative ones: the point is to
//! compare two versions of the same deck, not to predict a win rate.
//!
//! Everything here is seeded. The same deck and seed give the same numbers, which matters
//! because the optimizer compares scores thousands of times and would otherwise chase noise.
//! The games are counted here; turning the counts into shares is the application's.

use vstd::prelude::*;

use crate::optimizer::rng::{fisher_yates, seeded, Rng, DEFAULT_INCREMENT};

verus! {

/// How many games to play. Ten thousand puts the standard error on a probability at well under
/// a percentage point, which is finer than any decision made from it.
pub const DEFAULT_GAMES: u32 = 10_000;

/// The size of an opening hand.
pub const OPENING_HAND: u32 = 7;

/// One card, reduced to what a goldfish game actually needs.
#[derive(Debug, Clone, Copy, PartialEq, Eq, Structural)]
pub struct Card {
    pub is_land: bool,
    /// Rounded mana value. Lands are 0 and never counted.
    pub mana_value: u32,
}

/// How the mulligan is decided.
///
/// The London mulligan draws a fresh seven and bottoms cards equal to the number of mulligans
/// taken, so a hand's land count is what decides keepability.
#[derive(Debug, Clone, Copy, PartialEq, Eq, Structural)]
pub struct MulliganRule {
    pub minimum_lands: u32,
    pub maximum_lands: u32,
    /// Hands are never mulliganed below this size; past it you keep whatever you have.
    pub keep_at_or_below: u32,
}

impl MulliganRule {
    /// The keepable band for a deck size: a 100-card singleton deck runs more lands and draws
    /// them less reliably, so its band sits higher than a 60-card deck's.
    pub open spec fn band(deck_size: u32) -> MulliganRule {
        if deck_size >= 80 {
            MulliganRule { minimum_lands: 3, maximum_lands: 6, keep_at_or_below: 5 }
        } else {
            MulliganRule { minimum_lands: 2, maximum_lands: 5, keep_at_or_below: 5 }
        }
    }

    /// True when a hand of this size with this many lands is kept.
    pub open spec fn keeps_spec(self, hand_size: u32, lands: u32) -> bool {
        hand_size <= self.keep_at_or_below || (lands >= self.minimum_lands && lands
            <= self.maximum_lands)
    }

    /// Sensible defaults for a deck size.
    pub fn for_deck_size(deck_size: u32) -> (r: MulliganRule)
        ensures
            r == Self::band(deck_size),
    {
        if deck_size >= 80 {
            MulliganRule { minimum_lands: 3, maximum_lands: 6, keep_at_or_below: 5 }
        } else {
            MulliganRule { minimum_lands: 2, maximum_lands: 5, keep_at_or_below: 5 }
        }
    }

    /// True when a hand is kept: small enough, or with a land count in the band.
    pub fn keeps(&self, hand_size: u32, lands: u32) -> (r: bool)
        ensures
            r == self.keeps_spec(hand_size, lands),
    {
        hand_size <= self.keep_at_or_below || (lands >= self.minimum_lands && lands
            <= self.maximum_lands)
    }
}

/// Settings for a run.
#[derive(Debug, Clone, Copy, PartialEq, Eq, Structural)]
pub struct SimulationSettings {
    pub games: u32,
    pub on_the_play: bool,
    /// How many turns to play out.
    pub turns: u32,
    pub mulligan: MulliganRule,
    /// Fixed so a score is reproducible. Vary it only to check a result is not a seed artifact.
    pub seed: u64,
}

impl SimulationSettings {
    pub fn for_deck_size(deck_size: u32) -> (r: SimulationSettings)
        ensures
            r == (SimulationSettings {
                games: DEFAULT_GAMES,
                on_the_play: true,
                turns: 5,
                mulligan: MulliganRule::band(deck_size),
                seed: 0x5EED,
            }),
    {
        SimulationSettings {
            games: DEFAULT_GAMES,
            on_the_play: true,
            turns: 5,
            mulligan: MulliganRule::for_deck_size(deck_size),
            seed: 0x5EED,
        }
    }
}

/// Lands among some cards.
pub open spec fn lands_in(cards: Seq<Card>) -> nat
    decreases cards.len(),
{
    if cards.len() == 0 {
        0
    } else {
        lands_in(cards.drop_last()) + (if cards.last().is_land {
            1nat
        } else {
            0nat
        })
    }
}

/// The top of a library: the opening seven, or all of it when it is smaller.
pub open spec fn top(library: Seq<Card>) -> Seq<Card> {
    if library.len() < OPENING_HAND {
        library
    } else {
        library.take(OPENING_HAND as int)
    }
}

/// The hand size after some mulligans: seven less one per mulligan, never below one.
pub open spec fn hand_size_after(mulligans: u32) -> u32 {
    if mulligans >= 6 {
        1
    } else {
        (OPENING_HAND - mulligans) as u32
    }
}

/// The London mulligan: shuffle and draw seven until a hand is kept, or the hand is down to
/// one card. The library, generator state and mulligans taken at the end.
pub open spec fn deal(library: Seq<Card>, state: u64, increment: u64, rule: MulliganRule, mulligans: u32) -> (Seq<Card>, u64, u32)
    decreases 6 - mulligans,
{
    let (shuffled, next) = fisher_yates(library, state, increment, library.len());
    let size = hand_size_after(mulligans);
    if rule.keeps_spec(size, lands_in(top(shuffled)) as u32) || size <= 1 || mulligans >= 6 {
        (shuffled, next, mulligans)
    } else {
        deal(shuffled, next, increment, rule, (mulligans + 1) as u32, )
    }
}

/// The first land of a hand.
pub open spec fn first_land(hand: Seq<Card>, n: nat) -> Option<int>
    decreases n,
{
    if n == 0 {
        None
    } else {
        match first_land(hand, (n - 1) as nat) {
            Some(i) => Some(i),
            None => if hand[n - 1].is_land {
                Some(n - 1)
            } else {
                None
            },
        }
    }
}

/// The costliest spell among the first `n` cards of a hand, the last of them on a tie.
pub open spec fn top_spell(hand: Seq<Card>, n: nat) -> Option<int>
    decreases n,
{
    if n == 0 {
        None
    } else {
        let prev = top_spell(hand, (n - 1) as nat);
        if hand[n - 1].is_land {
            prev
        } else {
            match prev {
                None => Some(n - 1),
                Some(p) => if hand[n - 1].mana_value >= hand[p].mana_value {
                    Some(n - 1)
                } else {
                    Some(p)
                },
            }
        }
    }
}

/// The card a player bottoms from a hand: an excess land while there are more than the band
/// allows, otherwise the most expensive spell; the last card when neither exists.
pub open spec fn victim(hand: Seq<Card>, rule: MulliganRule) -> Option<int> {
    if lands_in(hand) > rule.maximum_lands {
        first_land(hand, hand.len())
    } else {
        top_spell(hand, hand.len())
    }
}

/// A hand after bottoming `count` cards, worst first, never below one card.
pub open spec fn bottomed(hand: Seq<Card>, count: nat, rule: MulliganRule) -> Seq<Card>
    decreases count,
{
    if count == 0 || hand.len() <= 1 {
        hand
    } else {
        let rest = match victim(hand, rule) {
            Some(i) => hand.remove(i),
            None => hand.drop_last(),
        };
        bottomed(rest, (count - 1) as nat, rule)
    }
}

/// Where a game stands during play.
pub struct Play {
    pub lands_in_play: nat,
    pub hand_lands: nat,
    /// Mana values of the spells in hand, in the order they came.
    pub spells: Seq<u32>,
    pub still_hitting_drops: bool,
    pub next_draw: nat,
    pub land_drops: Seq<bool>,
    pub on_curve: Seq<bool>,
}

/// The first spell in hand costing exactly `mana`, when `mana` is more than zero.
pub open spec fn castable(spells: Seq<u32>, mana: nat, n: nat) -> Option<int>
    decreases n,
{
    if n == 0 {
        None
    } else {
        match castable(spells, mana, (n - 1) as nat) {
            Some(i) => Some(i),
            None => if spells[n - 1] == mana && mana > 0 {
                Some(n - 1)
            } else {
                None
            },
        }
    }
}

/// One turn: draw (not on turn one on the play), play a land if there is one, then cast a
/// spell costing exactly the mana in play, which is what "on curve" means.
pub open spec fn turn(p: Play, library: Seq<Card>, turn: nat, on_the_play: bool) -> Play {
    let draws = !(turn == 1 && on_the_play) && p.next_draw < library.len();
    let card = library[p.next_draw as int];
    let hand_lands = if draws && card.is_land { p.hand_lands + 1 } else { p.hand_lands };
    let spells = if draws && !card.is_land { p.spells.push(card.mana_value) } else { p.spells };
    let next_draw = if draws { p.next_draw + 1 } else { p.next_draw };
    let plays = hand_lands > 0;
    let lands_in_play = if plays { p.lands_in_play + 1 } else { p.lands_in_play };
    let hand_lands2 = if plays { (hand_lands - 1) as nat } else { hand_lands };
    let still = p.still_hitting_drops && plays;
    let cast = castable(spells, lands_in_play, spells.len());
    Play {
        lands_in_play,
        hand_lands: hand_lands2,
        spells: match cast {
            Some(i) => spells.remove(i),
            None => spells,
        },
        still_hitting_drops: still,
        next_draw,
        land_drops: p.land_drops.push(still && lands_in_play == turn),
        on_curve: p.on_curve.push(cast is Some),
    }
}

/// A game after its first `n` turns.
pub open spec fn played(start: Play, library: Seq<Card>, on_the_play: bool, n: nat) -> Play
    decreases n,
{
    if n == 0 {
        start
    } else {
        turn(played(start, library, on_the_play, (n - 1) as nat), library, n, on_the_play)
    }
}

/// The spells of a hand, as mana values in hand order.
pub open spec fn spell_values(hand: Seq<Card>) -> Seq<u32>
    decreases hand.len(),
{
    if hand.len() == 0 {
        Seq::empty()
    } else if hand.last().is_land {
        spell_values(hand.drop_last())
    } else {
        spell_values(hand.drop_last()).push(hand.last().mana_value)
    }
}

/// What one game measured.
#[derive(Debug, Clone)]
pub struct GameOutcome {
    pub mulligans: u32,
    pub opening_lands: u32,
    pub opening_hand_size: u32,
    pub made_land_drops: Vec<bool>,
    pub on_curve: Vec<bool>,
}

/// How a dealt library plays out: the hand kept after bottoming, then the turns. Drawn cards
/// come off the shuffled library after the opening seven; the bottomed cards are ignored,
/// which slightly understates the library, and by less than the noise at ten thousand games.
pub open spec fn outcome_of(library: Seq<Card>, mulligans: u32, settings: SimulationSettings, turns: nat) -> (u32, u32, Seq<bool>, Seq<bool>) {
    let hand = bottomed(top(library), mulligans as nat, settings.mulligan);
    let start = Play {
        lands_in_play: 0,
        hand_lands: lands_in(hand),
        spells: spell_values(hand),
        still_hitting_drops: true,
        next_draw: OPENING_HAND as nat,
        land_drops: Seq::empty(),
        on_curve: Seq::empty(),
    };
    let end = played(start, library, settings.on_the_play, turns);
    (lands_in(hand) as u32, hand.len() as u32, end.land_drops, end.on_curve)
}

fn count_lands(cards: &Vec<Card>, n: usize) -> (r: u32)
    requires
        n <= cards@.len(),
        n <= u32::MAX,
    ensures
        r == lands_in(cards@.take(n as int)),
        r <= n,
{
    let mut total: u32 = 0;
    let mut i: usize = 0;
    while i < n
        invariant
            n <= cards@.len(),
            n <= u32::MAX,
            i <= n,
            total == lands_in(cards@.take(i as int)),
            total <= i,
        decreases n - i,
    {
        assert(cards@.take(i + 1).drop_last() =~= cards@.take(i as int));
        if cards[i].is_land {
            total = total + 1;
        }
        i = i + 1;
    }
    total
}

proof fn lemma_lands_bound(cards: Seq<Card>)
    ensures
        lands_in(cards) <= cards.len(),
    decreases cards.len(),
{
    if cards.len() > 0 {
        lemma_lands_bound(cards.drop_last());
    }
}

/// Puts `count` cards on the bottom, worst first.
///
/// Excess lands go before spells, then the most expensive spells: those are the cards a real
/// player bottoms. A London mulligan that bottomed at random would make mulliganing look far
/// worse than it is.
pub fn bottom_cards(hand: &mut Vec<Card>, count: u32, rule: &MulliganRule)
    requires
        old(hand)@.len() <= u32::MAX,
    ensures
        final(hand)@ == bottomed(old(hand)@, count as nat, *rule),
{
    let mut left: u32 = count;
    while left > 0
        invariant
            hand@.len() <= u32::MAX,
            bottomed(hand@, left as nat, *rule) == bottomed(old(hand)@, count as nat, *rule),
        decreases left,
    {
        if hand.len() <= 1 {
            return;
        }
        let n = hand.len();
        let lands = count_lands(hand, n);
        assert(hand@.take(n as int) =~= hand@);
        let victim = if lands > rule.maximum_lands {
            first_land_of(hand)
        } else {
            top_spell_of(hand)
        };
        match victim {
            Some(index) => {
                hand.remove(index);
            },
            None => {
                hand.pop();
            },
        }
        left = left - 1;
    }
}

fn first_land_of(hand: &Vec<Card>) -> (r: Option<usize>)
    ensures
        r matches Some(i) ==> first_land(hand@, hand@.len()) == Some(i as int) && i < hand@.len(),
        r is None ==> first_land(hand@, hand@.len()) is None,
{
    let mut i: usize = 0;
    while i < hand.len()
        invariant
            i <= hand@.len(),
            first_land(hand@, i as nat) is None,
        decreases hand@.len() - i,
    {
        if hand[i].is_land {
            proof {
                lemma_first_land_stays(hand@, (i + 1) as nat, hand@.len());
            }
            return Some(i);
        }
        i = i + 1;
    }
    None
}

proof fn lemma_first_land_stays(hand: Seq<Card>, k: nat, n: nat)
    requires
        k <= n,
        first_land(hand, k) is Some,
    ensures
        first_land(hand, n) == first_land(hand, k),
    decreases n - k,
{
    if k < n {
        lemma_first_land_stays(hand, k, (n - 1) as nat);
    }
}

fn top_spell_of(hand: &Vec<Card>) -> (r: Option<usize>)
    ensures
        r matches Some(i) ==> top_spell(hand@, hand@.len()) == Some(i as int) && i < hand@.len(),
        r is None ==> top_spell(hand@, hand@.len()) is None,
{
    let mut best: Option<usize> = None;
    let mut i: usize = 0;
    while i < hand.len()
        invariant
            i <= hand@.len(),
            best matches Some(b) ==> top_spell(hand@, i as nat) == Some(b as int) && b < i,
            best is None ==> top_spell(hand@, i as nat) is None,
        decreases hand@.len() - i,
    {
        if !hand[i].is_land {
            best = match best {
                None => Some(i),
                Some(b) => if hand[i].mana_value >= hand[b].mana_value {
                    Some(i)
                } else {
                    Some(b)
                },
            };
        }
        i = i + 1;
    }
    best
}

fn values_of_spells(hand: &Vec<Card>) -> (r: Vec<u32>)
    ensures
        r@ == spell_values(hand@),
{
    let mut out: Vec<u32> = Vec::new();
    let mut i: usize = 0;
    while i < hand.len()
        invariant
            i <= hand@.len(),
            out@ == spell_values(hand@.take(i as int)),
        decreases hand@.len() - i,
    {
        assert(hand@.take(i + 1).drop_last() =~= hand@.take(i as int));
        if !hand[i].is_land {
            out.push(hand[i].mana_value);
        }
        i = i + 1;
    }
    assert(hand@.take(i as int) =~= hand@);
    out
}

fn castable_of(spells: &Vec<u32>, mana: u32) -> (r: Option<usize>)
    ensures
        r matches Some(i) ==> castable(spells@, mana as nat, spells@.len()) == Some(i as int) && i
            < spells@.len(),
        r is None ==> castable(spells@, mana as nat, spells@.len()) is None,
{
    let mut i: usize = 0;
    while i < spells.len()
        invariant
            i <= spells@.len(),
            castable(spells@, mana as nat, i as nat) is None,
        decreases spells@.len() - i,
    {
        if spells[i] == mana && mana > 0 {
            proof {
                lemma_castable_stays(spells@, mana as nat, (i + 1) as nat, spells@.len());
            }
            return Some(i);
        }
        i = i + 1;
    }
    None
}

proof fn lemma_castable_stays(spells: Seq<u32>, mana: nat, k: nat, n: nat)
    requires
        k <= n,
        castable(spells, mana, k) is Some,
    ensures
        castable(spells, mana, n) == castable(spells, mana, k),
    decreases n - k,
{
    if k < n {
        lemma_castable_stays(spells, mana, k, (n - 1) as nat);
    }
}

/// Deals a game: shuffles and draws until a hand is kept. Returns the mulligans taken.
fn deal_hand(library: &mut Vec<Card>, rng: &mut Rng, rule: &MulliganRule) -> (r: u32)
    requires
        old(library)@.len() <= u32::MAX,
    ensures
        (final(library)@, final(rng).state(), r) == deal(
            old(library)@,
            old(rng).state(),
            old(rng).increment(),
            *rule,
            0,
        ),
        final(rng).increment() == old(rng).increment(),
        final(library)@.len() == old(library)@.len(),
        r <= 6,
{
    let mut mulligans: u32 = 0;
    loop
        invariant
            mulligans <= 6,
            library@.len() == old(library)@.len(),
            library@.len() <= u32::MAX,
            rng.increment() == old(rng).increment(),
            deal(library@, rng.state(), rng.increment(), *rule, mulligans) == deal(
                old(library)@,
                old(rng).state(),
                old(rng).increment(),
                *rule,
                0,
            ),
        decreases 6 - mulligans,
    {
        rng.shuffle(library);
        let size: u32 = if mulligans >= 6 {
            1
        } else {
            OPENING_HAND - mulligans
        };
        let n: usize = if library.len() < 7 {
            library.len()
        } else {
            7
        };
        let lands = count_lands(library, n);
        proof {
            if library@.len() >= 7 {
                assert(top(library@) == library@.take(7));
            } else {
                assert(library@.take(n as int) =~= library@);
            }
        }
        if rule.keeps(size, lands) || size <= 1 || mulligans >= 6 {
            return mulligans;
        }
        mulligans = mulligans + 1;
    }
}

/// A game in progress.
struct PlayState {
    lands_in_play: u32,
    hand_lands: u32,
    spells: Vec<u32>,
    still_hitting_drops: bool,
    next_draw: usize,
    land_drops: Vec<bool>,
    on_curve: Vec<bool>,
}

impl PlayState {
    spec fn view(&self) -> Play {
        Play {
            lands_in_play: self.lands_in_play as nat,
            hand_lands: self.hand_lands as nat,
            spells: self.spells@,
            still_hitting_drops: self.still_hitting_drops,
            next_draw: self.next_draw as nat,
            land_drops: self.land_drops@,
            on_curve: self.on_curve@,
        }
    }
}

/// Plays turn `number`.
fn one_turn(st: &mut PlayState, library: &Vec<Card>, number: u32, on_the_play: bool)
    requires
        number >= 1,
        old(st).lands_in_play < number,
        old(st).hand_lands <= old(st).next_draw,
        old(st).next_draw <= (if library@.len() > 7 { library@.len() } else { 7 }),
        library@.len() <= u32::MAX,
    ensures
        final(st).view() == turn(old(st).view(), library@, number as nat, on_the_play),
        final(st).lands_in_play <= number,
        final(st).hand_lands <= final(st).next_draw,
        final(st).next_draw <= (if library@.len() > 7 { library@.len() } else { 7 }),
        final(st).land_drops@.len() == old(st).land_drops@.len() + 1,
        final(st).on_curve@.len() == old(st).on_curve@.len() + 1,
{
    if !(number == 1 && on_the_play) && st.next_draw < library.len() {
        let card = library[st.next_draw];
        st.next_draw = st.next_draw + 1;
        if card.is_land {
            st.hand_lands = st.hand_lands + 1;
        } else {
            st.spells.push(card.mana_value);
        }
    }
    if st.hand_lands > 0 {
        st.hand_lands = st.hand_lands - 1;
        st.lands_in_play = st.lands_in_play + 1;
    } else {
        st.still_hitting_drops = false;
    }
    let made = st.still_hitting_drops && st.lands_in_play == number;
    st.land_drops.push(made);
    match castable_of(&st.spells, st.lands_in_play) {
        Some(index) => {
            st.spells.remove(index);
            st.on_curve.push(true);
        },
        None => {
            st.on_curve.push(false);
        },
    }
}

/// The opening seven of a library, or all of it when it is smaller.
fn take_top(library: &Vec<Card>) -> (r: Vec<Card>)
    ensures
        r@ == top(library@),
{
    let n: usize = if library.len() < 7 {
        library.len()
    } else {
        7
    };
    let mut hand: Vec<Card> = Vec::new();
    let mut k: usize = 0;
    while k < n
        invariant
            n <= library@.len(),
            k <= n,
            hand@ == library@.take(k as int),
        decreases n - k,
    {
        hand.push(library[k]);
        k = k + 1;
        assert(hand@ =~= library@.take(k as int));
    }
    proof {
        if library@.len() < 7 {
            assert(library@.take(n as int) =~= library@);
        }
    }
    hand
}

/// Plays one game from a library, shuffling it in place with the generator.
pub fn play_one(library: &mut Vec<Card>, rng: &mut Rng, settings: &SimulationSettings, turns: u32) -> (r: GameOutcome)
    requires
        old(library)@.len() <= u32::MAX,
    ensures
        ({
            let (dealt, state, mulligans) = deal(
                old(library)@,
                old(rng).state(),
                old(rng).increment(),
                settings.mulligan,
                0,
            );
            let (lands, size, drops, curve) = outcome_of(dealt, mulligans, *settings, turns as nat);
            &&& final(library)@ == dealt
            &&& final(rng).state() == state
            &&& r.mulligans == mulligans
            &&& r.opening_lands == lands
            &&& r.opening_hand_size == size
            &&& r.made_land_drops@ == drops
            &&& r.on_curve@ == curve
        }),
        final(rng).increment() == old(rng).increment(),
        final(library)@.len() == old(library)@.len(),
        r.mulligans <= 6,
        r.opening_lands <= r.opening_hand_size,
        r.opening_hand_size <= OPENING_HAND,
        r.made_land_drops@.len() == turns,
        r.on_curve@.len() == turns,
{
    let mulligans = deal_hand(library, rng, &settings.mulligan);
    let ghost dealt = library@;
    let mut hand = take_top(library);
    bottom_cards(&mut hand, mulligans, &settings.mulligan);
    let ghost kept = hand@;
    proof {
        lemma_bottomed_shrinks(top(dealt), mulligans as nat, settings.mulligan);
        lemma_lands_bound(kept);
    }
    let opening_hand_size = hand.len() as u32;
    let opening_lands = count_lands(&hand, hand.len());
    assert(hand@.take(hand@.len() as int) =~= hand@);
    let mut st = PlayState {
        lands_in_play: 0,
        hand_lands: opening_lands,
        spells: values_of_spells(&hand),
        still_hitting_drops: true,
        next_draw: 7,
        land_drops: Vec::new(),
        on_curve: Vec::new(),
    };
    let ghost start = st.view();
    let mut t: u32 = 0;
    while t < turns
        invariant
            library@ == dealt,
            dealt.len() <= u32::MAX,
            t <= turns,
            st.view() == played(start, dealt, settings.on_the_play, t as nat),
            st.lands_in_play <= t,
            st.hand_lands <= st.next_draw,
            st.next_draw <= (if dealt.len() > 7 { dealt.len() } else { 7 }),
            st.land_drops@.len() == t,
            st.on_curve@.len() == t,
        decreases turns - t,
    {
        one_turn(&mut st, library, t + 1, settings.on_the_play);
        t = t + 1;
    }
    GameOutcome {
        mulligans,
        opening_lands,
        opening_hand_size,
        made_land_drops: st.land_drops,
        on_curve: st.on_curve,
    }
}

proof fn lemma_bottomed_shrinks(hand: Seq<Card>, count: nat, rule: MulliganRule)
    ensures
        bottomed(hand, count, rule).len() <= hand.len(),
    decreases count,
{
    if count > 0 && hand.len() > 1 {
        let rest = match victim(hand, rule) {
            Some(i) => hand.remove(i),
            None => hand.drop_last(),
        };
        lemma_victim_in_range(hand, rule);
        lemma_bottomed_shrinks(rest, (count - 1) as nat, rule);
    }
}

proof fn lemma_victim_in_range(hand: Seq<Card>, rule: MulliganRule)
    ensures
        victim(hand, rule) matches Some(i) ==> 0 <= i < hand.len(),
{
    lemma_first_land_range(hand, hand.len());
    lemma_top_spell_range(hand, hand.len());
}

proof fn lemma_first_land_range(hand: Seq<Card>, n: nat)
    ensures
        first_land(hand, n) matches Some(i) ==> 0 <= i < n,
    decreases n,
{
    if n > 0 {
        lemma_first_land_range(hand, (n - 1) as nat);
    }
}

proof fn lemma_top_spell_range(hand: Seq<Card>, n: nat)
    ensures
        top_spell(hand, n) matches Some(i) ==> 0 <= i < n,
    decreases n,
{
    if n > 0 {
        lemma_top_spell_range(hand, (n - 1) as nat);
    }
}

/// What a run counted. Shares are these over the games played.
#[derive(Debug, Clone, PartialEq, Eq)]
pub struct SimulationCounts {
    pub games: u32,
    /// Games whose first seven were kept.
    pub kept_first_hand: u32,
    pub total_mulligans: u64,
    pub total_opening_lands: u64,
    /// Games with a land every turn up to and including this one, indexed from turn 1.
    pub land_drops: Vec<u32>,
    /// Games able to cast something costing exactly the turn's mana, per turn.
    pub on_curve: Vec<u32>,
    /// Games with no land in the kept hand.
    pub screwed: u32,
    /// Games whose kept hand was more than half lands.
    pub flooded: u32,
}

fn count_true(flags: &Vec<bool>, totals: &mut Vec<u32>, games_so_far: u32)
    requires
        flags@.len() == old(totals)@.len(),
        forall|k: int| 0 <= k < old(totals)@.len() ==> old(totals)@[k] <= games_so_far,
        games_so_far < u32::MAX,
    ensures
        final(totals)@.len() == old(totals)@.len(),
        forall|k: int| 0 <= k < final(totals)@.len() ==> final(totals)@[k] == old(totals)@[k] + (if flags@[k] { 1u32 } else { 0u32 }),
        forall|k: int| 0 <= k < final(totals)@.len() ==> final(totals)@[k] <= games_so_far + 1,
{
    let mut k: usize = 0;
    while k < flags.len()
        invariant
            flags@.len() == totals@.len(),
            totals@.len() == old(totals)@.len(),
            k <= flags@.len(),
            forall|j: int| 0 <= j < k ==> totals@[j] == old(totals)@[j] + (if flags@[j] { 1u32 } else { 0u32 }),
            forall|j: int| k <= j < totals@.len() ==> totals@[j] == old(totals)@[j],
            forall|j: int| 0 <= j < old(totals)@.len() ==> old(totals)@[j] <= games_so_far,
            games_so_far < u32::MAX,
        decreases flags@.len() - k,
    {
        if flags[k] {
            let v = totals[k] + 1;
            totals.set(k, v);
        }
        k = k + 1;
    }
}

/// Plays out the deck and counts what happened. At least one game is played, over at least
/// one turn.
pub fn simulate_counts(cards: &Vec<Card>, settings: SimulationSettings) -> (r: SimulationCounts)
    requires
        cards@.len() <= u32::MAX,
    ensures
        r.games == (if settings.games == 0 { 1 } else { settings.games }),
        r.land_drops@.len() == (if settings.turns == 0 { 1 } else { settings.turns }),
        r.on_curve@.len() == (if settings.turns == 0 { 1 } else { settings.turns }),
        r.kept_first_hand <= r.games,
        r.screwed <= r.games,
        r.flooded <= r.games,
        forall|k: int| 0 <= k < r.land_drops@.len() ==> r.land_drops@[k] <= r.games,
        forall|k: int| 0 <= k < r.on_curve@.len() ==> r.on_curve@[k] <= r.games,
        r.total_mulligans <= 6 * r.games,
        r.total_opening_lands <= 7 * r.games,
{
    let turns: u32 = if settings.turns == 0 {
        1
    } else {
        settings.turns
    };
    let games: u32 = if settings.games == 0 {
        1
    } else {
        settings.games
    };
    let mut rng = Rng::new(settings.seed);
    let mut library: Vec<Card> = Vec::new();
    let mut c: usize = 0;
    while c < cards.len()
        invariant
            c <= cards@.len(),
            library@ == cards@.take(c as int),
        decreases cards@.len() - c,
    {
        library.push(cards[c]);
        c = c + 1;
        assert(library@ =~= cards@.take(c as int));
    }
    let mut land_drops: Vec<u32> = Vec::new();
    let mut on_curve: Vec<u32> = Vec::new();
    let mut k: u32 = 0;
    while k < turns
        invariant
            k <= turns,
            land_drops@.len() == k,
            on_curve@.len() == k,
            forall|j: int| 0 <= j < k ==> land_drops@[j] == 0 && on_curve@[j] == 0,
        decreases turns - k,
    {
        land_drops.push(0);
        on_curve.push(0);
        k = k + 1;
    }
    let mut kept_first_hand: u32 = 0;
    let mut total_mulligans: u64 = 0;
    let mut total_opening_lands: u64 = 0;
    let mut screwed: u32 = 0;
    let mut flooded: u32 = 0;
    let mut g: u32 = 0;
    while g < games
        invariant
            g <= games,
            library@.len() == cards@.len(),
            library@.len() <= u32::MAX,
            land_drops@.len() == turns,
            on_curve@.len() == turns,
            kept_first_hand <= g,
            screwed <= g,
            flooded <= g,
            total_mulligans <= 6 * g,
            total_opening_lands <= 7 * g,
            forall|j: int| 0 <= j < land_drops@.len() ==> land_drops@[j] <= g,
            forall|j: int| 0 <= j < on_curve@.len() ==> on_curve@[j] <= g,
        decreases games - g,
    {
        let game = play_one(&mut library, &mut rng, &settings, turns);
        if game.mulligans == 0 {
            kept_first_hand = kept_first_hand + 1;
        }
        total_mulligans = total_mulligans + game.mulligans as u64;
        total_opening_lands = total_opening_lands + game.opening_lands as u64;
        if game.opening_lands == 0 {
            screwed = screwed + 1;
        }
        if game.opening_lands * 2 > game.opening_hand_size {
            flooded = flooded + 1;
        }
        count_true(&game.made_land_drops, &mut land_drops, g);
        count_true(&game.on_curve, &mut on_curve, g);
        g = g + 1;
    }
    SimulationCounts {
        games,
        kept_first_hand,
        total_mulligans,
        total_opening_lands,
        land_drops,
        on_curve,
        screwed,
        flooded,
    }
}

/// A small hand is always kept, which is what ends the mulligan loop on a pathological deck.
pub proof fn law_a_small_hand_is_always_kept(rule: MulliganRule, hand_size: u32, lands: u32)
    requires
        hand_size <= rule.keep_at_or_below,
    ensures
        rule.keeps_spec(hand_size, lands),
{
}

/// Bottoming never empties a hand that has a card.
pub proof fn law_bottoming_never_empties_the_hand(hand: Seq<Card>, count: nat, rule: MulliganRule)
    requires
        hand.len() >= 1,
    ensures
        bottomed(hand, count, rule).len() >= 1,
    decreases count,
{
    if count > 0 && hand.len() > 1 {
        lemma_victim_in_range(hand, rule);
        let rest = match victim(hand, rule) {
            Some(i) => hand.remove(i),
            None => hand.drop_last(),
        };
        law_bottoming_never_empties_the_hand(rest, (count - 1) as nat, rule);
    }
}

/// The same seed deals the same games: a generator started from one seed is always in the
/// same state, so a run is a function of the deck and the settings.
pub proof fn law_same_seed_same_deal(library: Seq<Card>, seed: u64, rule: MulliganRule)
    ensures
        deal(library, seeded(seed), DEFAULT_INCREMENT | 1, rule, 0) == deal(
            library,
            seeded(seed),
            DEFAULT_INCREMENT | 1,
            rule,
            0,
        ),
{
}

} // verus!
