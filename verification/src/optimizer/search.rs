//! Searching for a better version of a deck: the decisions around the annealing.
//!
//! The search proposes single-card swaps and keeps the ones that raise the deck's score. The
//! scoring and the annealing schedule are probabilities, computed by the application; what
//! stands here is everything that decides *which* swaps may be proposed at all (the pool, the
//! colours, the popularity gate, the copy limit and the bracket ceiling) and how the finished
//! deck is turned back into swaps a reader can apply.

use vstd::prelude::*;

use crate::color::{bit_set, Color, ColorSet};
use crate::combo::bracket::bracket_for;
use crate::data::card::ArchivedCard;
use crate::deck::deck::{copies, of_zone, Deck, DeckEntry, EntryView, Zone};
use crate::deck::legality::card_named;
use crate::deck::rules::FormatRules;
use crate::format::Format;
use crate::optimizer::profile::{identity_of, CardIndex};
use crate::optimizer::rng::{draw_below, period, rejection_threshold, Rng};
use crate::text::{chars_of, lex_less, lemma_lex_total, lex_less_exec, str_eq, string_of};

verus! {

/// Which cards the search is allowed to reach for.
#[derive(Debug, Clone, PartialEq, Eq)]
pub enum CardPool {
    /// Anything legal in the format.
    Everything,
    /// Only cards with one of the given oracle ids: the collection, the collection plus a
    /// wishlist, or a scanned draft pool. The order of the ids and repeats among them do not
    /// matter.
    Only { oracle_ids: Vec<String> },
}

impl CardPool {
    /// True when the pool holds the card `oracle`.
    pub open spec fn admits(&self, oracle: Seq<char>) -> bool {
        match self {
            CardPool::Everything => true,
            CardPool::Only { oracle_ids } => exists|k: int|
                0 <= k < oracle_ids@.len() && (#[trigger] oracle_ids@[k])@ == oracle,
        }
    }

    pub fn allows(&self, oracle_id: &str) -> (r: bool)
        ensures
            r == self.admits(oracle_id@),
    {
        match self {
            CardPool::Everything => true,
            CardPool::Only { oracle_ids } => holds_id(oracle_ids, oracle_id),
        }
    }
}

fn holds_id(oracle_ids: &Vec<String>, oracle_id: &str) -> (r: bool)
    ensures
        r == exists|k: int| 0 <= k < oracle_ids@.len() && (#[trigger] oracle_ids@[k])@ == oracle_id@,
{
    let mut i: usize = 0;
    while i < oracle_ids.len()
        invariant
            i <= oracle_ids@.len(),
            forall|k: int| 0 <= k < i ==> (#[trigger] oracle_ids@[k])@ != oracle_id@,
        decreases oracle_ids@.len() - i,
    {
        if str_eq(oracle_ids[i].as_str(), oracle_id) {
            assert((oracle_ids@[i as int])@ == oracle_id@);
            return true;
        }
        i = i + 1;
    }
    false
}

/// Most Game Changers a deck may hold to stay inside a bracket.
pub open spec fn allowance(max_bracket: Option<u8>) -> Option<usize> {
    match max_bracket {
        Some(b) => if b == 1 || b == 2 {
            Some(0usize)
        } else if b == 3 {
            Some(3usize)
        } else {
            None
        },
        None => None,
    }
}

/// Most Game Changers a deck may hold to stay inside a bracket: brackets 1 and 2 allow none,
/// bracket 3 allows three, and bracket 4, or no bracket asked for, is unbounded.
pub fn game_changer_allowance(max_bracket: Option<u8>) -> (r: Option<usize>)
    ensures
        r == allowance(max_bracket),
{
    match max_bracket {
        Some(1) | Some(2) => Some(0),
        Some(3) => Some(3),
        _ => None,
    }
}

/// The allowance says what the bracket assessment says: for a bracket from 1 to 3, a deck
/// whose only marker is its Game Changers stays at or under that bracket (brackets 1 and 2
/// both reading as 2, the lowest the assessment gives) exactly when it holds no more Game
/// Changers than the allowance; bracket 4 is the one without an allowance.
pub proof fn law_allowance_matches_assessment(max_bracket: u8, game_changers: nat)
    requires
        1 <= max_bracket <= 4,
    ensures
        allowance(Some(max_bracket)) is None <==> max_bracket == 4,
        allowance(Some(max_bracket)) matches Some(a) ==> (game_changers <= a <==> bracket_for(
            game_changers,
            0,
            0,
            0,
        ) <= (if max_bracket < 2 { 2 } else { max_bracket })),
{
}

/// Game Changers among the counted entries of a deck, copies included: the sideboard is not
/// part of the deck.
pub open spec fn changers(es: Seq<DeckEntry>, cards: Seq<ArchivedCard>) -> nat
    decreases es.len(),
{
    if es.len() == 0 {
        0
    } else {
        changers(es.drop_last(), cards) + (if es.last().zone != Zone::Sideboard && (card_named(
            cards,
            es.last().oracle_id@,
        ) matches Some(card) && card.game_changer) {
            es.last().quantity as nat
        } else {
            0
        })
    }
}

proof fn lemma_changers_prefix(es: Seq<DeckEntry>, cards: Seq<ArchivedCard>, k: int)
    requires
        0 <= k <= es.len(),
    ensures
        changers(es.take(k), cards) <= changers(es, cards),
    decreases es.len() - k,
{
    if k < es.len() {
        lemma_changers_prefix(es, cards, k + 1);
        assert(es.take(k + 1).drop_last() =~= es.take(k));
    } else {
        assert(es.take(k) =~= es);
    }
}

/// How many Game Changers a deck holds, counting copies and leaving out the sideboard.
pub fn game_changers_in(deck: &Deck, index: &CardIndex<'_>) -> (r: usize)
    requires
        changers(deck.entries@, index.cards()) <= usize::MAX,
    ensures
        r == changers(deck.entries@, index.cards()),
{
    let mut total: usize = 0;
    let mut i: usize = 0;
    while i < deck.entries.len()
        invariant
            i <= deck.entries@.len(),
            total == changers(deck.entries@.take(i as int), index.cards()),
            changers(deck.entries@, index.cards()) <= usize::MAX,
        decreases deck.entries@.len() - i,
    {
        let entry = &deck.entries[i];
        assert(deck.entries@.take(i + 1).drop_last() =~= deck.entries@.take(i as int));
        proof {
            lemma_changers_prefix(deck.entries@, index.cards(), i + 1);
        }
        if entry.zone != Zone::Sideboard {
            match index.get(entry.oracle_id.as_str()) {
                Some(card) => {
                    if card.is_game_changer() {
                        total = total + entry.quantity as usize;
                    }
                },
                None => {},
            }
        }
        i = i + 1;
    }
    assert(deck.entries@.take(i as int) =~= deck.entries@);
    total
}

/// True when a command-zone card of the deck has `c` in its color identity.
pub open spec fn command_identity(es: Seq<DeckEntry>, cards: Seq<ArchivedCard>, c: Color) -> bool
    decreases es.len(),
{
    if es.len() == 0 {
        false
    } else {
        command_identity(es.drop_last(), cards, c) || (es.last().zone == Zone::Command && (card_named(
            cards,
            es.last().oracle_id@,
        ) matches Some(card) && bit_set(card.color_identity, c.position())))
    }
}

/// True when the format binds a deck to its commander's colors.
pub open spec fn binds_identity(rules: FormatRules) -> bool {
    rules.commander matches Some(c) && c.enforce_color_identity
}

/// The colours the search may reach for, as a predicate on colours: `None` when nothing
/// constrains it.
///
/// Where the format binds a deck to its commander, the commander's colours; elsewhere the
/// colours of the deck's own cards, sideboard aside, since a scorer with no idea what a card
/// does has no business proposing a splash. A deck of colourless cards constrains nothing.
pub open spec fn search_identity(es: Seq<DeckEntry>, cards: Seq<ArchivedCard>, rules: FormatRules) -> Option<spec_fn(Color) -> bool> {
    if binds_identity(rules) {
        Some(|c: Color| command_identity(es, cards, c))
    } else if exists|c: Color| identity_of(es, cards, c) {
        Some(|c: Color| identity_of(es, cards, c))
    } else {
        None
    }
}

/// The identity a set stands for, as the search reads it.
pub open spec fn identity_matches(r: Option<ColorSet>, s: Option<spec_fn(Color) -> bool>) -> bool {
    match (r, s) {
        (None, None) => true,
        (Some(set), Some(pred)) => forall|c: Color| set.has(c) == pred(c),
        _ => false,
    }
}

fn command_colors(deck: &Deck, index: &CardIndex<'_>) -> (r: ColorSet)
    ensures
        forall|c: Color| r.has(c) == command_identity(deck.entries@, index.cards(), c),
{
    let mut identity = ColorSet::colorless();
    let mut i: usize = 0;
    while i < deck.entries.len()
        invariant
            i <= deck.entries@.len(),
            forall|c: Color| identity.has(c) == command_identity(deck.entries@.take(i as int), index.cards(), c),
        decreases deck.entries@.len() - i,
    {
        let entry = &deck.entries[i];
        assert(deck.entries@.take(i + 1).drop_last() =~= deck.entries@.take(i as int));
        if entry.zone == Zone::Command {
            match index.get(entry.oracle_id.as_str()) {
                Some(card) => {
                    identity = identity.union(card.color_identity());
                },
                None => {},
            }
        }
        i = i + 1;
    }
    assert(deck.entries@.take(i as int) =~= deck.entries@);
    identity
}

fn deck_colors(deck: &Deck, index: &CardIndex<'_>) -> (r: ColorSet)
    ensures
        forall|c: Color| r.has(c) == identity_of(deck.entries@, index.cards(), c),
{
    let mut identity = ColorSet::colorless();
    let mut i: usize = 0;
    while i < deck.entries.len()
        invariant
            i <= deck.entries@.len(),
            forall|c: Color| identity.has(c) == identity_of(deck.entries@.take(i as int), index.cards(), c),
        decreases deck.entries@.len() - i,
    {
        let entry = &deck.entries[i];
        assert(deck.entries@.take(i + 1).drop_last() =~= deck.entries@.take(i as int));
        if entry.zone != Zone::Sideboard {
            match index.get(entry.oracle_id.as_str()) {
                Some(card) => {
                    identity = identity.union(card.color_identity());
                },
                None => {},
            }
        }
        i = i + 1;
    }
    assert(deck.entries@.take(i as int) =~= deck.entries@);
    identity
}

/// The colour identity the search is bound to, if anything binds it.
pub fn candidate_identity(deck: &Deck, index: &CardIndex<'_>, rules: &FormatRules) -> (r: Option<ColorSet>)
    ensures
        identity_matches(r, search_identity(deck.entries@, index.cards(), *rules)),
{
    let binds = match rules.commander {
        Some(c) => c.enforce_color_identity,
        None => false,
    };
    if binds {
        let identity = command_colors(deck, index);
        return Some(identity);
    }
    let identity = deck_colors(deck, index);
    let ghost es = deck.entries@;
    let ghost cards = index.cards();
    if identity.is_empty() {
        assert(!exists|c: Color| identity_of(es, cards, c)) by {
            assert forall|c: Color| !identity_of(es, cards, c) by {
                assert(!identity.has(c));
            }
        }
        None
    } else {
        let ghost c = choose|c: Color| identity.has(c);
        assert(identity_of(es, cards, c));
        Some(identity)
    }
}

/// A basic land: exempt from the copy limit, and from the popularity gate since basics carry
/// no rank.
pub open spec fn is_basic(card: ArchivedCard) -> bool {
    card.typed("Basic"@) && card.typed("Land"@)
}

/// True when the search may propose a card: legal in the format, inside the identity when one
/// binds the search, played (or a basic land) when only played cards are wanted, and in the
/// pool.
#[verifier::opaque]
pub open spec fn proposable(
    card: ArchivedCard,
    format: Format,
    identity: Option<ColorSet>,
    pool: CardPool,
    only_played_cards: bool,
    popularity_limit: u32,
) -> bool {
    &&& card.legality_in(format).playable()
    &&& (identity matches Some(id) ==> forall|c: Color| #[trigger] bit_set(card.color_identity, c.position()) ==> id.has(c))
    &&& (only_played_cards ==> is_basic(card) || (card.edhrec_rank matches Some(rank) && rank <= popularity_limit))
    &&& pool.admits(card.oracle_id@)
}

/// Whether the search may propose a card.
pub fn is_candidate(
    card: &ArchivedCard,
    format: Format,
    identity: Option<ColorSet>,
    pool: &CardPool,
    only_played_cards: bool,
    popularity_limit: u32,
) -> (r: bool)
    ensures
        r == proposable(*card, format, identity, *pool, only_played_cards, popularity_limit),
{
    reveal(proposable);
    if !card.is_legal_in(format) {
        return false;
    }
    match identity {
        Some(id) => {
            let own = card.color_identity();
            if !own.is_subset_of(id) {
                proof {
                    let c = choose|c: Color| own.has(c) && !id.has(c);
                    assert(bit_set(card.color_identity, c.position()));
                }
                return false;
            }
            assert forall|c: Color| #[trigger] bit_set(card.color_identity, c.position()) implies id.has(c) by {
                assert(own.has(c));
            }
        },
        None => {},
    }
    if only_played_cards {
        let basic = card.has_type("Basic") && card.has_type("Land");
        let played = match card.edhrec_rank() {
            Some(rank) => rank <= popularity_limit,
            None => false,
        };
        if !basic && !played {
            return false;
        }
    }
    pool.allows(card.oracle_id())
}

/// Strict order on texts is transitive.
pub proof fn lemma_lex_trans(a: Seq<char>, b: Seq<char>, c: Seq<char>)
    requires
        lex_less(a, b),
        lex_less(b, c),
    ensures
        lex_less(a, c),
    decreases a.len(),
{
    if a.len() > 0 && a[0] == b[0] && b[0] == c[0] {
        lemma_lex_trans(a.drop_first(), b.drop_first(), c.drop_first());
    }
}

/// Consecutive keys strictly ascend.
pub open spec fn keys_ascend(v: Seq<(String, String)>) -> bool {
    forall|k: int| 0 <= k < v.len() - 1 ==> lex_less((#[trigger] v[k]).0@, v[k + 1].0@)
}

proof fn lemma_keys_ordered(v: Seq<(String, String)>, i: int, j: int)
    requires
        keys_ascend(v),
        0 <= i < j < v.len(),
    ensures
        lex_less(v[i].0@, v[j].0@),
    decreases j - i,
{
    if j > i + 1 {
        lemma_keys_ordered(v, i, j - 1);
        assert(lex_less(v[j - 1].0@, v[j].0@));
        lemma_lex_trans(v[i].0@, v[j - 1].0@, v[j].0@);
    }
}

/// The card at `j` is the first proposable card of the catalog with its oracle id.
#[verifier::opaque]
pub open spec fn picked(
    cards: Seq<ArchivedCard>,
    j: int,
    format: Format,
    identity: Option<ColorSet>,
    pool: CardPool,
    only_played_cards: bool,
    popularity_limit: u32,
) -> bool {
    &&& 0 <= j < cards.len()
    &&& proposable(cards[j], format, identity, pool, only_played_cards, popularity_limit)
    &&& forall|i: int| 0 <= i < j ==> !(proposable(#[trigger] cards[i], format, identity, pool, only_played_cards, popularity_limit)
        && cards[i].oracle_id@ == cards[j].oracle_id@)
}

fn copy_text(s: &str) -> (r: String)
    ensures
        r@ == s@,
{
    string_of(chars_of(s).as_slice())
}

/// Every card the search may propose, as oracle id and name, one per oracle id, sorted by
/// oracle id so that the same deck and seed always give the same run.
pub fn candidate_cards(
    deck: &Deck,
    index: &CardIndex<'_>,
    pool: &CardPool,
    only_played_cards: bool,
    popularity_limit: u32,
    identity: Option<ColorSet>,
) -> (r: Vec<(String, String)>)
    ensures
        keys_ascend(r@),
        forall|k: int| 0 <= k < r@.len() ==> #[trigger] from_catalog(
            r@[k],
            index.cards(),
            deck.format,
            identity,
            *pool,
            only_played_cards,
            popularity_limit,
        ),
        forall|j: int| 0 <= j < index.cards().len() && proposable(
            #[trigger] index.cards()[j],
            deck.format,
            identity,
            *pool,
            only_played_cards,
            popularity_limit,
        ) ==> exists|k: int| 0 <= k < r@.len() && (#[trigger] r@[k]).0@ == index.cards()[j].oracle_id@,
{
    let cards = index.catalog_cards();
    let ghost cs = index.cards();
    let format = deck.format;
    let mut out: Vec<(String, String)> = Vec::new();
    let ghost mut src: Seq<int> = Seq::empty();
    let mut j: usize = 0;
    while j < cards.len()
        invariant
            cards@ == cs,
            format == deck.format,
            j <= cs.len(),
            keys_ascend(out@),
            src.len() == out@.len(),
            forall|k: int| 0 <= k < out@.len() ==> source_of(out@, src, k, cs, j as int, format, identity, *pool, only_played_cards, popularity_limit),
            forall|i: int| 0 <= i < j && proposable(
                #[trigger] cs[i],
                format,
                identity,
                *pool,
                only_played_cards,
                popularity_limit,
            ) ==> exists|k: int| 0 <= k < out@.len() && (#[trigger] out@[k]).0@ == cs[i].oracle_id@,
        decreases cs.len() - j,
    {
        let card = &cards[j];
        if is_candidate(card, format, identity, pool, only_played_cards, popularity_limit) {
            let ghost before = out@;
            let placed = place(&mut out, card.oracle_id(), card.name());
            proof {
                match placed {
                    Some(p) => {
                        assert forall|i: int| 0 <= i < j implies !(proposable(
                            #[trigger] cs[i],
                            format,
                            identity,
                            *pool,
                            only_played_cards,
                            popularity_limit,
                        ) && cs[i].oracle_id@ == cs[j as int].oracle_id@) by {
                            if proposable(cs[i], format, identity, *pool, only_played_cards, popularity_limit)
                                && cs[i].oracle_id@ == cs[j as int].oracle_id@ {
                                let k = choose|k: int| 0 <= k < before.len() && (#[trigger] before[k]).0@ == cs[i].oracle_id@;
                                assert(before[k].0@ == cs[j as int].oracle_id@);
                            }
                        }
                        assert(picked(cs, j as int, format, identity, *pool, only_played_cards, popularity_limit)) by {
                            reveal(picked);
                        }
                        lemma_placed(before, out@, src, p as int, cs, j as int, j + 1, format, identity, *pool, only_played_cards, popularity_limit);
                        src = src.insert(p as int, j as int);
                    },
                    None => {
                        assert forall|i: int| 0 <= i < j + 1 && proposable(
                            #[trigger] cs[i],
                            format,
                            identity,
                            *pool,
                            only_played_cards,
                            popularity_limit,
                        ) implies exists|k: int| 0 <= k < out@.len() && (#[trigger] out@[k]).0@ == cs[i].oracle_id@ by {
                            if i == j {
                                let k = choose|k: int| 0 <= k < before.len() && (#[trigger] before[k]).0@ == cs[j as int].oracle_id@;
                                assert(out@[k].0@ == cs[i].oracle_id@);
                            }
                        }
                        let next = j + 1;
                        assert forall|k: int| 0 <= k < out@.len() implies #[trigger] source_of(out@, src, k, cs, next, format, identity, *pool, only_played_cards, popularity_limit) by {
                            assert(source_of(out@, src, k, cs, j as int, format, identity, *pool, only_played_cards, popularity_limit));
                        }
                    },
                }
            }
        } else {
            proof {
                let next = j + 1;
                assert forall|k: int| 0 <= k < out@.len() implies #[trigger] source_of(out@, src, k, cs, next, format, identity, *pool, only_played_cards, popularity_limit) by {
                    assert(source_of(out@, src, k, cs, j as int, format, identity, *pool, only_played_cards, popularity_limit));
                }
            }
        }
        j = j + 1;
    }
    assert forall|k: int| 0 <= k < out@.len() implies #[trigger] from_catalog(
        out@[k],
        cs,
        format,
        identity,
        *pool,
        only_played_cards,
        popularity_limit,
    ) by {
        assert(source_of(out@, src, k, cs, j as int, format, identity, *pool, only_played_cards, popularity_limit));
        let i = src[k];
        assert(picked(cs, i, format, identity, *pool, only_played_cards, popularity_limit));
    }
    out
}

/// A candidate entry is the oracle id and name of a picked card.
pub open spec fn from_catalog(
    entry: (String, String),
    cards: Seq<ArchivedCard>,
    format: Format,
    identity: Option<ColorSet>,
    pool: CardPool,
    only_played_cards: bool,
    popularity_limit: u32,
) -> bool {
    exists|j: int|
        picked(cards, j, format, identity, pool, only_played_cards, popularity_limit) && entry.0@
            == (#[trigger] cards[j]).oracle_id@ && entry.1@ == cards[j].name@
}

/// The candidate at `k` comes from the catalog card `src[k]`, which is earlier than `j` and
/// the first proposable card with its oracle id.
pub open spec fn source_of(
    out: Seq<(String, String)>,
    src: Seq<int>,
    k: int,
    cs: Seq<ArchivedCard>,
    j: int,
    format: Format,
    identity: Option<ColorSet>,
    pool: CardPool,
    only_played_cards: bool,
    popularity_limit: u32,
) -> bool {
    &&& src[k] < j
    &&& picked(cs, src[k], format, identity, pool, only_played_cards, popularity_limit)
    &&& out[k].0@ == cs[src[k]].oracle_id@
    &&& out[k].1@ == cs[src[k]].name@
}

/// What placing the first proposable card of an oracle id keeps of the candidate list.
proof fn lemma_placed(
    before: Seq<(String, String)>,
    after: Seq<(String, String)>,
    src: Seq<int>,
    p: int,
    cs: Seq<ArchivedCard>,
    j: int,
    next: int,
    format: Format,
    identity: Option<ColorSet>,
    pool: CardPool,
    only_played_cards: bool,
    popularity_limit: u32,
)
    requires
        next == j + 1,
        0 <= p <= before.len(),
        src.len() == before.len(),
        after == before.insert(p, after[p]),
        after[p].0@ == cs[j].oracle_id@,
        after[p].1@ == cs[j].name@,
        picked(cs, j, format, identity, pool, only_played_cards, popularity_limit),
        forall|k: int| 0 <= k < before.len() ==> source_of(before, src, k, cs, j, format, identity, pool, only_played_cards, popularity_limit),
        forall|i: int| 0 <= i < j && proposable(
            #[trigger] cs[i],
            format,
            identity,
            pool,
            only_played_cards,
            popularity_limit,
        ) ==> exists|k: int| 0 <= k < before.len() && (#[trigger] before[k]).0@ == cs[i].oracle_id@,
    ensures
        forall|k: int| 0 <= k < after.len() ==> #[trigger] source_of(after, src.insert(p, j), k, cs, next, format, identity, pool, only_played_cards, popularity_limit),
        forall|i: int| 0 <= i < j + 1 && proposable(
            #[trigger] cs[i],
            format,
            identity,
            pool,
            only_played_cards,
            popularity_limit,
        ) ==> exists|k: int| 0 <= k < after.len() && (#[trigger] after[k]).0@ == cs[i].oracle_id@,
{
    let s2 = src.insert(p, j);
    assert forall|k: int| 0 <= k < after.len() implies source_of(after, s2, k, cs, next, format, identity, pool, only_played_cards, popularity_limit) by {
        if k < p {
            assert(after[k] == before[k] && s2[k] == src[k]);
            assert(source_of(before, src, k, cs, j, format, identity, pool, only_played_cards, popularity_limit));
        } else if k > p {
            assert(after[k] == before[k - 1] && s2[k] == src[k - 1]);
            assert(source_of(before, src, k - 1, cs, j, format, identity, pool, only_played_cards, popularity_limit));
        } else {
            assert(s2[k] == j);
        }
    }
    assert forall|i: int| 0 <= i < j + 1 && proposable(
        #[trigger] cs[i],
        format,
        identity,
        pool,
        only_played_cards,
        popularity_limit,
    ) implies exists|k: int| 0 <= k < after.len() && (#[trigger] after[k]).0@ == cs[i].oracle_id@ by {
        if i < j {
            let k = choose|k: int| 0 <= k < before.len() && (#[trigger] before[k]).0@ == cs[i].oracle_id@;
            if k < p {
                assert(after[k] == before[k]);
            } else {
                assert(after[k + 1] == before[k]);
            }
        } else {
            assert(after[p].0@ == cs[i].oracle_id@);
        }
    }
}

/// Puts an oracle id and name into a list kept in ascending order of oracle id, unless the
/// oracle id is already there. Returns where it went.
fn place(out: &mut Vec<(String, String)>, oracle_id: &str, name: &str) -> (r: Option<usize>)
    requires
        keys_ascend(old(out)@),
    ensures
        keys_ascend(final(out)@),
        r is None <==> exists|k: int| 0 <= k < old(out)@.len() && (#[trigger] old(out)@[k]).0@ == oracle_id@,
        r is None ==> final(out)@ == old(out)@,
        r matches Some(p) ==> p <= old(out)@.len() && final(out)@ == old(out)@.insert(p as int, final(out)@[p as int])
            && final(out)@[p as int].0@ == oracle_id@ && final(out)@[p as int].1@ == name@,
{
    let key = chars_of(oracle_id);
    let ghost before = out@;
    let mut p: usize = 0;
    while p < out.len() && lex_less_exec(chars_of(out[p].0.as_str()).as_slice(), key.as_slice())
        invariant
            out@ == before,
            p <= out@.len(),
            forall|k: int| 0 <= k < p ==> lex_less((#[trigger] out@[k]).0@, key@),
        decreases out@.len() - p,
    {
        p = p + 1;
    }
    proof {
        lemma_lex_total(key@, key@);
        if p < out@.len() {
            lemma_lex_total(out@[p as int].0@, key@);
        }
    }
    if p < out.len() && str_eq(out[p].0.as_str(), oracle_id) {
        assert(out@[p as int].0@ == oracle_id@);
        return None;
    }
    proof {
        assert forall|k: int| 0 <= k < before.len() implies (#[trigger] before[k]).0@ != oracle_id@ by {
            if k > p {
                lemma_keys_ordered(before, p as int, k);
                lemma_lex_trans(key@, before[p as int].0@, before[k].0@);
            }
        }
    }
    let entry = (copy_text(oracle_id), copy_text(name));
    out.insert(p, entry);
    proof {
        assert forall|k: int| 0 <= k < out@.len() - 1 implies lex_less((#[trigger] out@[k]).0@, out@[k + 1].0@) by {
            if k + 1 < p {
                assert(out@[k] == before[k] && out@[k + 1] == before[k + 1]);
            } else if k + 1 == p {
                assert(out@[k] == before[k]);
            } else if k == p {
                assert(out@[k + 1] == before[k]);
            } else {
                assert(out@[k] == before[k - 1] && out@[k + 1] == before[k]);
            }
        }
        assert(out@ =~= before.insert(p as int, out@[p as int]));
    }
    Some(p)
}

/// What `below` gives from a generator state: the value and the state after.
pub open spec fn drawn(state: u64, increment: u64, bound: u32) -> (u32, u64) {
    if bound == 0 {
        (0, state)
    } else {
        draw_below(state, increment, bound, rejection_threshold(bound), period())
    }
}

/// True when `card` may go into a deck already holding `held` copies of it: basic lands
/// always may, anything else up to the format's copy limit.
pub open spec fn room_for(card: Option<ArchivedCard>, held: nat, max_copies: u32) -> bool {
    (card matches Some(c) && is_basic(c)) || held < max_copies
}

fn entry_copy(e: &DeckEntry) -> (r: DeckEntry)
    ensures
        r@ == e@,
{
    DeckEntry {
        oracle_id: copy_text(e.oracle_id.as_str()),
        name: copy_text(e.name.as_str()),
        quantity: e.quantity,
        zone: e.zone,
        set_code: copy_text(e.set_code.as_str()),
        collector_number: copy_text(e.collector_number.as_str()),
    }
}

/// Picks a card to take out of the main deck and a candidate to put in, drawing first the card
/// and then the candidate. Nothing is proposed when the main deck is empty, when the candidate
/// is the card itself, or when adding it would break the copy limit; basic lands are exempt
/// from the limit, which is what lets the search adjust a mana base at all.
pub fn propose_swap(
    deck: &Deck,
    candidates: &[(String, String)],
    index: &CardIndex<'_>,
    rules: &FormatRules,
    rng: &mut Rng,
) -> (r: Option<(DeckEntry, (String, String))>)
    requires
        of_zone(deck.entries@, Zone::Main).len() <= u32::MAX,
        0 < candidates@.len() <= u32::MAX,
        forall|k: int| 0 <= k < candidates@.len() ==> copies(deck.entries@, (#[trigger] candidates@[k]).0@) <= u32::MAX,
    ensures
        final(rng).increment() == old(rng).increment(),
        of_zone(deck.entries@, Zone::Main).len() == 0 ==> r is None && final(rng).state() == old(rng).state(),
        of_zone(deck.entries@, Zone::Main).len() > 0 ==> ({
            let main = of_zone(deck.entries@, Zone::Main);
            let (i, s1) = drawn(old(rng).state(), old(rng).increment(), main.len() as u32);
            let (j, s2) = drawn(s1, old(rng).increment(), candidates@.len() as u32);
            let out = main[i as int];
            let add = candidates@[j as int];
            let allowed = add.0@ != out.oracle_id@ && room_for(
                card_named(index.cards(), add.0@),
                copies(deck.entries@, add.0@),
                rules.max_copies,
            );
            &&& final(rng).state() == s2
            &&& i < main.len()
            &&& j < candidates@.len()
            &&& (r is None <==> !allowed)
            &&& (r matches Some(p) ==> p.0@ == out@ && p.1.0@ == add.0@ && p.1.1@ == add.1@)
        }),
{
    let removable = deck.entries_in(Zone::Main);
    if removable.len() == 0 {
        return None;
    }
    let i = rng.below(removable.len() as u32);
    let j = rng.below(candidates.len() as u32);
    let removed = removable[i as usize];
    let added = &candidates[j as usize];
    if str_eq(added.0.as_str(), removed.oracle_id.as_str()) {
        return None;
    }
    let already = deck.copies_of(added.0.as_str());
    let is_basic = match index.get(added.0.as_str()) {
        Some(card) => card.has_type("Basic") && card.has_type("Land"),
        None => false,
    };
    if !is_basic && already >= rules.max_copies {
        return None;
    }
    Some((entry_copy(removed), (copy_text(added.0.as_str()), copy_text(added.1.as_str()))))
}

/// True when no card's copies overflow 32 bits.
pub open spec fn copies_fit(es: Seq<DeckEntry>) -> bool {
    forall|o: Seq<char>| #[trigger] copies(es, o) <= u32::MAX
}

/// For each main-deck entry of `es` in order, one (oracle id, name) per copy that `a` holds
/// of the card beyond what `b` holds.
pub open spec fn surplus(es: Seq<DeckEntry>, a: Seq<DeckEntry>, b: Seq<DeckEntry>) -> Seq<(Seq<char>, Seq<char>)>
    decreases es.len(),
{
    if es.len() == 0 {
        Seq::empty()
    } else {
        let e = es.last();
        let n: nat = if e.zone == Zone::Main && copies(a, e.oracle_id@) > copies(b, e.oracle_id@) {
            (copies(a, e.oracle_id@) - copies(b, e.oracle_id@)) as nat
        } else {
            0
        };
        surplus(es.drop_last(), a, b) + Seq::new(n, |_k: int| (e.oracle_id@, e.name@))
    }
}

/// The pairs of a list, with their text as character sequences.
pub open spec fn pair_views(v: Seq<(String, String)>) -> Seq<(Seq<char>, Seq<char>)> {
    v.map_values(|p: (String, String)| (p.0@, p.1@))
}

fn surplus_of(from: &Deck, other: &Deck) -> (r: Vec<(String, String)>)
    requires
        copies_fit(from.entries@),
        copies_fit(other.entries@),
    ensures
        pair_views(r@) == surplus(from.entries@, from.entries@, other.entries@),
{
    let ghost a = from.entries@;
    let ghost b = other.entries@;
    let mut out: Vec<(String, String)> = Vec::new();
    let mut i: usize = 0;
    while i < from.entries.len()
        invariant
            a == from.entries@,
            b == other.entries@,
            copies_fit(a),
            copies_fit(b),
            i <= a.len(),
            pair_views(out@) == surplus(a.take(i as int), a, b),
        decreases a.len() - i,
    {
        let entry = &from.entries[i];
        let ghost before = out@;
        assert(a.take(i + 1).drop_last() =~= a.take(i as int));
        assert(a.take(i + 1).last() == entry);
        if entry.zone == Zone::Main {
            let had = from.copies_of(entry.oracle_id.as_str());
            let has = other.copies_of(entry.oracle_id.as_str());
            let mut c = has;
            while c < had
                invariant
                    has <= c,
                    c <= had || c == has,
                    had == copies(a, entry.oracle_id@),
                    has == copies(b, entry.oracle_id@),
                    out@.len() == before.len() + (c - has),
                    forall|k: int| 0 <= k < before.len() ==> out@[k] == before[k],
                    forall|k: int| before.len() <= k < out@.len() ==> (#[trigger] out@[k]).0@ == entry.oracle_id@
                        && out@[k].1@ == entry.name@,
                decreases had - c,
            {
                let ghost prior = out@;
                out.push((copy_text(entry.oracle_id.as_str()), copy_text(entry.name.as_str())));
                assert forall|k: int| 0 <= k < before.len() implies out@[k] == before[k] by {
                    assert(out@[k] == prior[k]);
                }
                c = c + 1;
            }
            proof {
                let n: nat = if had > has { (had - has) as nat } else { 0 };
                let tail = Seq::new(n, |_k: int| (entry.oracle_id@, entry.name@));
                assert(out@.len() == before.len() + n);
                assert(pair_views(out@) =~= pair_views(before) + tail) by {
                    assert forall|k: int| 0 <= k < out@.len() implies #[trigger] pair_views(out@)[k] == (pair_views(before) + tail)[k] by {
                        if k < before.len() {
                            assert(out@[k] == before[k]);
                            assert(pair_views(before)[k] == (before[k].0@, before[k].1@));
                        } else {
                            assert(tail[k - before.len()] == (entry.oracle_id@, entry.name@));
                        }
                    }
                }
            }
        } else {
            proof {
                let tail = Seq::new(0, |_k: int| (entry.oracle_id@, entry.name@));
                assert(pair_views(out@) =~= pair_views(before) + tail);
            }
        }
        i = i + 1;
    }
    assert(a.take(a.len() as int) =~= a);
    out
}

/// The difference between a deck and the version the search settled on, as swaps a reader can
/// apply one at a time: the copies to take out and the copies to put in.
///
/// A diff rather than the path the search walked: each entry is a net change from the deck as
/// it stands, so any subset of them applied in any order is a real deck, and never holds more
/// copies of a card than the finished version did.
pub fn net_changes(original: &Deck, improved: &Deck) -> (r: (Vec<(String, String)>, Vec<(String, String)>))
    requires
        copies_fit(original.entries@),
        copies_fit(improved.entries@),
    ensures
        pair_views(r.0@) == surplus(original.entries@, original.entries@, improved.entries@),
        pair_views(r.1@) == surplus(improved.entries@, improved.entries@, original.entries@),
{
    let removals = surplus_of(original, improved);
    let additions = surplus_of(improved, original);
    (removals, additions)
}

} // verus!
