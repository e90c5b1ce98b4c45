//! Checking a deck against its format.
//!
//! The result is a list of named violations rather than a boolean. "Illegal" on its own is
//! useless to someone trying to fix a deck; "three too many cards" and "Sol Ring is banned in
//! Modern" are things you can act on.

use vstd::prelude::*;

use crate::color::{bit_set, render, Color, ColorSet};
use crate::data::card::ArchivedCard;
use crate::data::catalog::{first_card, Catalog};
use crate::deck::deck::{copies, zone_total, Deck, DeckEntry, Zone};
use crate::deck::rules::{rules_of, DeckSize, FormatRules};
use crate::format::{Format, Legality};
use crate::text::{decimal, has_sub, push_decimal, push_str, str_contains, str_eq};

verus! {

/// One thing wrong with a deck.
#[derive(Debug, Clone, PartialEq, Eq)]
pub enum Violation {
    /// The card is not in the loaded catalog. Usually a stale deck after a catalog change, or
    /// an import that resolved to nothing.
    UnknownCard { name: String },
    DeckTooSmall { found: u32, required: u32 },
    DeckTooLarge { found: u32, allowed: u32 },
    SideboardTooLarge { found: u32, allowed: u32 },
    SideboardNotAllowed { found: u32 },
    TooManyCopies { name: String, found: u32, allowed: u32 },
    /// Legal nowhere in this format: usually a card from a set the format does not include.
    NotInFormat { name: String },
    Banned { name: String },
    Restricted { name: String, found: u32 },
    OutsideColorIdentity { name: String, card_identity: String, commander_identity: String },
    CommandZoneSize { found: u32, minimum: u32, maximum: u32 },
    /// In the command zone but not something that can be a commander.
    NotAValidCommander { name: String },
    /// This format has no command zone.
    CommandZoneNotAllowed { found: u32 },
}

/// A violation with its text as character sequences.
pub enum Finding {
    UnknownCard { name: Seq<char> },
    DeckTooSmall { found: u32, required: u32 },
    DeckTooLarge { found: u32, allowed: u32 },
    SideboardTooLarge { found: u32, allowed: u32 },
    SideboardNotAllowed { found: u32 },
    TooManyCopies { name: Seq<char>, found: u32, allowed: u32 },
    NotInFormat { name: Seq<char> },
    Banned { name: Seq<char> },
    Restricted { name: Seq<char>, found: u32 },
    OutsideColorIdentity {
        name: Seq<char>,
        card_identity: Seq<char>,
        commander_identity: Seq<char>,
    },
    CommandZoneSize { found: u32, minimum: u32, maximum: u32 },
    NotAValidCommander { name: Seq<char> },
    CommandZoneNotAllowed { found: u32 },
}

impl View for Violation {
    type V = Finding;

    open spec fn view(&self) -> Finding {
        match self {
            Violation::UnknownCard { name } => Finding::UnknownCard { name: name@ },
            Violation::DeckTooSmall { found, required } => Finding::DeckTooSmall {
                found: *found,
                required: *required,
            },
            Violation::DeckTooLarge { found, allowed } => Finding::DeckTooLarge {
                found: *found,
                allowed: *allowed,
            },
            Violation::SideboardTooLarge { found, allowed } => Finding::SideboardTooLarge {
                found: *found,
                allowed: *allowed,
            },
            Violation::SideboardNotAllowed { found } => Finding::SideboardNotAllowed {
                found: *found,
            },
            Violation::TooManyCopies { name, found, allowed } => Finding::TooManyCopies {
                name: name@,
                found: *found,
                allowed: *allowed,
            },
            Violation::NotInFormat { name } => Finding::NotInFormat { name: name@ },
            Violation::Banned { name } => Finding::Banned { name: name@ },
            Violation::Restricted { name, found } => Finding::Restricted {
                name: name@,
                found: *found,
            },
            Violation::OutsideColorIdentity { name, card_identity, commander_identity } =>
                Finding::OutsideColorIdentity {
                name: name@,
                card_identity: card_identity@,
                commander_identity: commander_identity@,
            },
            Violation::CommandZoneSize { found, minimum, maximum } => Finding::CommandZoneSize {
                found: *found,
                minimum: *minimum,
                maximum: *maximum,
            },
            Violation::NotAValidCommander { name } => Finding::NotAValidCommander {
                name: name@,
            },
            Violation::CommandZoneNotAllowed { found } => Finding::CommandZoneNotAllowed {
                found: *found,
            },
        }
    }
}

/// The findings of a list of violations, in order.
pub open spec fn findings(v: Seq<Violation>) -> Seq<Finding> {
    v.map_values(|x: Violation| x@)
}

/// How a violation reads: a sentence that makes sense on its own in the UI.
pub open spec fn sentence(f: Finding) -> Seq<char> {
    match f {
        Finding::UnknownCard { name } => name + " is not in the loaded card data"@,
        Finding::DeckTooSmall { found, required } => "the deck has "@ + decimal(found as nat)
            + " cards, "@ + decimal(required as nat) + " are required"@,
        Finding::DeckTooLarge { found, allowed } => "the deck has "@ + decimal(found as nat)
            + " cards, only "@ + decimal(allowed as nat) + " are allowed"@,
        Finding::SideboardTooLarge { found, allowed } => "the sideboard has "@ + decimal(
            found as nat,
        ) + " cards, only "@ + decimal(allowed as nat) + " are allowed"@,
        Finding::SideboardNotAllowed { found } => "this format has no sideboard, but "@
            + decimal(found as nat) + " cards are in one"@,
        Finding::TooManyCopies { name, found, allowed } => decimal(found as nat) + " copies of "@
            + name + ", only "@ + decimal(allowed as nat) + " allowed"@,
        Finding::NotInFormat { name } => name + " is not legal in this format"@,
        Finding::Banned { name } => name + " is banned"@,
        Finding::Restricted { name, found } => name + " is restricted to one copy, the deck has "@
            + decimal(found as nat),
        Finding::OutsideColorIdentity { name, card_identity, commander_identity } => name
            + " has colour identity "@ + card_identity + ", outside the commander's "@
            + commander_identity,
        Finding::CommandZoneSize { found, minimum, maximum } => if minimum == maximum {
            "the command zone has "@ + decimal(found as nat) + " cards, "@ + decimal(
                minimum as nat,
            ) + " is required"@
        } else {
            "the command zone has "@ + decimal(found as nat) + " cards, between "@ + decimal(
                minimum as nat,
            ) + " and "@ + decimal(maximum as nat) + " are required"@
        },
        Finding::NotAValidCommander { name } => name + " cannot be a commander"@,
        Finding::CommandZoneNotAllowed { found } => "this format has no command zone, but "@
            + decimal(found as nat) + " cards are in one"@,
    }
}

impl Violation {
    /// The violation as a sentence.
    pub fn to_string(&self) -> (r: String)
        ensures
            r@ == sentence(self@),
    {
        let mut out = String::new();
        match self {
            Violation::UnknownCard { name } => {
                push_str(&mut out, name.as_str());
                push_str(&mut out, " is not in the loaded card data");
            },
            Violation::DeckTooSmall { found, required } => {
                push_str(&mut out, "the deck has ");
                push_decimal(&mut out, *found as u64);
                push_str(&mut out, " cards, ");
                push_decimal(&mut out, *required as u64);
                push_str(&mut out, " are required");
            },
            Violation::DeckTooLarge { found, allowed } => {
                push_str(&mut out, "the deck has ");
                push_decimal(&mut out, *found as u64);
                push_str(&mut out, " cards, only ");
                push_decimal(&mut out, *allowed as u64);
                push_str(&mut out, " are allowed");
            },
            Violation::SideboardTooLarge { found, allowed } => {
                push_str(&mut out, "the sideboard has ");
                push_decimal(&mut out, *found as u64);
                push_str(&mut out, " cards, only ");
                push_decimal(&mut out, *allowed as u64);
                push_str(&mut out, " are allowed");
            },
            Violation::SideboardNotAllowed { found } => {
                push_str(&mut out, "this format has no sideboard, but ");
                push_decimal(&mut out, *found as u64);
                push_str(&mut out, " cards are in one");
            },
            Violation::TooManyCopies { name, found, allowed } => {
                push_decimal(&mut out, *found as u64);
                push_str(&mut out, " copies of ");
                push_str(&mut out, name.as_str());
                push_str(&mut out, ", only ");
                push_decimal(&mut out, *allowed as u64);
                push_str(&mut out, " allowed");
            },
            Violation::NotInFormat { name } => {
                push_str(&mut out, name.as_str());
                push_str(&mut out, " is not legal in this format");
            },
            Violation::Banned { name } => {
                push_str(&mut out, name.as_str());
                push_str(&mut out, " is banned");
            },
            Violation::Restricted { name, found } => {
                push_str(&mut out, name.as_str());
                push_str(&mut out, " is restricted to one copy, the deck has ");
                push_decimal(&mut out, *found as u64);
            },
            Violation::OutsideColorIdentity { name, card_identity, commander_identity } => {
                push_str(&mut out, name.as_str());
                push_str(&mut out, " has colour identity ");
                push_str(&mut out, card_identity.as_str());
                push_str(&mut out, ", outside the commander's ");
                push_str(&mut out, commander_identity.as_str());
            },
            Violation::CommandZoneSize { found, minimum, maximum } => {
                push_str(&mut out, "the command zone has ");
                push_decimal(&mut out, *found as u64);
                if *minimum == *maximum {
                    push_str(&mut out, " cards, ");
                    push_decimal(&mut out, *minimum as u64);
                    push_str(&mut out, " is required");
                } else {
                    push_str(&mut out, " cards, between ");
                    push_decimal(&mut out, *minimum as u64);
                    push_str(&mut out, " and ");
                    push_decimal(&mut out, *maximum as u64);
                    push_str(&mut out, " are required");
                }
            },
            Violation::NotAValidCommander { name } => {
                push_str(&mut out, name.as_str());
                push_str(&mut out, " cannot be a commander");
            },
            Violation::CommandZoneNotAllowed { found } => {
                push_str(&mut out, "this format has no command zone, but ");
                push_decimal(&mut out, *found as u64);
                push_str(&mut out, " cards are in one");
            },
        }
        proof {
            assert(out@ =~= sentence(self@));
        }
        out
    }
}

/// True when entry `i` is the first entry for its card.
pub open spec fn fresh(entries: Seq<DeckEntry>, i: int) -> bool {
    forall|k: int| 0 <= k < i ==> (#[trigger] entries[k]).oracle_id@ != entries[i].oracle_id@
}

/// The catalog card an oracle id resolves to: the first with that id.
pub open spec fn card_named(cards: Seq<ArchivedCard>, oracle: Seq<char>) -> Option<ArchivedCard> {
    match first_card(cards, oracle) {
        Some(i) => Some(cards[i]),
        None => None,
    }
}

/// One `UnknownCard` per card, in deck order, for the first `n` entries.
pub open spec fn unknown_upto(entries: Seq<DeckEntry>, cards: Seq<ArchivedCard>, n: nat) -> Seq<Finding>
    decreases n,
{
    if n == 0 {
        Seq::empty()
    } else {
        let i = n - 1;
        unknown_upto(entries, cards, (n - 1) as nat) + (if fresh(entries, i) && card_named(
            cards,
            entries[i].oracle_id@,
        ) is None {
            seq![Finding::UnknownCard { name: entries[i].name@ }]
        } else {
            Seq::empty()
        })
    }
}

/// True when the format's rules tie every card to the commander's color identity.
pub open spec fn enforces_identity(rules: FormatRules) -> bool {
    rules.commander matches Some(c) && c.enforce_color_identity
}

/// True when a command-zone card among the first `n` entries has `c` in its identity.
pub open spec fn identity_upto(entries: Seq<DeckEntry>, cards: Seq<ArchivedCard>, c: Color, n: nat) -> bool
    decreases n,
{
    if n == 0 {
        false
    } else {
        identity_upto(entries, cards, c, (n - 1) as nat) || (entries[n - 1].zone == Zone::Command
            && (card_named(cards, entries[n - 1].oracle_id@) matches Some(card) && bit_set(
            card.color_identity,
            c.position(),
        )))
    }
}

/// True when `c` is in the combined identity of the command zone.
pub open spec fn commander_has(entries: Seq<DeckEntry>, cards: Seq<ArchivedCard>, c: Color) -> bool {
    identity_upto(entries, cards, c, entries.len())
}

/// The command zone's combined identity, as WUBRG letters (`C` when colorless).
pub open spec fn commander_text(entries: Seq<DeckEntry>, cards: Seq<ArchivedCard>) -> Seq<char> {
    render(
        commander_has(entries, cards, Color::White),
        commander_has(entries, cards, Color::Blue),
        commander_has(entries, cards, Color::Black),
        commander_has(entries, cards, Color::Red),
        commander_has(entries, cards, Color::Green),
    )
}

/// A card's identity, as WUBRG letters (`C` when colorless).
pub open spec fn identity_text(bits: u8) -> Seq<char> {
    render(
        bit_set(bits, Color::White.position()),
        bit_set(bits, Color::Blue.position()),
        bit_set(bits, Color::Black.position()),
        bit_set(bits, Color::Red.position()),
        bit_set(bits, Color::Green.position()),
    )
}

/// True when a card's identity sits inside the command zone's.
pub open spec fn fits_identity(card: ArchivedCard, entries: Seq<DeckEntry>, cards: Seq<ArchivedCard>) -> bool {
    forall|c: Color| bit_set(card.color_identity, c.position()) ==> commander_has(entries, cards, c)
}

/// `NotAValidCommander` for the command-zone cards among the first `n` entries.
pub open spec fn commander_upto(entries: Seq<DeckEntry>, cards: Seq<ArchivedCard>, format: Format, n: nat) -> Seq<Finding>
    decreases n,
{
    if n == 0 {
        Seq::empty()
    } else {
        let e = entries[n - 1];
        commander_upto(entries, cards, format, (n - 1) as nat) + (match card_named(cards, e.oracle_id@) {
            Some(card) => if e.zone == Zone::Command && format != Format::Oathbreaker
                && !card.commander_eligible() {
                seq![Finding::NotAValidCommander { name: e.name@ }]
            } else {
                Seq::empty()
            },
            None => Seq::empty(),
        })
    }
}

/// What the command zone is told: its size against the format, then each card that cannot
/// lead a deck. Oathbreaker's signature spell is not a commander in the usual sense, so the
/// second check only applies where the zone holds actual commanders.
pub open spec fn command_findings(entries: Seq<DeckEntry>, cards: Seq<ArchivedCard>, rules: FormatRules) -> Seq<Finding> {
    let count = zone_total(entries, Zone::Command);
    match rules.commander {
        None => if count > 0 {
            seq![Finding::CommandZoneNotAllowed { found: count as u32 }]
        } else {
            Seq::empty()
        },
        Some(c) => (if c.count_min <= count <= c.count_max {
            Seq::empty()
        } else {
            seq![
                Finding::CommandZoneSize {
                    found: count as u32,
                    minimum: c.count_min,
                    maximum: c.count_max,
                },
            ]
        }) + commander_upto(entries, cards, rules.format, entries.len()),
    }
}

/// The cards the size rule counts: the main deck, plus the command zone where it counts.
pub open spec fn counted(main: nat, command: nat, rules: FormatRules) -> nat {
    if rules.commander matches Some(c) && c.counts_towards_deck_size {
        main + command
    } else {
        main
    }
}

/// What the deck size is told.
pub open spec fn size_findings(main: nat, command: nat, rules: FormatRules) -> Seq<Finding> {
    let n = counted(main, command, rules);
    match rules.deck_size {
        DeckSize::Exactly(size) => if n < size {
            seq![Finding::DeckTooSmall { found: n as u32, required: size }]
        } else if n > size {
            seq![Finding::DeckTooLarge { found: n as u32, allowed: size }]
        } else {
            Seq::empty()
        },
        DeckSize::AtLeast(size) => if n < size {
            seq![Finding::DeckTooSmall { found: n as u32, required: size }]
        } else {
            Seq::empty()
        },
    }
}

/// What the sideboard is told.
pub open spec fn sideboard_findings(count: nat, rules: FormatRules) -> Seq<Finding> {
    if rules.max_sideboard == 0 {
        if count > 0 {
            seq![Finding::SideboardNotAllowed { found: count as u32 }]
        } else {
            Seq::empty()
        }
    } else if count > rules.max_sideboard {
        seq![Finding::SideboardTooLarge { found: count as u32, allowed: rules.max_sideboard }]
    } else {
        Seq::empty()
    }
}

/// How many copies of a card a deck may hold.
///
/// Two exceptions to the format's limit: basic lands are unlimited, and a handful of cards
/// grant their own allowance in their rules text (Relentless Rats and friends; The Nazgul
/// allows exactly nine).
pub open spec fn allowance(card: ArchivedCard, format_limit: u32) -> u32 {
    if card.typed("Basic"@) && card.typed("Land"@) {
        u32::MAX
    } else if has_sub(card.oracle_text@, "can have any number of cards named"@) {
        u32::MAX
    } else if has_sub(card.oracle_text@, "can have up to nine cards named"@) {
        9
    } else {
        format_limit
    }
}

/// What a card's legality in the format says, given how many copies the deck holds.
pub open spec fn legality_findings(legality: Legality, name: Seq<char>, n: nat) -> Seq<Finding> {
    match legality {
        Legality::Legal => Seq::empty(),
        Legality::NotLegal => seq![Finding::NotInFormat { name }],
        Legality::Banned => seq![Finding::Banned { name }],
        Legality::Restricted => if n > 1 {
            seq![Finding::Restricted { name, found: n as u32 }]
        } else {
            Seq::empty()
        },
    }
}

/// What one known card is told: its legality, its copy count, its identity.
pub open spec fn card_step(entries: Seq<DeckEntry>, cards: Seq<ArchivedCard>, rules: FormatRules, card: ArchivedCard, name: Seq<char>, oracle: Seq<char>) -> Seq<Finding> {
    let n = copies(entries, oracle);
    let limit = allowance(card, rules.max_copies);
    legality_findings(card.legality_in(rules.format), name, n) + (if n > limit {
        seq![Finding::TooManyCopies { name, found: n as u32, allowed: limit }]
    } else {
        Seq::empty()
    }) + (if enforces_identity(rules) && !fits_identity(card, entries, cards) {
        seq![
            Finding::OutsideColorIdentity {
                name,
                card_identity: identity_text(card.color_identity),
                commander_identity: commander_text(entries, cards),
            },
        ]
    } else {
        Seq::empty()
    })
}

/// The per-card findings for the first `n` entries: once per card, so a card in both the
/// main deck and the sideboard is reported once, and never for a card the catalog lacks.
pub open spec fn cards_upto(entries: Seq<DeckEntry>, cards: Seq<ArchivedCard>, rules: FormatRules, n: nat) -> Seq<Finding>
    decreases n,
{
    if n == 0 {
        Seq::empty()
    } else {
        cards_upto(entries, cards, rules, (n - 1) as nat) + card_findings_at(
            entries,
            cards,
            rules,
            n - 1,
        )
    }
}

/// What entry `i` is told: nothing unless it is the first entry for a card the catalog has.
pub open spec fn card_findings_at(entries: Seq<DeckEntry>, cards: Seq<ArchivedCard>, rules: FormatRules, i: int) -> Seq<Finding> {
    let e = entries[i];
    if fresh(entries, i) {
        match card_named(cards, e.oracle_id@) {
            Some(card) => card_step(entries, cards, rules, card, e.name@, e.oracle_id@),
            None => Seq::empty(),
        }
    } else {
        Seq::empty()
    }
}

/// Everything wrong with a deck, in the order it is reported: unknown cards, the command
/// zone, the deck size, the sideboard, then card by card.
pub open spec fn verdict(entries: Seq<DeckEntry>, cards: Seq<ArchivedCard>, format: Format) -> Seq<Finding> {
    let rules = rules_of(format);
    unknown_upto(entries, cards, entries.len()) + command_findings(entries, cards, rules)
        + size_findings(zone_total(entries, Zone::Main), zone_total(entries, Zone::Command), rules)
        + sideboard_findings(zone_total(entries, Zone::Sideboard), rules) + cards_upto(
        entries,
        cards,
        rules,
        entries.len(),
    )
}

/// The outcome of checking a deck.
#[derive(Debug, Clone, PartialEq, Eq)]
pub struct LegalityReport {
    pub format: Format,
    /// True when the format's construction rules are inferred rather than confirmed. The UI
    /// should say so instead of presenting the verdict as certain.
    pub approximate_rules: bool,
    pub violations: Vec<Violation>,
    pub main_count: u32,
    pub sideboard_count: u32,
    pub command_count: u32,
    /// Combined colour identity of the command zone, as WUBRG letters.
    pub commander_identity: String,
}

impl LegalityReport {
    pub fn is_legal(&self) -> (r: bool)
        ensures
            r == (self.violations@.len() == 0),
    {
        self.violations.len() == 0
    }
}

/// Appends one violation.
fn report(out: &mut Vec<Violation>, v: Violation)
    ensures
        findings(final(out)@) == findings(old(out)@).push(v@),
{
    out.push(v);
    proof {
        assert(findings(out@) =~= findings(old(out)@).push(v@));
    }
}

/// True when entry `i` is the first entry for its card.
fn is_fresh(entries: &Vec<DeckEntry>, i: usize) -> (r: bool)
    requires
        i < entries@.len(),
    ensures
        r == fresh(entries@, i as int),
{
    let mut k: usize = 0;
    while k < i
        invariant
            i < entries@.len(),
            k <= i,
            forall|j: int| 0 <= j < k ==> (#[trigger] entries@[j]).oracle_id@ != entries@[i as int].oracle_id@,
        decreases i - k,
    {
        if str_eq(entries[k].oracle_id.as_str(), entries[i].oracle_id.as_str()) {
            return false;
        }
        k = k + 1;
    }
    true
}

/// Reports each card the catalog does not have, once.
fn report_unknown(entries: &Vec<DeckEntry>, catalog: &Catalog, out: &mut Vec<Violation>)
    ensures
        findings(final(out)@) == findings(old(out)@) + unknown_upto(
            entries@,
            catalog.cards_view(),
            entries@.len(),
        ),
{
    let ghost cards = catalog.cards_view();
    let mut i: usize = 0;
    while i < entries.len()
        invariant
            cards == catalog.cards_view(),
            i <= entries@.len(),
            findings(out@) == findings(old(out)@) + unknown_upto(entries@, cards, i as nat),
        decreases entries@.len() - i,
    {
        let ghost before = findings(out@);
        if is_fresh(entries, i) {
            if catalog.find_by_oracle_id(entries[i].oracle_id.as_str()).is_none() {
                report(out, Violation::UnknownCard { name: entries[i].name.clone() });
            }
        }
        i = i + 1;
        proof {
            assert(findings(out@) =~= findings(old(out)@) + unknown_upto(entries@, cards, i as nat));
        }
    }
}

/// Checks the command zone and returns the identity it allows, if the format enforces one.
fn check_command_zone(
    entries: &Vec<DeckEntry>,
    rules: &FormatRules,
    catalog: &Catalog,
    command_count: u32,
    out: &mut Vec<Violation>,
) -> (r: Option<ColorSet>)
    requires
        command_count == zone_total(entries@, Zone::Command),
    ensures
        findings(final(out)@) == findings(old(out)@) + command_findings(
            entries@,
            catalog.cards_view(),
            *rules,
        ),
        r is Some == enforces_identity(*rules),
        r matches Some(set) ==> forall|c: Color|
            set.has(c) == commander_has(entries@, catalog.cards_view(), c),
{
    let ghost cards = catalog.cards_view();
    let commander_rules = match rules.commander {
        None => {
            if command_count > 0 {
                report(out, Violation::CommandZoneNotAllowed { found: command_count });
            }
            proof {
                assert(findings(out@) =~= findings(old(out)@) + command_findings(entries@, cards, *rules));
            }
            return None;
        },
        Some(c) => c,
    };
    if !(commander_rules.count_min <= command_count && command_count <= commander_rules.count_max) {
        report(
            out,
            Violation::CommandZoneSize {
                found: command_count,
                minimum: commander_rules.count_min,
                maximum: commander_rules.count_max,
            },
        );
    }
    let ghost head = findings(out@);
    let mut identity = ColorSet::colorless();
    let mut i: usize = 0;
    while i < entries.len()
        invariant
            cards == catalog.cards_view(),
            i <= entries@.len(),
            findings(out@) == head + commander_upto(entries@, cards, rules.format, i as nat),
            forall|c: Color| identity.has(c) == identity_upto(entries@, cards, c, i as nat),
        decreases entries@.len() - i,
    {
        let entry = &entries[i];
        if entry.zone == Zone::Command {
            match catalog.find_by_oracle_id(entry.oracle_id.as_str()) {
                Some(card) => {
                    identity = identity.union(card.color_identity());
                    if rules.format != Format::Oathbreaker && !card.can_be_commander() {
                        report(out, Violation::NotAValidCommander { name: entry.name.clone() });
                    }
                },
                None => {},
            }
        }
        i = i + 1;
        proof {
            assert(findings(out@) =~= head + commander_upto(entries@, cards, rules.format, i as nat));
        }
    }
    proof {
        assert(findings(out@) =~= findings(old(out)@) + command_findings(entries@, cards, *rules));
    }
    if commander_rules.enforce_color_identity {
        Some(identity)
    } else {
        None
    }
}

/// Checks the deck size, counting the command zone where the format does.
fn check_size(main_count: u32, command_count: u32, rules: &FormatRules, out: &mut Vec<Violation>)
    requires
        main_count + command_count <= u32::MAX,
    ensures
        findings(final(out)@) == findings(old(out)@) + size_findings(
            main_count as nat,
            command_count as nat,
            *rules,
        ),
{
    let counted = match rules.commander {
        Some(c) => if c.counts_towards_deck_size {
            main_count + command_count
        } else {
            main_count
        },
        None => main_count,
    };
    match rules.deck_size {
        DeckSize::Exactly(size) => {
            if counted < size {
                report(out, Violation::DeckTooSmall { found: counted, required: size });
            } else if counted > size {
                report(out, Violation::DeckTooLarge { found: counted, allowed: size });
            }
        },
        DeckSize::AtLeast(size) => {
            if counted < size {
                report(out, Violation::DeckTooSmall { found: counted, required: size });
            }
        },
    }
    proof {
        assert(findings(out@) =~= findings(old(out)@) + size_findings(
            main_count as nat,
            command_count as nat,
            *rules,
        ));
    }
}

/// How many copies of this particular card are allowed.
pub fn copy_limit(card: &ArchivedCard, format_limit: u32) -> (r: u32)
    ensures
        r == allowance(*card, format_limit),
{
    if card.has_type("Basic") && card.has_type("Land") {
        return u32::MAX;
    }
    let text = card.oracle_text();
    if str_contains(text, "can have any number of cards named") {
        return u32::MAX;
    }
    if str_contains(text, "can have up to nine cards named") {
        return 9;
    }
    format_limit
}

proof fn lemma_copies_bounded(entries: Seq<DeckEntry>, oracle: Seq<char>)
    ensures
        copies(entries, oracle) <= zone_total(entries, Zone::Main) + zone_total(
            entries,
            Zone::Sideboard,
        ),
    decreases entries.len(),
{
    if entries.len() > 0 {
        lemma_copies_bounded(entries.drop_last(), oracle);
    }
}

/// Reports what a card's legality says about it.
fn report_legality(out: &mut Vec<Violation>, legality: Legality, name: &String, copies: u32)
    ensures
        findings(final(out)@) == findings(old(out)@) + legality_findings(legality, name@, copies as nat),
{
    let ghost before = findings(old(out)@);
    match legality {
        Legality::Legal => {},
        Legality::NotLegal => {
            report(out, Violation::NotInFormat { name: name.clone() });
        },
        Legality::Banned => {
            report(out, Violation::Banned { name: name.clone() });
        },
        Legality::Restricted => {
            if copies > 1 {
                report(out, Violation::Restricted { name: name.clone(), found: copies });
            }
        },
    }
    assert(findings(out@) =~= before + legality_findings(legality, name@, copies as nat));
}

/// Reports a card outside the commander's colors.
fn report_identity(
    out: &mut Vec<Violation>,
    card: &ArchivedCard,
    allowed_identity: ColorSet,
    name: &String,
    Ghost(entries): Ghost<Seq<DeckEntry>>,
    Ghost(cards): Ghost<Seq<ArchivedCard>>,
)
    requires
        forall|c: Color| allowed_identity.has(c) == commander_has(entries, cards, c),
    ensures
        findings(final(out)@) == findings(old(out)@) + (if !fits_identity(*card, entries, cards) {
            seq![
                Finding::OutsideColorIdentity {
                    name: name@,
                    card_identity: identity_text(card.color_identity),
                    commander_identity: commander_text(entries, cards),
                },
            ]
        } else {
            Seq::<Finding>::empty()
        }),
{
    let ghost before = findings(old(out)@);
    let card_identity = card.color_identity();
    proof {
        assert(card_identity.within(allowed_identity) == fits_identity(*card, entries, cards)) by {
            if fits_identity(*card, entries, cards) {
                assert forall|c: Color| card_identity.has(c) implies allowed_identity.has(c) by {
                    assert(bit_set(card.color_identity, c.position()));
                }
            }
            if card_identity.within(allowed_identity) {
                assert forall|c: Color| bit_set(card.color_identity, c.position()) implies commander_has(entries, cards, c) by {
                    assert(card_identity.has(c));
                }
            }
        }
    }
    if !card_identity.is_subset_of(allowed_identity) {
        report(
            out,
            Violation::OutsideColorIdentity {
                name: name.clone(),
                card_identity: card_identity.to_string(),
                commander_identity: allowed_identity.to_string(),
            },
        );
    }
    assert(findings(out@) =~= before + (if !fits_identity(*card, entries, cards) {
        seq![
            Finding::OutsideColorIdentity {
                name: name@,
                card_identity: identity_text(card.color_identity),
                commander_identity: commander_text(entries, cards),
            },
        ]
    } else {
        Seq::<Finding>::empty()
    }));
}

/// Checks entry `i`, when it is the first entry for its card: legality, copies, identity.
fn check_card(
    deck: &Deck,
    rules: &FormatRules,
    catalog: &Catalog,
    commander_identity: Option<ColorSet>,
    i: usize,
    out: &mut Vec<Violation>,
)
    requires
        i < deck.entries@.len(),
        zone_total(deck.entries@, Zone::Main) + zone_total(deck.entries@, Zone::Sideboard)
            <= u32::MAX,
        commander_identity is Some == enforces_identity(*rules),
        commander_identity matches Some(set) ==> forall|c: Color|
            set.has(c) == commander_has(deck.entries@, catalog.cards_view(), c),
    ensures
        findings(final(out)@) == findings(old(out)@) + card_findings_at(
            deck.entries@,
            catalog.cards_view(),
            *rules,
            i as int,
        ),
{
    let ghost cards = catalog.cards_view();
    let ghost entries = deck.entries@;
        let ghost before = findings(old(out)@);
        let entry = &deck.entries[i];
        if is_fresh(&deck.entries, i) {
            match catalog.find_by_oracle_id(entry.oracle_id.as_str()) {
                Some(card) => {
                    proof {
                        lemma_copies_bounded(entries, entry.oracle_id@);
                    }
                    let copies = deck.copies_of(entry.oracle_id.as_str());
                    report_legality(out, card.legality(rules.format), &entry.name, copies);
                    let allowed = copy_limit(card, rules.max_copies);
                    if copies > allowed {
                        report(
                            out,
                            Violation::TooManyCopies {
                                name: entry.name.clone(),
                                found: copies,
                                allowed,
                            },
                        );
                    }
                    let ghost after_copies = findings(out@);
                    match commander_identity {
                        Some(allowed_identity) => {
                            report_identity(out, card, allowed_identity, &entry.name, Ghost(entries), Ghost(cards));
                        },
                        None => {},
                    }
                    assert(findings(out@) =~= before + card_step(entries, cards, *rules, *card, entry.name@, entry.oracle_id@));
                },
                None => {},
            }
        }
    assert(findings(out@) =~= findings(old(out)@) + card_findings_at(entries, cards, *rules, i as int));
}

/// Checks each distinct card: legality, copies, color identity.
fn check_cards(
    deck: &Deck,
    rules: &FormatRules,
    catalog: &Catalog,
    commander_identity: Option<ColorSet>,
    out: &mut Vec<Violation>,
)
    requires
        zone_total(deck.entries@, Zone::Main) + zone_total(deck.entries@, Zone::Sideboard)
            <= u32::MAX,
        commander_identity is Some == enforces_identity(*rules),
        commander_identity matches Some(set) ==> forall|c: Color|
            set.has(c) == commander_has(deck.entries@, catalog.cards_view(), c),
    ensures
        findings(final(out)@) == findings(old(out)@) + cards_upto(
            deck.entries@,
            catalog.cards_view(),
            *rules,
            deck.entries@.len(),
        ),
{
    let ghost cards = catalog.cards_view();
    let ghost entries = deck.entries@;
    let mut i: usize = 0;
    while i < deck.entries.len()
        invariant
            cards == catalog.cards_view(),
            entries == deck.entries@,
            i <= entries.len(),
            zone_total(entries, Zone::Main) + zone_total(entries, Zone::Sideboard) <= u32::MAX,
            commander_identity is Some == enforces_identity(*rules),
            commander_identity matches Some(set) ==> forall|c: Color|
                set.has(c) == commander_has(entries, cards, c),
            findings(out@) == findings(old(out)@) + cards_upto(entries, cards, *rules, i as nat),
        decreases entries.len() - i,
    {
        check_card(deck, rules, catalog, commander_identity, i, out);
        i = i + 1;
        proof {
            assert(findings(out@) =~= findings(old(out)@) + cards_upto(entries, cards, *rules, i as nat));
        }
    }
}

/// Checks a deck against the rules of its format.
///
/// Each card is resolved once. An entry whose card is missing is reported and then skipped,
/// so one stale entry does not cascade into a dozen misleading follow-on violations.
pub fn check(deck: &Deck, catalog: &Catalog) -> (r: LegalityReport)
    requires
        zone_total(deck.entries@, Zone::Main) + zone_total(deck.entries@, Zone::Sideboard)
            + zone_total(deck.entries@, Zone::Command) <= u32::MAX,
    ensures
        r.format == deck.format,
        r.approximate_rules == rules_of(deck.format).approximate,
        r.main_count == zone_total(deck.entries@, Zone::Main),
        r.sideboard_count == zone_total(deck.entries@, Zone::Sideboard),
        r.command_count == zone_total(deck.entries@, Zone::Command),
        findings(r.violations@) == verdict(deck.entries@, catalog.cards_view(), deck.format),
        r.commander_identity@ == (if enforces_identity(rules_of(deck.format)) {
            commander_text(deck.entries@, catalog.cards_view())
        } else {
            Seq::empty()
        }),
{
    let rules = FormatRules::for_format(deck.format);
    let mut violations: Vec<Violation> = Vec::new();
    report_unknown(&deck.entries, catalog, &mut violations);

    let main_count = deck.count_in(Zone::Main);
    let sideboard_count = deck.count_in(Zone::Sideboard);
    let command_count = deck.count_in(Zone::Command);

    let commander_identity = check_command_zone(
        &deck.entries,
        &rules,
        catalog,
        command_count,
        &mut violations,
    );
    check_size(main_count, command_count, &rules, &mut violations);
    if rules.max_sideboard == 0 {
        if sideboard_count > 0 {
            report(&mut violations, Violation::SideboardNotAllowed { found: sideboard_count });
        }
    } else if sideboard_count > rules.max_sideboard {
        report(
            &mut violations,
            Violation::SideboardTooLarge { found: sideboard_count, allowed: rules.max_sideboard },
        );
    }
    let ghost head = findings(violations@);
    check_cards(deck, &rules, catalog, commander_identity, &mut violations);
    proof {
        assert(findings(violations@) =~= verdict(deck.entries@, catalog.cards_view(), deck.format));
    }
    let commander_identity = match commander_identity {
        Some(set) => set.to_string(),
        None => String::new(),
    };
    LegalityReport {
        format: deck.format,
        approximate_rules: rules.approximate,
        violations,
        main_count,
        sideboard_count,
        command_count,
        commander_identity,
    }
}

/// A card the catalog lacks makes no noise beyond its own report: no legality, copy-limit,
/// identity or commander findings come from it, and it adds nothing to the commander's
/// identity.
pub proof fn law_unknown_cards_are_quiet(entries: Seq<DeckEntry>, cards: Seq<ArchivedCard>, rules: FormatRules, n: nat)
    requires
        n <= entries.len(),
        forall|i: int| 0 <= i < entries.len() ==> card_named(cards, (#[trigger] entries[i]).oracle_id@) is None,
    ensures
        cards_upto(entries, cards, rules, n) == Seq::<Finding>::empty(),
        commander_upto(entries, cards, rules.format, n) == Seq::<Finding>::empty(),
        forall|c: Color| !identity_upto(entries, cards, c, n),
    decreases n,
{
    if n > 0 {
        law_unknown_cards_are_quiet(entries, cards, rules, (n - 1) as nat);
        assert(card_named(cards, entries[n - 1].oracle_id@) is None);
        assert(cards_upto(entries, cards, rules, n) =~= Seq::<Finding>::empty());
        assert(commander_upto(entries, cards, rules.format, n) =~= Seq::<Finding>::empty());
        assert forall|c: Color| !identity_upto(entries, cards, c, n) by {
            assert(!identity_upto(entries, cards, c, (n - 1) as nat));
        }
    }
}

/// A card the catalog lacks is reported once, however many entries it has.
pub proof fn law_unknown_card_reported_once(entries: Seq<DeckEntry>, cards: Seq<ArchivedCard>, n: nat)
    requires
        1 <= n <= entries.len(),
        card_named(cards, entries[0].oracle_id@) is None,
        forall|i: int| 0 <= i < entries.len() ==> (#[trigger] entries[i]).oracle_id@ == entries[0].oracle_id@,
    ensures
        unknown_upto(entries, cards, n) == seq![Finding::UnknownCard { name: entries[0].name@ }],
    decreases n,
{
    if n == 1 {
        assert(unknown_upto(entries, cards, 0) =~= Seq::<Finding>::empty());
        assert(unknown_upto(entries, cards, 1) =~= seq![Finding::UnknownCard { name: entries[0].name@ }]);
    } else {
        law_unknown_card_reported_once(entries, cards, (n - 1) as nat);
        assert(entries[0].oracle_id@ == entries[n - 1].oracle_id@);
        assert(!fresh(entries, n - 1));
        assert(unknown_upto(entries, cards, n) =~= unknown_upto(entries, cards, (n - 1) as nat));
    }
}

/// A colorless card fits any commander.
pub proof fn law_colorless_fits_any_commander(card: ArchivedCard, entries: Seq<DeckEntry>, cards: Seq<ArchivedCard>)
    requires
        forall|c: Color| !bit_set(card.color_identity, c.position()),
    ensures
        fits_identity(card, entries, cards),
{
}

/// Basic lands ignore the copy limit, in every format.
pub proof fn law_basic_lands_are_unlimited(card: ArchivedCard, format_limit: u32)
    requires
        card.typed("Basic"@),
        card.typed("Land"@),
    ensures
        allowance(card, format_limit) == u32::MAX,
{
}

/// The sixty-card formats have a minimum and no maximum.
pub proof fn law_sixty_card_formats_have_no_maximum(format: Format, main: nat, command: nat)
    requires
        crate::deck::rules::sixty_card(format),
        main >= 60,
    ensures
        size_findings(main, command, rules_of(format)) == Seq::<Finding>::empty(),
{
}

/// In Commander the commander counts towards the hundred.
pub proof fn law_commander_counts_towards_the_deck(main: nat, command: nat)
    ensures
        counted(main, command, rules_of(Format::Commander)) == main + command,
        main + command == 100 ==> size_findings(main, command, rules_of(Format::Commander))
            == Seq::<Finding>::empty(),
{
}

/// The deck size a format asks for is held to in both directions where it is exact and from
/// below where it is a minimum: too few cards are reported with the count and the size asked
/// for, too many (where the size is exact) likewise, and a deck of the right size draws no
/// finding. The count is the main deck, plus the command zone where commanders count. The
/// sideboard is held to its limit the same way, or refused outright where there is none.
pub proof fn law_deck_size_is_held_to_the_format(main: nat, command: nat, side: nat, rules: FormatRules)
    requires
        main + command <= u32::MAX,
        side <= u32::MAX,
    ensures
        ({
            let n = if rules.commander matches Some(c) && c.counts_towards_deck_size {
                main + command
            } else {
                main
            };
            &&& (rules.deck_size matches DeckSize::Exactly(size) ==> n > size ==> size_findings(
                main,
                command,
                rules,
            ) == seq![Finding::DeckTooLarge { found: n as u32, allowed: size }])
            &&& (rules.deck_size matches DeckSize::Exactly(size) ==> n < size ==> size_findings(
                main,
                command,
                rules,
            ) == seq![Finding::DeckTooSmall { found: n as u32, required: size }])
            &&& (rules.deck_size matches DeckSize::Exactly(size) ==> n == size ==> size_findings(
                main,
                command,
                rules,
            ).len() == 0)
            &&& (rules.deck_size matches DeckSize::AtLeast(size) ==> n < size ==> size_findings(
                main,
                command,
                rules,
            ) == seq![Finding::DeckTooSmall { found: n as u32, required: size }])
            &&& (rules.deck_size matches DeckSize::AtLeast(size) ==> n >= size ==> size_findings(
                main,
                command,
                rules,
            ).len() == 0)
        }),
        rules.max_sideboard > 0 && side > rules.max_sideboard ==> sideboard_findings(side, rules)
            == seq![Finding::SideboardTooLarge { found: side as u32, allowed: rules.max_sideboard }],
        rules.max_sideboard == 0 && side > 0 ==> sideboard_findings(side, rules) == seq![
            Finding::SideboardNotAllowed { found: side as u32 },
        ],
        side <= rules.max_sideboard ==> sideboard_findings(side, rules).len() == 0,
{
}

/// A Commander deck is a hundred cards with its commander: a hundred and one is too many.
pub proof fn law_a_commander_deck_is_a_hundred_cards(main: nat, command: nat)
    requires
        main + command <= u32::MAX,
    ensures
        main + command > 100 ==> size_findings(main, command, rules_of(Format::Commander)) == seq![
            Finding::DeckTooLarge { found: (main + command) as u32, allowed: 100 },
        ],
        main + command < 100 ==> size_findings(main, command, rules_of(Format::Commander)) == seq![
            Finding::DeckTooSmall { found: (main + command) as u32, required: 100 },
        ],
{
}
} // verus!
