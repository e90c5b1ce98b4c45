//! Estimating which Commander bracket a deck belongs to.
//!
//! Wizards' bracket system runs 1 (Exhibition) to 5 (cEDH). The published criteria are about
//! expected game length, with three concrete markers: cards from the official Game Changers
//! list, two-card infinite combos, and mass land denial or chained extra turns.
//!
//! # What this cannot tell you
//!
//! Brackets 1 and 5 are about intent, not contents. Bracket 1 is a deck built around a theme
//! where winning is not the point; bracket 5 is a deck built to win a tournament. Nothing here
//! can see that, so the estimate is deliberately bounded to 2 to 4 and says so rather than
//! pretending to a precision it does not have.

use vstd::prelude::*;

use crate::combo::combo::ComboDatabase;
use crate::combo::detect::{describes, playable, reports, ComboIndex, ComboMatch};
use crate::data::card::ArchivedCard;
use crate::data::catalog::Catalog;
use crate::deck::deck::{Deck, Zone};
use crate::text::{
    chars_of, decimal, has_sub, lemma_lex_total, lex_less, lower_cased, push_decimal, push_str,
    str_contains, str_eq, str_less, string_of, to_lowercase,
};

verus! {

/// Most Game Changers a bracket 3 deck may hold. Brackets 1 and 2 allow none.
pub const BRACKET_3_GAME_CHANGER_LIMIT: usize = 3;

/// A card that pushed the estimate up, and why.
#[derive(Debug, Clone, PartialEq, Eq)]
pub struct Marker {
    pub name: String,
    /// What about it matters, in a few words.
    pub note: String,
}

/// A marker's text.
pub struct MarkerView {
    pub name: Seq<char>,
    pub note: Seq<char>,
}

impl View for Marker {
    type V = MarkerView;

    open spec fn view(&self) -> MarkerView {
        MarkerView { name: self.name@, note: self.note@ }
    }
}

/// What bracket a deck looks like, and what led there.
#[derive(Debug, Clone)]
pub struct BracketAssessment {
    /// Between 2 and 4. See the module docs for why 1 and 5 are not reachable.
    pub bracket: u8,
    /// Sentences explaining the number, in the order they were applied.
    pub reasons: Vec<String>,
    pub game_changers: Vec<Marker>,
    /// Two-card infinite combos, which are what the bracket rules single out.
    pub two_card_combos: Vec<ComboMatch>,
    /// Longer combos, reported for information without moving the bracket.
    pub longer_combos: Vec<ComboMatch>,
    pub mass_land_denial: Vec<Marker>,
    pub extra_turns: Vec<Marker>,
    pub tutors: Vec<Marker>,
    /// Things the estimate could not check, stated so the number is not read as certainty.
    pub caveats: Vec<String>,
}

/// The name of a bracket.
pub open spec fn bracket_name(bracket: u8) -> Seq<char> {
    if bracket == 1 {
        "Exhibition"@
    } else if bracket == 2 {
        "Core"@
    } else if bracket == 3 {
        "Upgraded"@
    } else if bracket == 4 {
        "Optimized"@
    } else {
        "cEDH"@
    }
}

impl BracketAssessment {
    pub fn label(&self) -> (r: &'static str)
        ensures
            r@ == bracket_name(self.bracket),
    {
        match self.bracket {
            1 => "Exhibition",
            2 => "Core",
            3 => "Upgraded",
            4 => "Optimized",
            _ => "cEDH",
        }
    }
}

/// The mass land denial pattern a lower-cased text contains, first in the list.
///
/// A heuristic, and a deliberately narrow one: it looks for effects that destroy or sacrifice
/// all lands. Stax pieces that merely tax or slow lands, Winter Orb and Rising Waters, are not
/// mass land denial under the bracket rules and are left alone.
pub open spec fn land_denial_pattern(lower: Seq<char>) -> Option<Seq<char>> {
    if has_sub(lower, "destroy all lands"@) {
        Some("destroy all lands"@)
    } else if has_sub(lower, "each player sacrifices all lands"@) {
        Some("each player sacrifices all lands"@)
    } else if has_sub(lower, "destroy target player's lands"@) {
        Some("destroy target player's lands"@)
    } else if has_sub(lower, "sacrifice all lands"@) {
        Some("sacrifice all lands"@)
    } else if has_sub(lower, "exile all lands"@) {
        Some("exile all lands"@)
    } else {
        None
    }
}

/// What mass land denial a card's text shows, as a note.
pub open spec fn land_denial_note(text: Seq<char>) -> Option<Seq<char>> {
    match land_denial_pattern(lower_cased(text)) {
        Some(p) => Some("mass land denial: \""@ + p + "\""@),
        None => None,
    }
}

/// The extra-turn note a card's text earns.
pub open spec fn extra_turn_note(text: Seq<char>) -> Option<Seq<char>> {
    let lower = lower_cased(text);
    if has_sub(lower, "take an extra turn"@) || has_sub(lower, "takes an extra turn"@) {
        Some("takes an extra turn"@)
    } else {
        None
    }
}

/// The tutor note a card's text earns. Tutors are reported rather than counted against the
/// bracket: the rules say they should be sparse below bracket 3 without putting a number on
/// it, and inventing one would be presenting a guess as a rule.
pub open spec fn tutor_note(text: Seq<char>) -> Option<Seq<char>> {
    let lower = lower_cased(text);
    if has_sub(lower, "search your library for a card"@) || has_sub(
        lower,
        "search your library for up to"@,
    ) {
        Some("searches your library"@)
    } else {
        None
    }
}

fn pattern_found(lower: &str, pattern: &str) -> (r: Option<String>)
    ensures
        r matches Some(s) ==> has_sub(lower@, pattern@) && s@ == "mass land denial: \""@
            + pattern@ + "\""@,
        r is None ==> !has_sub(lower@, pattern@),
{
    if str_contains(lower, pattern) {
        let mut out = String::new();
        push_str(&mut out, "mass land denial: \"");
        push_str(&mut out, pattern);
        push_str(&mut out, "\"");
        Some(out)
    } else {
        None
    }
}

/// Mass land denial, read off rules text.
pub fn detect_mass_land_denial(text: &str) -> (r: Option<String>)
    ensures
        r matches Some(s) ==> land_denial_note(text@) == Some(s@),
        r is None ==> land_denial_note(text@) is None,
{
    let lower = to_lowercase(text);
    let l = lower.as_str();
    if let Some(s) = pattern_found(l, "destroy all lands") {
        return Some(s);
    }
    if let Some(s) = pattern_found(l, "each player sacrifices all lands") {
        return Some(s);
    }
    if let Some(s) = pattern_found(l, "destroy target player's lands") {
        return Some(s);
    }
    if let Some(s) = pattern_found(l, "sacrifice all lands") {
        return Some(s);
    }
    if let Some(s) = pattern_found(l, "exile all lands") {
        return Some(s);
    }
    None
}

fn owned(s: &str) -> (r: String)
    ensures
        r@ == s@,
{
    string_of(chars_of(s).as_slice())
}

/// Extra-turn effects, read off rules text.
pub fn detect_extra_turns(text: &str) -> (r: Option<String>)
    ensures
        r matches Some(s) ==> extra_turn_note(text@) == Some(s@),
        r is None ==> extra_turn_note(text@) is None,
{
    let lower = to_lowercase(text);
    if str_contains(lower.as_str(), "take an extra turn") || str_contains(
        lower.as_str(),
        "takes an extra turn",
    ) {
        Some(owned("takes an extra turn"))
    } else {
        None
    }
}

/// Tutors, read off rules text.
pub fn detect_tutor(text: &str) -> (r: Option<String>)
    ensures
        r matches Some(s) ==> tutor_note(text@) == Some(s@),
        r is None ==> tutor_note(text@) is None,
{
    let lower = to_lowercase(text);
    if str_contains(lower.as_str(), "search your library for a card") || str_contains(
        lower.as_str(),
        "search your library for up to",
    ) {
        Some(owned("searches your library"))
    } else {
        None
    }
}

/// One of the things a card is checked for.
#[derive(Debug, Clone, Copy, PartialEq, Eq, Structural)]
pub enum Check {
    GameChanger,
    MassLandDenial,
    ExtraTurns,
    Tutor,
}

/// The note a card earns under a check, if any.
pub open spec fn note_of(check: Check, card: ArchivedCard) -> Option<Seq<char>> {
    match check {
        Check::GameChanger => if card.game_changer {
            Some("on the official Game Changers list"@)
        } else {
            None
        },
        Check::MassLandDenial => land_denial_note(card.oracle_text@),
        Check::ExtraTurns => extra_turn_note(card.oracle_text@),
        Check::Tutor => tutor_note(card.oracle_text@),
    }
}

fn note(check: Check, card: &ArchivedCard) -> (r: Option<String>)
    ensures
        r matches Some(s) ==> note_of(check, *card) == Some(s@),
        r is None ==> note_of(check, *card) is None,
{
    match check {
        Check::GameChanger => if card.is_game_changer() {
            Some(owned("on the official Game Changers list"))
        } else {
            None
        },
        Check::MassLandDenial => detect_mass_land_denial(card.oracle_text()),
        Check::ExtraTurns => detect_extra_turns(card.oracle_text()),
        Check::Tutor => detect_tutor(card.oracle_text()),
    }
}

/// The markers a check puts on cards, in the order given.
pub open spec fn marks(order: Seq<int>, cards: Seq<ArchivedCard>, check: Check) -> Seq<MarkerView>
    decreases order.len(),
{
    if order.len() == 0 {
        Seq::empty()
    } else {
        let card = cards[order.last()];
        marks(order.drop_last(), cards, check) + (match note_of(check, card) {
            Some(n) => seq![MarkerView { name: card.name@, note: n }],
            None => Seq::empty(),
        })
    }
}

/// True when a card of the catalog is played by the deck, outside its sideboard.
pub open spec fn played(cards: Seq<ArchivedCard>, wanted: Seq<Seq<char>>, j: int) -> bool {
    0 <= j < cards.len() && wanted.contains(cards[j].oracle_id@)
}

/// True when catalog position `a` sorts before `b`: by name, ties kept in catalog order.
pub open spec fn card_first(cards: Seq<ArchivedCard>, a: int, b: int) -> bool {
    lex_less(cards[a].name@, cards[b].name@) || (cards[a].name@ == cards[b].name@ && a < b)
}

/// True when `order` lists the played cards of the catalog, each once, sorted by name.
pub open spec fn deck_order(order: Seq<int>, cards: Seq<ArchivedCard>, wanted: Seq<Seq<char>>) -> bool {
    &&& order.no_duplicates()
    &&& forall|y: int| #[trigger] order.contains(y) <==> played(cards, wanted, y)
    &&& forall|k: int| 0 <= k < order.len() - 1 ==> card_first(cards, order[k], #[trigger] order[k + 1])
}

fn contains_text(present: &[String], id: &str) -> (r: bool)
    ensures
        r == present@.map_values(|x: String| x@).contains(id@),
{
    let ghost t = present@.map_values(|x: String| x@);
    let mut i: usize = 0;
    while i < present.len()
        invariant
            t == present@.map_values(|x: String| x@),
            i <= present@.len(),
            forall|k: int| 0 <= k < i ==> present@[k]@ != id@,
        decreases present@.len() - i,
    {
        if str_eq(present[i].as_str(), id) {
            assert(t[i as int] == id@);
            return true;
        }
        i = i + 1;
    }
    proof {
        if t.contains(id@) {
            let k = choose|k: int| 0 <= k < t.len() && t[k] == id@;
            assert(present@[k]@ == id@);
        }
    }
    false
}

proof fn lemma_insert_seq(s: Seq<int>, p: int, x: int)
    requires
        0 <= p <= s.len(),
    ensures
        forall|y: int| #[trigger] s.insert(p, x).contains(y) <==> (s.contains(y) || y == x),
        s.no_duplicates() && !s.contains(x) ==> s.insert(p, x).no_duplicates(),
{
    s.insert_ensures(p, x);
    let t = s.insert(p, x);
    assert forall|y: int| #[trigger] t.contains(y) <==> (s.contains(y) || y == x) by {
        if t.contains(y) {
            let k = choose|k: int| 0 <= k < t.len() && t[k] == y;
            if k < p {
                assert(s[k] == y);
            } else if k > p {
                assert(s[k - 1] == y);
            }
        }
        if s.contains(y) {
            let k = choose|k: int| 0 <= k < s.len() && s[k] == y;
            if k < p {
                assert(t[k] == y);
            } else {
                assert(t[k + 1] == y);
            }
        }
        if y == x {
            assert(t[p] == x);
        }
    }
    if s.no_duplicates() && !s.contains(x) {
        assert forall|a: int, b: int| 0 <= a < t.len() && 0 <= b < t.len() && a != b implies t[a] != t[b] by {
            let a0 = if a < p { a } else { a - 1 };
            let b0 = if b < p { b } else { b - 1 };
            if a != p && b != p {
                assert(t[a] == s[a0] && t[b] == s[b0]);
            } else if a == p {
                assert(t[b] == s[b0]);
            } else {
                assert(t[a] == s[a0]);
            }
        }
    }
}

/// The catalog positions of the distinct cards a deck plays, sideboard excluded, by name.
fn deck_cards(wanted: &[String], catalog: &Catalog) -> (r: Vec<usize>)
    ensures
        deck_order(
            r@.map_values(|j: usize| j as int),
            catalog.cards_view(),
            wanted@.map_values(|x: String| x@),
        ),
{
    let cards = catalog.cards();
    let ghost cs = catalog.cards_view();
    let ghost w = wanted@.map_values(|x: String| x@);
    let mut order: Vec<usize> = Vec::new();
    let ghost mut o: Seq<int> = Seq::empty();
    let mut i: usize = 0;
    while i < cards.len()
        invariant
            cards@ == cs,
            w == wanted@.map_values(|x: String| x@),
            i <= cs.len(),
            o == order@.map_values(|j: usize| j as int),
            o.no_duplicates(),
            forall|k: int| 0 <= k < o.len() ==> 0 <= #[trigger] o[k] < i,
            forall|y: int| #[trigger] o.contains(y) <==> (played(cs, w, y) && y < i),
            forall|k: int| 0 <= k < o.len() - 1 ==> card_first(cs, o[k], #[trigger] o[k + 1]),
        decreases cs.len() - i,
    {
        if contains_text(wanted, cards[i].oracle_id.as_str()) {
            assert forall|k: int| 0 <= k < order@.len() implies (#[trigger] order@[k]) < i by {
                assert(o[k] == order@[k] as int);
            }
            let mut p: usize = 0;
            while p < order.len() && !str_less(cards[i].name.as_str(), cards[order[p]].name.as_str())
                invariant
                    cards@ == cs,
                    i < cs.len(),
                    o == order@.map_values(|j: usize| j as int),
                    p <= o.len(),
                    forall|k: int| 0 <= k < o.len() ==> 0 <= #[trigger] o[k] < i,
                    forall|k: int| 0 <= k < order@.len() ==> (#[trigger] order@[k]) < i,
                    forall|k: int| 0 <= k < p ==> !lex_less(cs[i as int].name@, cs[#[trigger] o[k]].name@),
                decreases o.len() - p,
            {
                assert(o[p as int] == order@[p as int] as int);
                p = p + 1;
            }
            let ghost before = o;
            proof {
                lemma_insert_seq(before, p as int, i as int);
                before.insert_ensures(p as int, i as int);
                if p > 0 {
                    lemma_lex_total(cs[i as int].name@, cs[before[p - 1]].name@);
                }
                o = before.insert(p as int, i as int);
                assert forall|k: int| 0 <= k < o.len() - 1 implies card_first(cs, o[k], #[trigger] o[k + 1]) by {
                    if k + 1 < p {
                        assert(o[k] == before[k] && o[k + 1] == before[k + 1]);
                    } else if k + 1 == p {
                        assert(o[k] == before[k]);
                    } else if k == p {
                        assert(o[k + 1] == before[k]);
                        assert(o[p as int] == i);
                        assert(before[p as int] == order@[p as int] as int);
                    } else {
                        assert(o[k] == before[k - 1] && o[k + 1] == before[k]);
                    }
                }
            }
            order.insert(p, i);
            assert(o =~= order@.map_values(|j: usize| j as int));
        }
        assert forall|y: int| #[trigger] o.contains(y) <==> (played(cs, w, y) && y < i + 1) by {
            if o.contains(y) {
                let k = choose|k: int| 0 <= k < o.len() && o[k] == y;
                assert(0 <= o[k] < i + 1);
            }
        }
        assert forall|k: int| 0 <= k < o.len() implies 0 <= #[trigger] o[k] < i + 1 by {}
        i = i + 1;
    }
    order
}

/// Markers for the cards in `order` that a check catches.
fn collect(order: &Vec<usize>, catalog: &Catalog, check: Check) -> (r: Vec<Marker>)
    requires
        forall|k: int| 0 <= k < order@.len() ==> (#[trigger] order@[k]) < catalog.cards_view().len(),
    ensures
        r@.map_values(|m: Marker| m@) == marks(
            order@.map_values(|j: usize| j as int),
            catalog.cards_view(),
            check,
        ),
{
    let cards = catalog.cards();
    let ghost cs = catalog.cards_view();
    let ghost o = order@.map_values(|j: usize| j as int);
    let mut out: Vec<Marker> = Vec::new();
    let mut i: usize = 0;
    while i < order.len()
        invariant
            cards@ == cs,
            o == order@.map_values(|j: usize| j as int),
            forall|k: int| 0 <= k < order@.len() ==> (#[trigger] order@[k]) < cs.len(),
            i <= o.len(),
            out@.map_values(|m: Marker| m@) == marks(o.take(i as int), cs, check),
        decreases o.len() - i,
    {
        let card = &cards[order[i]];
        let ghost before = out@;
        assert(o.take(i + 1).drop_last() =~= o.take(i as int));
        assert(o.take(i + 1).last() == order@[i as int] as int);
        match note(check, card) {
            Some(n) => {
                out.push(Marker { name: owned(card.name()), note: n });
            },
            None => {},
        }
        assert(out@.map_values(|m: Marker| m@) =~= marks(o.take(i + 1), cs, check));
        i = i + 1;
    }
    assert(o.take(o.len() as int) =~= o);
    out
}

/// The bracket the markers put a deck in.
pub open spec fn bracket_for(game_changers: nat, two_card: nat, land_denial: nat, extra_turns: nat) -> u8 {
    if game_changers > BRACKET_3_GAME_CHANGER_LIMIT || land_denial > 0 || extra_turns > 1 {
        4
    } else if game_changers > 0 || two_card > 0 {
        3
    } else {
        2
    }
}

/// The reasons given for a bracket, in the order the criteria are applied.
pub open spec fn reasons_for(game_changers: nat, two_card: nat, land_denial: nat, extra_turns: nat) -> Seq<Seq<char>> {
    let r1 = if game_changers > BRACKET_3_GAME_CHANGER_LIMIT {
        seq![decimal(game_changers) + " Game Changers \u{2014} bracket 3 allows at most 3"@]
    } else if game_changers > 0 {
        seq![decimal(game_changers) + " Game Changer(s) \u{2014} brackets 1 and 2 allow none"@]
    } else {
        Seq::empty()
    };
    let r2 = if two_card > 0 {
        seq![decimal(two_card) + " two-card infinite combo(s) \u{2014} not allowed below bracket 3"@]
    } else {
        Seq::empty()
    };
    let r3 = if land_denial > 0 {
        seq![decimal(land_denial) + " mass land denial effect(s) \u{2014} not expected below bracket 4"@]
    } else {
        Seq::empty()
    };
    let r4 = if extra_turns > 1 {
        seq![decimal(extra_turns) + " extra-turn cards \u{2014} a single one is fine, several suggest chaining"@]
    } else {
        Seq::empty()
    };
    let all = r1 + r2 + r3 + r4;
    if all.len() == 0 {
        seq!["nothing found that a bracket 2 deck should not have"@]
    } else {
        all
    }
}

/// The caveats attached to every estimate, and the ones a missing combo database or many
/// tutors add.
pub open spec fn caveats_for(without_combos: bool, tutors: nat) -> Seq<Seq<char>> {
    seq![
        "Brackets 1 and 5 depend on how a deck is played, not on what is in it, so this estimate only ranges from 2 to 4."@,
    ] + (if without_combos {
        seq![
            "The combo database is not loaded, so two-card combos were not checked \u{2014} the real bracket may be higher."@,
        ]
    } else {
        Seq::empty()
    }) + (if tutors >= 5 {
        seq![
            decimal(tutors)
                + " tutors. The rules say tutors should be sparse below bracket 3 without saying how many is too many, so this is reported rather than counted."@,
        ]
    } else {
        Seq::empty()
    })
}

/// True when a found combo moves the bracket at all: it is infinite or wins outright.
pub open spec fn counts(m: ComboMatch) -> bool {
    m.is_infinite || m.wins_the_game
}

fn text_of(n: usize, tail: &str) -> (r: String)
    ensures
        r@ == decimal(n as nat) + tail@,
{
    let mut out = String::new();
    push_decimal(&mut out, n as u64);
    push_str(&mut out, tail);
    out
}

/// Splits found combos that count into two-card ones and longer ones, each in order.
fn split_combos(found: Vec<ComboMatch>) -> (r: (Vec<ComboMatch>, Vec<ComboMatch>))
    ensures
        r.0@ == found@.filter(|m: ComboMatch| counts(m) && m.card_count <= 2),
        r.1@ == found@.filter(|m: ComboMatch| counts(m) && m.card_count > 2),
{
    let ghost all = found@;
    let mut two: Vec<ComboMatch> = Vec::new();
    let mut longer: Vec<ComboMatch> = Vec::new();
    let mut rest = found;
    let total = rest.len();
    let mut i: usize = 0;
    let ghost n = all.len();
    while rest.len() > 0
        invariant
            n == total,
            rest@ == all.skip(i as int),
            i <= n,
            rest@.len() + i == n,
            n == all.len(),
            two@ == all.take(i as int).filter(|m: ComboMatch| counts(m) && m.card_count <= 2),
            longer@ == all.take(i as int).filter(|m: ComboMatch| counts(m) && m.card_count > 2),
        decreases rest@.len(),
    {
        let m = rest.remove(0);
        assert(all.take(i + 1).drop_last() =~= all.take(i as int));
        assert(all.take(i + 1).last() == m);
        reveal_with_fuel(Seq::filter, 1);
        if (m.is_infinite || m.wins_the_game) && m.card_count <= 2 {
            two.push(m);
        } else if m.is_infinite || m.wins_the_game {
            longer.push(m);
        }
        assert(rest@ =~= all.skip(i + 1));
        i = i + 1;
    }
    assert(all.take(i as int) =~= all);
    (two, longer)
}

/// Estimates a deck's bracket.
///
/// `combos` may be absent, since the artifact is an optional download; then the combo-based
/// criteria are skipped and said to have been skipped, rather than silently treated as clean.
pub fn assess(deck: &Deck, catalog: &Catalog, combos: Option<&ComboDatabase>) -> (r: BracketAssessment)
    ensures
        exists|order: Seq<int>|
            deck_order(order, catalog.cards_view(), playable(deck.entries@)) && r.game_changers@.map_values(
                |m: Marker| m@,
            ) == marks(order, catalog.cards_view(), Check::GameChanger) && r.mass_land_denial@.map_values(
                |m: Marker| m@,
            ) == marks(order, catalog.cards_view(), Check::MassLandDenial) && r.extra_turns@.map_values(
                |m: Marker| m@,
            ) == marks(order, catalog.cards_view(), Check::ExtraTurns) && r.tutors@.map_values(
                |m: Marker| m@,
            ) == marks(order, catalog.cards_view(), Check::Tutor),
        combos is None ==> r.two_card_combos@.len() == 0 && r.longer_combos@.len() == 0,
        combos matches Some(db) ==> exists|found: Seq<int>, all: Seq<ComboMatch>|
            reports(found, db.combos_view(), playable(deck.entries@)) && all.len() == found.len()
                && (forall|k: int| 0 <= k < all.len() ==> describes(#[trigger] all[k], db.combos_view()[found[k]]))
                && r.two_card_combos@ == all.filter(|m: ComboMatch| counts(m) && m.card_count <= 2)
                && r.longer_combos@ == all.filter(|m: ComboMatch| counts(m) && m.card_count > 2),
        r.bracket == bracket_for(
            r.game_changers@.len(),
            r.two_card_combos@.len(),
            r.mass_land_denial@.len(),
            r.extra_turns@.len(),
        ),
        r.reasons@.map_values(|s: String| s@) == reasons_for(
            r.game_changers@.len(),
            r.two_card_combos@.len(),
            r.mass_land_denial@.len(),
            r.extra_turns@.len(),
        ),
        r.caveats@.map_values(|s: String| s@) == caveats_for(combos is None, r.tutors@.len()),
{
    let mut wanted: Vec<String> = Vec::new();
    let mut i: usize = 0;
    while i < deck.entries.len()
        invariant
            i <= deck.entries@.len(),
            wanted@.map_values(|x: String| x@) == playable(deck.entries@.take(i as int)),
        decreases deck.entries@.len() - i,
    {
        assert(deck.entries@.take(i + 1).drop_last() =~= deck.entries@.take(i as int));
        if deck.entries[i].zone != Zone::Sideboard {
            wanted.push(owned(deck.entries[i].oracle_id.as_str()));
        }
        assert(wanted@.map_values(|x: String| x@) =~= playable(deck.entries@.take(i + 1)));
        i = i + 1;
    }
    assert(deck.entries@.take(i as int) =~= deck.entries@);
    let order = deck_cards(wanted.as_slice(), catalog);
    let ghost o = order@.map_values(|j: usize| j as int);
    assert forall|k: int| 0 <= k < order@.len() implies (#[trigger] order@[k]) < catalog.cards_view().len() by {
        assert(o.contains(o[k]));
    }
    let game_changers = collect(&order, catalog, Check::GameChanger);
    let mass_land_denial = collect(&order, catalog, Check::MassLandDenial);
    let extra_turns = collect(&order, catalog, Check::ExtraTurns);
    let tutors = collect(&order, catalog, Check::Tutor);

    let (two_card_combos, longer_combos) = match combos {
        Some(database) => {
            let index = ComboIndex::build(database);
            split_combos(index.find_in(deck))
        },
        None => (Vec::new(), Vec::new()),
    };

    let g = game_changers.len();
    let t = two_card_combos.len();
    let d = mass_land_denial.len();
    let e = extra_turns.len();
    let mut bracket: u8 = 2;
    let mut reasons: Vec<String> = Vec::new();
    if g > BRACKET_3_GAME_CHANGER_LIMIT {
        bracket = 4;
        reasons.push(text_of(g, " Game Changers \u{2014} bracket 3 allows at most 3"));
    } else if g > 0 {
        bracket = 3;
        reasons.push(text_of(g, " Game Changer(s) \u{2014} brackets 1 and 2 allow none"));
    }
    if t > 0 {
        if bracket < 3 {
            bracket = 3;
        }
        reasons.push(text_of(t, " two-card infinite combo(s) \u{2014} not allowed below bracket 3"));
    }
    if d > 0 {
        bracket = 4;
        reasons.push(text_of(d, " mass land denial effect(s) \u{2014} not expected below bracket 4"));
    }
    // One extra turn is fine at any bracket; it is chaining them that is not. Two or more
    // separate cards is the closest a card list gets to showing intent to chain.
    if e > 1 {
        bracket = 4;
        reasons.push(text_of(e, " extra-turn cards \u{2014} a single one is fine, several suggest chaining"));
    }
    if reasons.len() == 0 {
        reasons.push(owned("nothing found that a bracket 2 deck should not have"));
    }
    assert(reasons@.map_values(|s: String| s@) =~= reasons_for(g as nat, t as nat, d as nat, e as nat));

    let mut caveats: Vec<String> = Vec::new();
    caveats.push(owned(
        "Brackets 1 and 5 depend on how a deck is played, not on what is in it, so this estimate only ranges from 2 to 4.",
    ));
    if combos.is_none() {
        caveats.push(owned(
            "The combo database is not loaded, so two-card combos were not checked \u{2014} the real bracket may be higher.",
        ));
    }
    if tutors.len() >= 5 {
        caveats.push(text_of(
            tutors.len(),
            " tutors. The rules say tutors should be sparse below bracket 3 without saying how many is too many, so this is reported rather than counted.",
        ));
    }
    assert(caveats@.map_values(|s: String| s@) =~= caveats_for(combos is None, tutors@.len()));

    BracketAssessment {
        bracket,
        reasons,
        game_changers,
        two_card_combos,
        longer_combos,
        mass_land_denial,
        extra_turns,
        tutors,
        caveats,
    }
}

/// The estimate never claims bracket 1 or 5: those depend on how a deck is played.
pub proof fn law_bracket_is_two_to_four(game_changers: nat, two_card: nat, land_denial: nat, extra_turns: nat)
    ensures
        2 <= bracket_for(game_changers, two_card, land_denial, extra_turns) <= 4,
{
}

/// Tutors never move the bracket: [`assess`] works it out from game changers, two-card
/// combos, mass land denial and extra turns alone. All tutors change is the caveats: the same
/// ones as with no tutors, and one more when there are five or more.
pub proof fn law_tutors_do_not_move_the_bracket(without_combos: bool, tutors: nat)
    ensures
        caveats_for(without_combos, tutors).len() == caveats_for(without_combos, 0).len() + (if tutors
            >= 5 {
            1nat
        } else {
            0nat
        }),
        caveats_for(without_combos, tutors).take(caveats_for(without_combos, 0).len() as int)
            == caveats_for(without_combos, 0),
{
    assert(caveats_for(without_combos, tutors).take(caveats_for(without_combos, 0).len() as int)
        =~= caveats_for(without_combos, 0));
}

/// One extra turn is fine at any bracket; a second one puts the deck at four.
pub proof fn law_extra_turns_count_from_two(game_changers: nat, two_card: nat, land_denial: nat)
    ensures
        bracket_for(game_changers, two_card, land_denial, 1) == bracket_for(
            game_changers,
            two_card,
            land_denial,
            0,
        ),
        bracket_for(game_changers, two_card, land_denial, 2) == 4,
{
}

/// Every estimate says that brackets 1 and 5 are out of its reach, and a missing combo
/// database is admitted rather than assumed clean.
pub proof fn law_caveats_are_admitted(without_combos: bool, tutors: nat)
    ensures
        caveats_for(without_combos, tutors)[0]
            == "Brackets 1 and 5 depend on how a deck is played, not on what is in it, so this estimate only ranges from 2 to 4."@,
        without_combos ==> caveats_for(without_combos, tutors)[1]
            == "The combo database is not loaded, so two-card combos were not checked \u{2014} the real bracket may be higher."@,
{
}

/// A card's rules text earns a note exactly when it words the effect the way the game does,
/// in any case: "take(s) an extra turn" for extra turns, "search your library for a card" or
/// "... for up to" for tutors, and for mass land denial destroying, sacrificing or exiling
/// all lands, or destroying a player's lands.
pub proof fn law_effects_are_found_by_their_wording(text: Seq<char>)
    ensures
        has_sub(lower_cased(text), "takes an extra turn"@) ==> extra_turn_note(text) == Some(
            "takes an extra turn"@,
        ),
        has_sub(lower_cased(text), "take an extra turn"@) ==> extra_turn_note(text) == Some(
            "takes an extra turn"@,
        ),
        extra_turn_note(text) is Some ==> has_sub(lower_cased(text), "takes an extra turn"@)
            || has_sub(lower_cased(text), "take an extra turn"@),
        has_sub(lower_cased(text), "search your library for a card"@) ==> tutor_note(text) == Some(
            "searches your library"@,
        ),
        has_sub(lower_cased(text), "search your library for up to"@) ==> tutor_note(text) == Some(
            "searches your library"@,
        ),
        tutor_note(text) is Some ==> has_sub(lower_cased(text), "search your library for a card"@)
            || has_sub(lower_cased(text), "search your library for up to"@),
        has_sub(lower_cased(text), "destroy all lands"@) ==> land_denial_note(text) == Some(
            "mass land denial: \"destroy all lands\""@,
        ),
        has_sub(lower_cased(text), "each player sacrifices all lands"@) || has_sub(
            lower_cased(text),
            "destroy target player's lands"@,
        ) || has_sub(lower_cased(text), "sacrifice all lands"@) || has_sub(
            lower_cased(text),
            "exile all lands"@,
        ) ==> land_denial_note(text) is Some,
        land_denial_note(text) is Some ==> has_sub(lower_cased(text), "destroy all lands"@)
            || has_sub(lower_cased(text), "each player sacrifices all lands"@) || has_sub(
            lower_cased(text),
            "destroy target player's lands"@,
        ) || has_sub(lower_cased(text), "sacrifice all lands"@) || has_sub(
            lower_cased(text),
            "exile all lands"@,
        ),
{
    reveal_strlit("mass land denial: \"");
    reveal_strlit("destroy all lands");
    reveal_strlit("\"");
    reveal_strlit("mass land denial: \"destroy all lands\"");
    assert("mass land denial: \""@ + "destroy all lands"@ + "\""@ =~= "mass land denial: \"destroy all lands\""@);
}
} // verus!
