//! Searching and filtering the catalog.
//!
//! Deliberately a linear scan: walking a catalog of tens of thousands of cards with these
//! predicates is well under what a UI needs.

use vstd::prelude::*;

use crate::color::{bit_set, Color, ColorSet};
use crate::data::card::ArchivedCard;
use crate::data::catalog::Catalog;
use crate::format::Format;
use crate::text::{ascii_lower, chars_of, lowered, to_ascii_lower, to_lowercase, string_of};
use crate::CardId;

verus! {

/// How a card's colors must relate to the colors given.
#[derive(Debug, Clone, Copy, PartialEq, Eq, Structural)]
pub enum ColorMatch {
    /// Exactly these colors, no more and no fewer.
    Exactly(ColorSet),
    /// At least these colors.
    Including(ColorSet),
    /// Nothing outside these colors. This is the Commander identity rule.
    Within(ColorSet),
}

/// A catalog query.
///
/// Filters combine with AND. An empty query matches every card. Mana values are given
/// doubled, as whole numbers: Magic's mana values are whole or half numbers, so twice the
/// value is exact.
#[derive(Debug, Clone)]
pub struct Query {
    text: Option<String>,
    name: Option<String>,
    colors: Option<ColorMatch>,
    card_types: Vec<String>,
    format: Option<Format>,
    min_mana_value_halves: Option<u32>,
    max_mana_value_halves: Option<u32>,
    game_changer: Option<bool>,
    can_be_commander: Option<bool>,
    limit: Option<usize>,
}

/// True when `needle` occurs in `hay` with the haystack's ASCII letters lower-cased: the
/// needle is expected lower-cased already. An empty needle occurs everywhere.
pub open spec fn contains_folded(hay: Seq<char>, needle: Seq<char>) -> bool {
    needle.len() == 0 || exists|i: int| #[trigger] folded_at_spec(hay, needle, i)
}

/// True when `needle` occurs at `i` in `hay`, the haystack's ASCII letters lower-cased.
pub open spec fn folded_at_spec(hay: Seq<char>, needle: Seq<char>, i: int) -> bool {
    0 <= i && i + needle.len() <= hay.len() && forall|k: int|
        0 <= k < needle.len() ==> ascii_lower(hay[i + k]) == #[trigger] needle[k]
}

fn folded_at(hay: &[char], needle: &[char], i: usize) -> (r: bool)
    requires
        i + needle@.len() <= hay@.len(),
    ensures
        r == folded_at_spec(hay@, needle@, i as int),
{
    let mut k: usize = 0;
    while k < needle.len()
        invariant
            i + needle@.len() <= hay@.len(),
            i + needle.len() <= hay.len(),
            k <= needle@.len(),
            forall|m: int| 0 <= m < k ==> ascii_lower(#[trigger] hay@[i + m]) == needle@[m],
        decreases needle@.len() - k,
    {
        assert(i + k < hay@.len());
        if to_ascii_lower(hay[i + k]) != needle[k] {
            return false;
        }
        k = k + 1;
    }
    true
}

/// Case-insensitive substring search, with `needle_lower` already lower-cased.
///
/// Working on the text as it is, rather than on a lower-cased copy of every card's text,
/// keeps a scan from allocating for each card.
pub fn contains_ignore_ascii_case(haystack: &str, needle_lower: &str) -> (r: bool)
    ensures
        r == contains_folded(haystack@, needle_lower@),
{
    let hay = chars_of(haystack);
    let needle = chars_of(needle_lower);
    if needle.len() == 0 {
        return true;
    }
    if needle.len() > hay.len() {
        return false;
    }
    let last = hay.len() - needle.len();
    let mut i: usize = 0;
    loop
        invariant
            i <= last,
            last + needle@.len() == hay@.len(),
            hay@ == haystack@,
            needle@ == needle_lower@,
            needle@.len() > 0,
            forall|j: int| 0 <= j < i ==> !#[trigger] folded_at_spec(hay@, needle@, j),
        decreases last - i,
    {
        if folded_at(hay.as_slice(), needle.as_slice(), i) {
            return true;
        }
        if i == last {
            proof {
                assert forall|j: int| !#[trigger] folded_at_spec(hay@, needle@, j) by {
                    if 0 <= j && j + needle@.len() <= hay@.len() {
                        assert(j <= i);
                    }
                }
            }
            return false;
        }
        i = i + 1;
    }
}

impl Query {
    pub closed spec fn text_filter(&self) -> Option<Seq<char>> {
        match self.text {
            Some(t) => Some(t@),
            None => None,
        }
    }

    pub closed spec fn name_filter(&self) -> Option<Seq<char>> {
        match self.name {
            Some(t) => Some(t@),
            None => None,
        }
    }

    pub closed spec fn color_filter(&self) -> Option<ColorMatch> {
        self.colors
    }

    pub closed spec fn type_filter(&self) -> Seq<Seq<char>> {
        self.card_types@.map_values(|s: String| s@)
    }

    pub closed spec fn format_filter(&self) -> Option<Format> {
        self.format
    }

    pub closed spec fn min_halves(&self) -> Option<u32> {
        self.min_mana_value_halves
    }

    pub closed spec fn max_halves(&self) -> Option<u32> {
        self.max_mana_value_halves
    }

    pub closed spec fn game_changer_filter(&self) -> Option<bool> {
        self.game_changer
    }

    pub closed spec fn commander_filter(&self) -> Option<bool> {
        self.can_be_commander
    }

    pub closed spec fn limit_filter(&self) -> Option<usize> {
        self.limit
    }

    /// True when a card satisfies every filter of the query.
    pub open spec fn accepts(&self, card: ArchivedCard) -> bool {
        &&& (self.name_filter() matches Some(n) ==> contains_folded(card.name@, n))
        &&& (self.text_filter() matches Some(t) ==> (contains_folded(card.name@, t)
            || contains_folded(card.oracle_text@, t) || exists|i: int|
            0 <= i < card.faces@.len() && (contains_folded(
                #[trigger] card.faces@[i].oracle_text@,
                t,
            ) || contains_folded(card.faces@[i].name@, t))))
        &&& (self.color_filter() matches Some(rule) ==> match rule {
            ColorMatch::Exactly(w) => forall|c: Color| bit_set(card.colors, c.position()) == w.has(c),
            ColorMatch::Including(w) => forall|c: Color| w.has(c) ==> bit_set(card.colors, c.position()),
            ColorMatch::Within(a) => forall|c: Color|
                bit_set(card.color_identity, c.position()) ==> a.has(c),
        })
        &&& (forall|i: int| 0 <= i < self.type_filter().len() ==> card.typed(#[trigger] self.type_filter()[i]))
        &&& (self.format_filter() matches Some(f) ==> card.legality_in(f).playable())
        &&& (self.min_halves() matches Some(m) ==> card.mana_value_halves >= m)
        &&& (self.max_halves() matches Some(m) ==> card.mana_value_halves <= m)
        &&& (self.game_changer_filter() matches Some(g) ==> card.game_changer == g)
        &&& (self.commander_filter() matches Some(g) ==> card.commander_eligible() == g)
    }

    pub fn new() -> (r: Query)
        ensures
            r.text_filter() is None,
            r.name_filter() is None,
            r.color_filter() is None,
            r.type_filter().len() == 0,
            r.format_filter() is None,
            r.min_halves() is None,
            r.max_halves() is None,
            r.game_changer_filter() is None,
            r.commander_filter() is None,
            r.limit_filter() is None,
    {
        let r = Query {
            text: None,
            name: None,
            colors: None,
            card_types: Vec::new(),
            format: None,
            min_mana_value_halves: None,
            max_mana_value_halves: None,
            game_changer: None,
            can_be_commander: None,
            limit: None,
        };
        assert(r.type_filter() =~= Seq::<Seq<char>>::empty());
        r
    }

    /// True when every filter other than the ones listed is as in `other`.
    pub open spec fn same_but(&self, other: &Query, text: bool, name: bool, colors: bool, types: bool, format: bool, min: bool, max: bool, gc: bool, cmd: bool, limit: bool) -> bool {
        &&& (text || self.text_filter() == other.text_filter())
        &&& (name || self.name_filter() == other.name_filter())
        &&& (colors || self.color_filter() == other.color_filter())
        &&& (types || self.type_filter() == other.type_filter())
        &&& (format || self.format_filter() == other.format_filter())
        &&& (min || self.min_halves() == other.min_halves())
        &&& (max || self.max_halves() == other.max_halves())
        &&& (gc || self.game_changer_filter() == other.game_changer_filter())
        &&& (cmd || self.commander_filter() == other.commander_filter())
        &&& (limit || self.limit_filter() == other.limit_filter())
    }

    /// Matches a substring of the card's name, its oracle text, or a face's, ignoring ASCII
    /// case.
    pub fn text(self, text: &str) -> (r: Query)
        ensures
            r.text_filter() == Some(lowered(text@)),
            r.same_but(&self, true, false, false, false, false, false, false, false, false, false),
    {
        Query { text: Some(to_lowercase(text)), ..self }
    }

    /// Matches a substring of the card's name, ignoring ASCII case.
    pub fn name(self, name: &str) -> (r: Query)
        ensures
            r.name_filter() == Some(lowered(name@)),
            r.same_but(&self, false, true, false, false, false, false, false, false, false, false),
    {
        Query { name: Some(to_lowercase(name)), ..self }
    }

    /// Exactly these colors.
    pub fn colors_exactly(self, colors: ColorSet) -> (r: Query)
        ensures
            r.color_filter() == Some(ColorMatch::Exactly(colors)),
            r.same_but(&self, false, false, true, false, false, false, false, false, false, false),
    {
        Query { colors: Some(ColorMatch::Exactly(colors)), ..self }
    }

    /// At least these colors, possibly more.
    pub fn colors_including(self, colors: ColorSet) -> (r: Query)
        ensures
            r.color_filter() == Some(ColorMatch::Including(colors)),
            r.same_but(&self, false, false, true, false, false, false, false, false, false, false),
    {
        Query { colors: Some(ColorMatch::Including(colors)), ..self }
    }

    /// Color identity within these colors: the Commander deck-building rule.
    pub fn identity_within(self, identity: ColorSet) -> (r: Query)
        ensures
            r.color_filter() == Some(ColorMatch::Within(identity)),
            r.same_but(&self, false, false, true, false, false, false, false, false, false, false),
    {
        Query { colors: Some(ColorMatch::Within(identity)), ..self }
    }

    /// Requires a word on the type line, e.g. `"Creature"` or `"Legendary"`. Repeating this
    /// requires all of them.
    pub fn card_type(self, kind: &str) -> (r: Query)
        ensures
            r.type_filter() == self.type_filter().push(kind@),
            r.same_but(&self, false, false, false, true, false, false, false, false, false, false),
    {
        let mut q = self;
        let ghost before = q.type_filter();
        q.card_types.push(string_of(chars_of(kind).as_slice()));
        assert(q.type_filter() =~= before.push(kind@));
        q
    }

    /// Requires the card to be playable in a format, which includes restricted cards.
    pub fn legal_in(self, format: Format) -> (r: Query)
        ensures
            r.format_filter() == Some(format),
            r.same_but(&self, false, false, false, false, true, false, false, false, false, false),
    {
        Query { format: Some(format), ..self }
    }

    /// Mana value at least half of `halves`.
    pub fn mana_value_at_least(self, halves: u32) -> (r: Query)
        ensures
            r.min_halves() == Some(halves),
            r.same_but(&self, false, false, false, false, false, true, false, false, false, false),
    {
        Query { min_mana_value_halves: Some(halves), ..self }
    }

    /// Mana value at most half of `halves`.
    pub fn mana_value_at_most(self, halves: u32) -> (r: Query)
        ensures
            r.max_halves() == Some(halves),
            r.same_but(&self, false, false, false, false, false, false, true, false, false, false),
    {
        Query { max_mana_value_halves: Some(halves), ..self }
    }

    /// Filters on Scryfall's official Commander Game Changers flag.
    pub fn game_changer(self, flag: bool) -> (r: Query)
        ensures
            r.game_changer_filter() == Some(flag),
            r.same_but(&self, false, false, false, false, false, false, false, true, false, false),
    {
        Query { game_changer: Some(flag), ..self }
    }

    pub fn can_be_commander(self, flag: bool) -> (r: Query)
        ensures
            r.commander_filter() == Some(flag),
            r.same_but(&self, false, false, false, false, false, false, false, false, true, false),
    {
        Query { can_be_commander: Some(flag), ..self }
    }

    /// Stops after this many matches.
    pub fn limit(self, limit: usize) -> (r: Query)
        ensures
            r.limit_filter() == Some(limit),
            r.same_but(&self, false, false, false, false, false, false, false, false, false, true),
    {
        Query { limit: Some(limit), ..self }
    }

    fn text_anywhere(card: &ArchivedCard, needle: &str) -> (r: bool)
        ensures
            r == (contains_folded(card.name@, needle@) || contains_folded(card.oracle_text@, needle@)
                || exists|i: int|
                0 <= i < card.faces@.len() && (contains_folded(
                    #[trigger] card.faces@[i].oracle_text@,
                    needle@,
                ) || contains_folded(card.faces@[i].name@, needle@))),
    {
        if contains_ignore_ascii_case(card.name(), needle) {
            return true;
        }
        if contains_ignore_ascii_case(card.oracle_text(), needle) {
            return true;
        }
        // Faces carry their own text; a search for "trample" must find a card whose back face
        // has it.
        let faces = card.faces();
        let mut i: usize = 0;
        while i < faces.len()
            invariant
                faces@ == card.faces@,
                i <= faces@.len(),
                forall|k: int|
                    0 <= k < i ==> !contains_folded(#[trigger] faces@[k].oracle_text@, needle@)
                        && !contains_folded(faces@[k].name@, needle@),
            decreases faces@.len() - i,
        {
            if contains_ignore_ascii_case(faces[i].oracle_text(), needle)
                || contains_ignore_ascii_case(faces[i].name(), needle) {
                return true;
            }
            i = i + 1;
        }
        false
    }

    /// True when a single card satisfies every filter.
    pub fn matches(&self, card: &ArchivedCard) -> (r: bool)
        ensures
            r == self.accepts(*card),
    {
        match &self.name {
            Some(needle) => {
                if !contains_ignore_ascii_case(card.name(), needle.as_str()) {
                    return false;
                }
            },
            None => {},
        }
        match &self.text {
            Some(needle) => {
                if !Self::text_anywhere(card, needle.as_str()) {
                    return false;
                }
            },
            None => {},
        }
        match self.colors {
            Some(rule) => {
                let matched = match rule {
                    ColorMatch::Exactly(wanted) => {
                        let have = card.colors();
                        have.is_subset_of(wanted) && wanted.is_subset_of(have)
                    },
                    ColorMatch::Including(wanted) => wanted.is_subset_of(card.colors()),
                    ColorMatch::Within(allowed) => card.color_identity().is_subset_of(allowed),
                };
                if !matched {
                    return false;
                }
            },
            None => {},
        }
        let mut i: usize = 0;
        while i < self.card_types.len()
            invariant
                i <= self.card_types@.len(),
                forall|k: int| 0 <= k < i ==> card.typed(#[trigger] self.type_filter()[k]),
            decreases self.card_types@.len() - i,
        {
            assert(self.type_filter()[i as int] == self.card_types@[i as int]@);
            if !card.has_type(self.card_types[i].as_str()) {
                return false;
            }
            i = i + 1;
        }
        match self.format {
            Some(format) => {
                if !card.is_legal_in(format) {
                    return false;
                }
            },
            None => {},
        }
        let halves = card.mana_value_halves();
        match self.min_mana_value_halves {
            Some(min) => {
                if halves < min {
                    return false;
                }
            },
            None => {},
        }
        match self.max_mana_value_halves {
            Some(max) => {
                if halves > max {
                    return false;
                }
            },
            None => {},
        }
        match self.game_changer {
            Some(flag) => {
                if card.is_game_changer() != flag {
                    return false;
                }
            },
            None => {},
        }
        match self.can_be_commander {
            Some(flag) => {
                if card.can_be_commander() != flag {
                    return false;
                }
            },
            None => {},
        }
        true
    }

    /// Runs the query, in catalog order, stopping at the limit.
    pub fn execute<'a>(&self, catalog: &'a Catalog) -> (r: Vec<(CardId, &'a ArchivedCard)>)
        requires
            catalog.wf(),
        ensures
            ({
                let hits = matching(catalog.cards_view(), *self);
                let n = match self.limit_filter() {
                    Some(l) => if l < hits.len() {
                        l as int
                    } else {
                        hits.len() as int
                    },
                    None => hits.len() as int,
                };
                &&& r@.len() == n
                &&& forall|k: int|
                    0 <= k < n ==> (#[trigger] r@[k]).0.0 == hits[k] && *r@[k].1
                        == catalog.cards_view()[hits[k]]
            }),
    {
        let cards = catalog.cards();
        let ghost cs = catalog.cards_view();
        let limit: usize = match self.limit {
            Some(l) => l,
            None => usize::MAX,
        };
        let mut out: Vec<(CardId, &'a ArchivedCard)> = Vec::new();
        let mut i: usize = 0;
        proof {
            crate::data::catalog::lemma_wf_bound(catalog);
        }
        while i < cards.len() && out.len() < limit
            invariant
                cards@ == cs,
                cs.len() <= u32::MAX,
                i <= cs.len(),
                out@.len() == matching(cs.take(i as int), *self).len(),
                out@.len() <= limit,
                forall|k: int|
                    0 <= k < out@.len() ==> (#[trigger] out@[k]).0.0 == matching(
                        cs.take(i as int),
                        *self,
                    )[k] && *out@[k].1 == cs[matching(cs.take(i as int), *self)[k]],
            decreases cs.len() - i,
        {
            proof {
                lemma_matching_step(cs, *self, i as int);
            }
            if self.matches(&cards[i]) {
                out.push((CardId(i as u32), &cards[i]));
            }
            i = i + 1;
        }
        proof {
            lemma_matching_prefix(cs, *self, i as int);
            lemma_matching_len(cs, *self);
            if i == cs.len() {
                assert(cs.take(i as int) =~= cs);
            }
        }
        out
    }

    /// Counts matches without collecting them. Ignores any limit.
    pub fn count(&self, catalog: &Catalog) -> (r: usize)
        ensures
            r == matching(catalog.cards_view(), *self).len(),
    {
        let cards = catalog.cards();
        let ghost cs = catalog.cards_view();
        let mut n: usize = 0;
        let mut i: usize = 0;
        while i < cards.len()
            invariant
                cards@ == cs,
                i <= cs.len(),
                n == matching(cs.take(i as int), *self).len(),
                n <= i,
            decreases cs.len() - i,
        {
            proof {
                lemma_matching_step(cs, *self, i as int);
            }
            if self.matches(&cards[i]) {
                n = n + 1;
            }
            i = i + 1;
        }
        assert(cs.take(i as int) =~= cs);
        n
    }
}

/// Positions of the cards a query accepts, in catalog order.
pub open spec fn matching(cards: Seq<ArchivedCard>, q: Query) -> Seq<int>
    decreases cards.len(),
{
    if cards.len() == 0 {
        Seq::empty()
    } else if q.accepts(cards.last()) {
        matching(cards.drop_last(), q).push(cards.len() - 1)
    } else {
        matching(cards.drop_last(), q)
    }
}

proof fn lemma_matching_step(cards: Seq<ArchivedCard>, q: Query, i: int)
    requires
        0 <= i < cards.len(),
    ensures
        matching(cards.take(i + 1), q) == (if q.accepts(cards[i]) {
            matching(cards.take(i), q).push(i)
        } else {
            matching(cards.take(i), q)
        }),
{
    assert(cards.take(i + 1).drop_last() =~= cards.take(i));
}

proof fn lemma_matching_prefix(cards: Seq<ArchivedCard>, q: Query, i: int)
    requires
        0 <= i <= cards.len(),
    ensures
        matching(cards.take(i), q).len() <= matching(cards, q).len(),
        matching(cards.take(i), q).len() <= i,
        forall|k: int| 0 <= k < matching(cards.take(i), q).len() ==> #[trigger] matching(cards.take(i), q)[k] == matching(cards, q)[k],
    decreases cards.len() - i,
{
    lemma_matching_len(cards.take(i), q);
    if i < cards.len() {
        lemma_matching_prefix(cards, q, i + 1);
        lemma_matching_step(cards, q, i);
        let a = matching(cards.take(i), q);
        let b = matching(cards.take(i + 1), q);
        assert forall|k: int| 0 <= k < a.len() implies #[trigger] a[k] == matching(cards, q)[k] by {
            assert(a[k] == b[k]);
        }
    } else {
        assert(cards.take(i) =~= cards);
        lemma_matching_len(cards, q);
    }
}

proof fn lemma_matching_len(cards: Seq<ArchivedCard>, q: Query)
    ensures
        matching(cards, q).len() <= cards.len(),
        forall|k: int| 0 <= k < matching(cards, q).len() ==> 0 <= #[trigger] matching(cards, q)[k] < cards.len(),
    decreases cards.len(),
{
    if cards.len() > 0 {
        lemma_matching_len(cards.drop_last(), q);
    }
}

/// An empty query matches every card.
pub proof fn law_empty_query_matches_everything(q: Query, card: ArchivedCard)
    requires
        q.text_filter() is None,
        q.name_filter() is None,
        q.color_filter() is None,
        q.type_filter().len() == 0,
        q.format_filter() is None,
        q.min_halves() is None,
        q.max_halves() is None,
        q.game_changer_filter() is None,
        q.commander_filter() is None,
    ensures
        q.accepts(card),
{
}

/// An empty needle is found in any text.
pub proof fn law_empty_needle_is_everywhere(hay: Seq<char>)
    ensures
        contains_folded(hay, Seq::empty()),
{
}

} // verus!
