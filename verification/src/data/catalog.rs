//! The card catalog, held in memory.
//!
//! The artifact on disk is an archive the application reads and hands over as a list of
//! cards; from there on every lookup is here. A card's position in the list is its [`CardId`].

use vstd::prelude::*;

use crate::data::card::ArchivedCard;
use crate::data::error::CatalogError;
use crate::text::{chars_eq, chars_of, lowered, str_eq, to_lowercase};
use crate::CardId;

verus! {

/// Bumped whenever the archived layout changes in a way older readers cannot handle.
pub const FORMAT_VERSION: u32 = 1;

/// The card catalog.
pub struct Catalog {
    cards: Vec<ArchivedCard>,
    /// Lower-cased full name of each card, by position.
    names: Vec<String>,
    source_updated_at: String,
}

/// What a deck-list name resolved to.
pub enum Resolution<'a> {
    /// Exactly one card.
    Found(CardId, &'a ArchivedCard),
    /// A face name shared by several cards; the importer will not guess.
    Ambiguous(Vec<(CardId, &'a ArchivedCard)>),
    NotFound,
}

impl Catalog {
    /// The cards, in catalog order.
    pub closed spec fn cards_view(&self) -> Seq<ArchivedCard> {
        self.cards@
    }

    pub closed spec fn wf(&self) -> bool {
        &&& self.names@.len() == self.cards@.len()
        &&& forall|i: int|
            0 <= i < self.cards@.len() ==> (#[trigger] self.names@[i])@ == lowered(
                self.cards@[i].name@,
            )
        &&& self.cards@.len() <= u32::MAX
    }

    /// Position of the first card whose lower-cased name is `lower`.
    pub open spec fn first_named(&self, lower: Seq<char>) -> Option<int> {
        if exists|i: int|
            0 <= i < self.cards_view().len() && lowered(self.cards_view()[i].name@) == lower {
            Some(
                choose|i: int|
                    0 <= i < self.cards_view().len() && lowered(self.cards_view()[i].name@) == lower
                        && forall|k: int|
                        0 <= k < i ==> lowered(#[trigger] self.cards_view()[k].name@) != lower,
            )
        } else {
            None
        }
    }

    /// Builds a catalog over cards in their archive order.
    pub fn from_cards(cards: Vec<ArchivedCard>, source_updated_at: String) -> (r: Catalog)
        requires
            cards@.len() <= u32::MAX,
        ensures
            r.wf(),
            r.cards_view() == cards@,
            r.updated_at() == source_updated_at@,
    {
        let mut names: Vec<String> = Vec::new();
        let mut i: usize = 0;
        while i < cards.len()
            invariant
                i <= cards@.len(),
                names@.len() == i,
                forall|k: int| 0 <= k < i ==> (#[trigger] names@[k])@ == lowered(cards@[k].name@),
            decreases cards@.len() - i,
        {
            names.push(to_lowercase(cards[i].name.as_str()));
            i = i + 1;
        }
        Catalog { cards, names, source_updated_at }
    }

    /// A catalog over the contents of an artifact, provided it was written in the layout this
    /// build reads.
    pub fn from_parts(format_version: u32, source_updated_at: String, cards: Vec<ArchivedCard>) -> (r: Result<Catalog, CatalogError>)
        requires
            cards@.len() <= u32::MAX,
        ensures
            format_version == FORMAT_VERSION ==> (r matches Ok(c) && c.wf() && c.cards_view() == cards@
                && c.updated_at() == source_updated_at@),
            format_version != FORMAT_VERSION ==> (r matches Err(CatalogError::VersionMismatch { expected, found })
                && expected == FORMAT_VERSION && found == format_version),
    {
        if format_version != FORMAT_VERSION {
            return Err(CatalogError::VersionMismatch { expected: FORMAT_VERSION, found: format_version });
        }
        Ok(Catalog::from_cards(cards, source_updated_at))
    }

    pub closed spec fn updated_at(&self) -> Seq<char> {
        self.source_updated_at@
    }

    /// Scryfall's `updated_at` for the source bulk file.
    pub fn source_updated_at(&self) -> (r: &str)
        ensures
            r@ == self.updated_at(),
    {
        self.source_updated_at.as_str()
    }

    pub fn len(&self) -> (r: usize)
        ensures
            r == self.cards_view().len(),
    {
        self.cards.len()
    }

    pub fn is_empty(&self) -> (r: bool)
        ensures
            r == (self.cards_view().len() == 0),
    {
        self.cards.len() == 0
    }

    /// The card at a position.
    pub fn get(&self, id: CardId) -> (r: Option<&ArchivedCard>)
        ensures
            id.0 < self.cards_view().len() ==> r == Some(&self.cards_view()[id.0 as int]),
            id.0 >= self.cards_view().len() ==> r is None,
    {
        let index = id.index();
        if index < self.cards.len() {
            Some(&self.cards[index])
        } else {
            None
        }
    }

    /// Every card with its id, in catalog order.
    pub fn iter(&self) -> (r: Vec<(CardId, &ArchivedCard)>)
        requires
            self.wf(),
        ensures
            r@.len() == self.cards_view().len(),
            forall|k: int| 0 <= k < r@.len() ==> (#[trigger] r@[k]).0.0 == k && r@[k].1 == self.cards_view()[k],
    {
        let mut out: Vec<(CardId, &ArchivedCard)> = Vec::new();
        let mut i: usize = 0;
        while i < self.cards.len()
            invariant
                i <= self.cards@.len(),
                self.cards@.len() <= u32::MAX,
                out@.len() == i,
                forall|k: int| 0 <= k < i ==> (#[trigger] out@[k]).0.0 == k && out@[k].1 == self.cards@[k],
            decreases self.cards@.len() - i,
        {
            out.push((CardId(i as u32), &self.cards[i]));
            i = i + 1;
        }
        out
    }

    /// Every card, in catalog order; a card's position is its id.
    pub fn cards(&self) -> (r: &[ArchivedCard])
        ensures
            r@ == self.cards_view(),
    {
        self.cards.as_slice()
    }

    /// Looks up a card by its exact full name, case-insensitively. When two cards share a name
    /// the first one wins.
    pub fn find_by_name(&self, name: &str) -> (r: Option<(CardId, &ArchivedCard)>)
        requires
            self.wf(),
        ensures
            r matches Some((id, card)) ==> self.first_named(lowered(name@)) == Some(id.0 as int)
                && card == self.cards_view()[id.0 as int],
            r is None ==> self.first_named(lowered(name@)) is None,
    {
        let wanted = to_lowercase(name);
        let mut i: usize = 0;
        while i < self.cards.len()
            invariant
                self.wf(),
                wanted@ == lowered(name@),
                i <= self.cards@.len(),
                forall|k: int| 0 <= k < i ==> lowered(#[trigger] self.cards@[k].name@) != wanted@,
            decreases self.cards@.len() - i,
        {
            if str_eq(self.names[i].as_str(), wanted.as_str()) {
                let ghost lower = wanted@;
                assert(lowered(self.cards@[i as int].name@) == lower);
                proof {
                    let j = choose|j: int|
                        0 <= j < self.cards_view().len() && lowered(self.cards_view()[j].name@)
                            == lower && forall|k: int|
                            0 <= k < j ==> lowered(#[trigger] self.cards_view()[k].name@) != lower;
                    if j < i {
                    } else if j > i {
                        assert(lowered(self.cards_view()[i as int].name@) != lower);
                    }
                }
                return Some((CardId(i as u32), &self.cards[i]));
            }
            i = i + 1;
        }
        None
    }

    /// The first card whose oracle id is `oracle_id`.
    pub fn find_by_oracle_id(&self, oracle_id: &str) -> (r: Option<&ArchivedCard>)
        ensures
            r == (match first_card(self.cards_view(), oracle_id@) {
                Some(i) => Some(&self.cards_view()[i]),
                None => None,
            }),
    {
        let mut i: usize = 0;
        while i < self.cards.len()
            invariant
                i <= self.cards@.len(),
                forall|k: int| 0 <= k < i ==> (#[trigger] self.cards@[k]).oracle_id@ != oracle_id@,
            decreases self.cards@.len() - i,
        {
            if str_eq(self.cards[i].oracle_id.as_str(), oracle_id) {
                proof {
                    lemma_first_card(self.cards@, oracle_id@, i as int);
                }
                return Some(&self.cards[i]);
            }
            i = i + 1;
        }
        proof {
            lemma_first_card(self.cards@, oracle_id@, i as int);
        }
        None
    }
}

/// A well-formed catalog numbers its cards in 32 bits.
pub proof fn lemma_wf_bound(catalog: &Catalog)
    requires
        catalog.wf(),
    ensures
        catalog.cards_view().len() <= u32::MAX,
{
}

/// Position of the first card whose oracle id is `oracle`.
pub open spec fn first_card(cards: Seq<ArchivedCard>, oracle: Seq<char>) -> Option<int>
    decreases cards.len(),
{
    if cards.len() == 0 {
        None
    } else {
        match first_card(cards.drop_last(), oracle) {
            Some(i) => Some(i),
            None => if cards.last().oracle_id@ == oracle {
                Some(cards.len() - 1)
            } else {
                None
            },
        }
    }
}

/// `first_card` is the first position holding the oracle id, when there is one.
pub proof fn lemma_first_card(cards: Seq<ArchivedCard>, oracle: Seq<char>, i: int)
    requires
        0 <= i <= cards.len(),
        forall|k: int| 0 <= k < i ==> (#[trigger] cards[k]).oracle_id@ != oracle,
        i == cards.len() || cards[i].oracle_id@ == oracle,
    ensures
        first_card(cards, oracle) == (if i == cards.len() { None } else { Some(i) }),
    decreases cards.len(),
{
    if cards.len() > 0 {
        let d = cards.drop_last();
        if i < cards.len() - 1 {
            assert(d[i] == cards[i]);
            lemma_first_card(d, oracle, i);
        } else {
            assert forall|k: int| 0 <= k < d.len() implies (#[trigger] d[k]).oracle_id@ != oracle by {
                assert(d[k] == cards[k]);
            }
            lemma_first_card(d, oracle, d.len() as int);
        }
    }
}

/// A letter with its accent taken off, and a curly apostrophe made straight, so that a name
/// typed on a plain keyboard still matches the printed one.
pub open spec fn plain_char(c: char) -> char {
    if '\u{e0}' <= c && c <= '\u{e5}' {
        'a'
    } else if c == '\u{e7}' {
        'c'
    } else if '\u{e8}' <= c && c <= '\u{eb}' {
        'e'
    } else if '\u{ec}' <= c && c <= '\u{ef}' {
        'i'
    } else if c == '\u{f1}' {
        'n'
    } else if '\u{f2}' <= c && c <= '\u{f6}' {
        'o'
    } else if '\u{f9}' <= c && c <= '\u{fc}' {
        'u'
    } else if c == '\u{fd}' || c == '\u{ff}' {
        'y'
    } else if c == '\u{2018}' || c == '\u{2019}' {
        '\''
    } else {
        c
    }
}

fn plain(c: char) -> (r: char)
    ensures
        r == plain_char(c),
{
    if '\u{e0}' <= c && c <= '\u{e5}' {
        'a'
    } else if c == '\u{e7}' {
        'c'
    } else if '\u{e8}' <= c && c <= '\u{eb}' {
        'e'
    } else if '\u{ec}' <= c && c <= '\u{ef}' {
        'i'
    } else if c == '\u{f1}' {
        'n'
    } else if '\u{f2}' <= c && c <= '\u{f6}' {
        'o'
    } else if '\u{f9}' <= c && c <= '\u{fc}' {
        'u'
    } else if c == '\u{fd}' || c == '\u{ff}' {
        'y'
    } else if c == '\u{2018}' || c == '\u{2019}' {
        '\''
    } else {
        c
    }
}

/// What a name is matched by: lower-cased, accents and curly apostrophes made plain.
pub open spec fn name_key(s: Seq<char>) -> Seq<char> {
    lowered(s).map_values(|c: char| plain_char(c))
}

fn key_of(s: &str) -> (r: Vec<char>)
    ensures
        r@ == name_key(s@),
{
    let lower = chars_of(to_lowercase(s).as_str());
    let mut out: Vec<char> = Vec::new();
    let mut i: usize = 0;
    while i < lower.len()
        invariant
            i <= lower@.len(),
            lower@ == lowered(s@),
            out@ == lower@.take(i as int).map_values(|c: char| plain_char(c)),
        decreases lower@.len() - i,
    {
        out.push(plain(lower[i]));
        i = i + 1;
        assert(out@ =~= lower@.take(i as int).map_values(|c: char| plain_char(c)));
    }
    assert(lower@.take(lower@.len() as int) =~= lower@);
    out
}

/// Position of the first card whose full name has the key `k`.
pub open spec fn first_keyed(cards: Seq<ArchivedCard>, k: Seq<char>) -> Option<int>
    decreases cards.len(),
{
    if cards.len() == 0 {
        None
    } else {
        match first_keyed(cards.drop_last(), k) {
            Some(i) => Some(i),
            None => if name_key(cards.last().name@) == k {
                Some(cards.len() - 1)
            } else {
                None
            },
        }
    }
}

proof fn lemma_first_keyed(cards: Seq<ArchivedCard>, k: Seq<char>, i: int)
    requires
        0 <= i <= cards.len(),
        forall|j: int| 0 <= j < i ==> name_key((#[trigger] cards[j]).name@) != k,
        i == cards.len() || name_key(cards[i].name@) == k,
    ensures
        first_keyed(cards, k) == (if i == cards.len() { None } else { Some(i) }),
    decreases cards.len(),
{
    if cards.len() > 0 {
        let d = cards.drop_last();
        if i < cards.len() - 1 {
            assert(d[i] == cards[i]);
            lemma_first_keyed(d, k, i);
        } else {
            assert forall|j: int| 0 <= j < d.len() implies name_key((#[trigger] d[j]).name@) != k by {
                assert(d[j] == cards[j]);
            }
            lemma_first_keyed(d, k, d.len() as int);
        }
    }
}

/// True when one of a card's faces has the key `k`.
pub open spec fn face_keyed(card: ArchivedCard, k: Seq<char>) -> bool {
    exists|i: int| 0 <= i < card.faces@.len() && name_key((#[trigger] card.faces@[i]).name@) == k
}

/// Positions of the cards with a face keyed `k`, in catalog order.
pub open spec fn face_matches(cards: Seq<ArchivedCard>, k: Seq<char>) -> Seq<int>
    decreases cards.len(),
{
    if cards.len() == 0 {
        Seq::empty()
    } else {
        face_matches(cards.drop_last(), k) + (if face_keyed(cards.last(), k) {
            seq![cards.len() - 1]
        } else {
            Seq::empty()
        })
    }
}

/// What a name resolves to, by position.
pub enum Resolved {
    Found(int),
    Ambiguous(Seq<int>),
    NotFound,
}

/// How a deck-list name resolves: a card whose full name matches wins (the first, should two
/// share one); otherwise a face name, when exactly one card has it. A face name shared by
/// several cards is ambiguous, and the importer will not guess.
pub open spec fn resolution(cards: Seq<ArchivedCard>, name: Seq<char>) -> Resolved {
    let k = name_key(name);
    match first_keyed(cards, k) {
        Some(i) => Resolved::Found(i),
        None => {
            let m = face_matches(cards, k);
            if m.len() == 1 {
                Resolved::Found(m[0])
            } else if m.len() > 1 {
                Resolved::Ambiguous(m)
            } else {
                Resolved::NotFound
            }
        },
    }
}

fn has_face_keyed(card: &ArchivedCard, k: &[char]) -> (r: bool)
    ensures
        r == face_keyed(*card, k@),
{
    let mut i: usize = 0;
    while i < card.faces.len()
        invariant
            i <= card.faces@.len(),
            forall|j: int| 0 <= j < i ==> name_key((#[trigger] card.faces@[j]).name@) != k@,
        decreases card.faces@.len() - i,
    {
        let fk = key_of(card.faces[i].name.as_str());
        if chars_eq(fk.as_slice(), k) {
            return true;
        }
        i = i + 1;
    }
    false
}

impl Catalog {
    /// Resolves a name as a deck list writes it.
    pub fn resolve(&self, name: &str) -> (r: Resolution<'_>)
        requires
            self.wf(),
        ensures
            r matches Resolution::Found(id, card) ==> resolution(self.cards_view(), name@)
                == Resolved::Found(id.0 as int) && *card == self.cards_view()[id.0 as int],
            r matches Resolution::Ambiguous(v) ==> resolution(self.cards_view(), name@) matches Resolved::Ambiguous(ids)
                && v@.len() == ids.len() && forall|j: int|
                0 <= j < ids.len() ==> (#[trigger] v@[j]).0.0 == ids[j] && *v@[j].1
                    == self.cards_view()[ids[j]],
            r is NotFound ==> resolution(self.cards_view(), name@) is NotFound,
    {
        let k = key_of(name);
        let ghost cards = self.cards@;
        let mut i: usize = 0;
        while i < self.cards.len()
            invariant
                self.wf(),
                k@ == name_key(name@),
                cards == self.cards@,
                i <= cards.len(),
                forall|j: int| 0 <= j < i ==> name_key((#[trigger] cards[j]).name@) != k@,
            decreases cards.len() - i,
        {
            let ck = key_of(self.cards[i].name.as_str());
            if chars_eq(ck.as_slice(), k.as_slice()) {
                proof {
                    lemma_first_keyed(cards, k@, i as int);
                }
                assert(i < u32::MAX);

                return Resolution::Found(CardId(i as u32), &self.cards[i]);
            }
            i = i + 1;
        }
        proof {
            lemma_first_keyed(cards, k@, i as int);
        }
        let mut found: Vec<(CardId, &ArchivedCard)> = Vec::new();
        let mut ids: Ghost<Seq<int>> = Ghost(Seq::empty());
        let mut i: usize = 0;
        while i < self.cards.len()
            invariant
                self.wf(),
                k@ == name_key(name@),
                cards == self.cards@,
                i <= cards.len(),
                ids@ == face_matches(cards.take(i as int), k@),
                found@.len() == ids@.len(),
                forall|j: int|
                    0 <= j < ids@.len() ==> (#[trigger] found@[j]).0.0 == ids@[j] && *found@[j].1
                        == cards[ids@[j]] && 0 <= ids@[j] < i,
            decreases cards.len() - i,
        {
            assert(cards.take(i + 1).drop_last() =~= cards.take(i as int));
            assert(cards.take(i + 1).last() == cards[i as int]);
            if has_face_keyed(&self.cards[i], k.as_slice()) {
                let ghost prior = found@;
                let ghost prior_ids = ids@;
                found.push((CardId(i as u32), &self.cards[i]));
                proof {
                    ids@ = ids@.push(i as int);
                    assert forall|j: int| 0 <= j < ids@.len() implies (#[trigger] found@[j]).0.0 == ids@[j]
                        && *found@[j].1 == cards[ids@[j]] && 0 <= ids@[j] < i + 1 by {
                        if j < prior.len() {
                            assert(found@[j] == prior[j] && ids@[j] == prior_ids[j]);
                        }
                    }
                }
            }
            assert(ids@ =~= face_matches(cards.take(i + 1), k@));
            i = i + 1;
        }
        assert(cards.take(cards.len() as int) =~= cards);
        if found.len() == 1 {
            let (id, card) = found[0];
            Resolution::Found(id, card)
        } else if found.len() > 1 {
            Resolution::Ambiguous(found)
        } else {
            Resolution::NotFound
        }
    }
}

} // verus!
