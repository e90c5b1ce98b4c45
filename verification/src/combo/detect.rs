//! Finding the combos a deck already contains.
//!
//! Useful in both directions. You may be looking for one, but more often you have one without
//! knowing, and that changes which bracket your deck belongs in.

use vstd::prelude::*;

use crate::combo::combo::{texts, ArchivedCombo, ComboDatabase};
use crate::deck::deck::{Deck, Zone};
use crate::text::{chars_of, lemma_lex_total, lex_less, str_eq, str_less, string_of};

verus! {

/// A combo found in a deck.
#[derive(Debug, Clone, PartialEq, Eq)]
pub struct ComboMatch {
    /// Commander Spellbook's identifier, so it can be looked up on their site.
    pub id: String,
    pub card_names: Vec<String>,
    pub produces: Vec<String>,
    pub card_count: usize,
    pub is_infinite: bool,
    pub wins_the_game: bool,
}

/// True when a match describes a combo.
pub open spec fn describes(m: ComboMatch, c: ArchivedCombo) -> bool {
    &&& m.id@ == c.id@
    &&& texts(m.card_names@) == texts(c.card_names@)
    &&& texts(m.produces@) == texts(c.produces@)
    &&& m.card_count == c.oracle_ids@.len()
    &&& m.is_infinite == c.infinite()
    &&& m.wins_the_game == c.wins()
}

/// Lexicographic order on lists of names.
pub open spec fn names_less(a: Seq<Seq<char>>, b: Seq<Seq<char>>) -> bool
    decreases a.len(),
{
    if a.len() == 0 {
        b.len() > 0
    } else if b.len() == 0 {
        false
    } else if a[0] != b[0] {
        lex_less(a[0], b[0])
    } else {
        names_less(a.drop_first(), b.drop_first())
    }
}

/// The order combos are reported in: fewest cards first, then by card names, then by id.
pub open spec fn combo_before(a: ArchivedCombo, b: ArchivedCombo) -> bool {
    ||| a.oracle_ids@.len() < b.oracle_ids@.len()
    ||| (a.oracle_ids@.len() == b.oracle_ids@.len() && names_less(
        texts(a.card_names@),
        texts(b.card_names@),
    ))
    ||| (a.oracle_ids@.len() == b.oracle_ids@.len() && texts(a.card_names@) == texts(
        b.card_names@,
    ) && lex_less(a.id@, b.id@))
}

proof fn lemma_names_asym(a: Seq<Seq<char>>, b: Seq<Seq<char>>)
    ensures
        !(names_less(a, b) && names_less(b, a)),
        !names_less(a, a),
    decreases a.len(),
{
    if a.len() > 0 && b.len() > 0 {
        lemma_lex_total(a[0], b[0]);
        if a[0] == b[0] {
            lemma_names_asym(a.drop_first(), b.drop_first());
        }
    }
    if a.len() > 0 {
        lemma_lex_total(a[0], a[0]);
        lemma_names_asym(a.drop_first(), a.drop_first());
    }
}

/// The report order never runs both ways.
pub proof fn lemma_combo_before_asym(a: ArchivedCombo, b: ArchivedCombo)
    ensures
        !(combo_before(a, b) && combo_before(b, a)),
{
    lemma_names_asym(texts(a.card_names@), texts(b.card_names@));
    lemma_names_asym(texts(a.card_names@), texts(a.card_names@));
    lemma_lex_total(a.id@, b.id@);
}

/// True when every card of a combo is among `present`; a combo of no cards is never found.
pub open spec fn contained(c: ArchivedCombo, present: Seq<Seq<char>>) -> bool {
    c.oracle_ids@.len() > 0 && forall|i: int|
        0 <= i < c.oracle_ids@.len() ==> present.contains(#[trigger] c.oracle_ids@[i]@)
}

/// True when `found` lists, by position, every combo fully present and nothing else, each
/// once, in report order.
pub open spec fn reports(found: Seq<int>, combos: Seq<ArchivedCombo>, present: Seq<Seq<char>>) -> bool {
    &&& found.no_duplicates()
    &&& forall|k: int| 0 <= k < found.len() ==> 0 <= #[trigger] found[k] < combos.len() && contained(combos[found[k]], present)
    &&& forall|j: int| 0 <= j < combos.len() && contained(#[trigger] combos[j], present) ==> found.contains(j)
    &&& forall|k: int| 0 <= k < found.len() - 1 ==> !combo_before(combos[#[trigger] found[k + 1]], combos[found[k]])
}

/// Combos indexed by the cards they need.
pub struct ComboIndex<'a> {
    database: &'a ComboDatabase,
}

fn names_less_exec(a: &Vec<String>, b: &Vec<String>) -> (r: bool)
    ensures
        r == names_less(texts(a@), texts(b@)),
{
    let ghost ta = texts(a@);
    let ghost tb = texts(b@);
    let mut i: usize = 0;
    assert(ta.skip(0) =~= ta);
    assert(tb.skip(0) =~= tb);
    while i < a.len() && i < b.len() && str_eq(a[i].as_str(), b[i].as_str())
        invariant
            ta == texts(a@),
            tb == texts(b@),
            i <= a@.len(),
            i <= b@.len(),
            names_less(ta.skip(i as int), tb.skip(i as int)) == names_less(ta, tb),
        decreases a@.len() - i,
    {
        assert(ta.skip(i as int).drop_first() =~= ta.skip(i + 1));
        assert(tb.skip(i as int).drop_first() =~= tb.skip(i + 1));
        i = i + 1;
    }
    let ghost x = ta.skip(i as int);
    let ghost y = tb.skip(i as int);
    if i == a.len() {
        assert(x.len() == 0);
        i < b.len()
    } else if i == b.len() {
        assert(y.len() == 0);
        false
    } else {
        assert(x[0] == ta[i as int] && y[0] == tb[i as int]);
        str_less(a[i].as_str(), b[i].as_str())
    }
}

fn combo_before_exec(a: &ArchivedCombo, b: &ArchivedCombo) -> (r: bool)
    ensures
        r == combo_before(*a, *b),
{
    if a.oracle_ids.len() != b.oracle_ids.len() {
        return a.oracle_ids.len() < b.oracle_ids.len();
    }
    if names_less_exec(&a.card_names, &b.card_names) {
        return true;
    }
    let same = names_equal(&a.card_names, &b.card_names);
    same && str_less(a.id.as_str(), b.id.as_str())
}

fn names_equal(a: &Vec<String>, b: &Vec<String>) -> (r: bool)
    ensures
        r == (texts(a@) == texts(b@)),
{
    if a.len() != b.len() {
        return false;
    }
    let mut i: usize = 0;
    while i < a.len()
        invariant
            a@.len() == b@.len(),
            i <= a@.len(),
            forall|k: int| 0 <= k < i ==> a@[k]@ == b@[k]@,
        decreases a@.len() - i,
    {
        if !str_eq(a[i].as_str(), b[i].as_str()) {
            assert(texts(a@)[i as int] != texts(b@)[i as int]);
            return false;
        }
        i = i + 1;
    }
    assert(texts(a@) =~= texts(b@));
    true
}

fn contains_text(present: &[String], id: &str) -> (r: bool)
    ensures
        r == texts(present@).contains(id@),
{
    let mut i: usize = 0;
    while i < present.len()
        invariant
            i <= present@.len(),
            forall|k: int| 0 <= k < i ==> present@[k]@ != id@,
        decreases present@.len() - i,
    {
        if str_eq(present[i].as_str(), id) {
            assert(texts(present@)[i as int] == id@);
            return true;
        }
        i = i + 1;
    }
    proof {
        if texts(present@).contains(id@) {
            let k = choose|k: int| 0 <= k < texts(present@).len() && texts(present@)[k] == id@;
            assert(present@[k]@ == id@);
        }
    }
    false
}

fn is_contained(combo: &ArchivedCombo, present: &[String]) -> (r: bool)
    ensures
        r == contained(*combo, texts(present@)),
{
    if combo.oracle_ids.len() == 0 {
        return false;
    }
    let mut i: usize = 0;
    while i < combo.oracle_ids.len()
        invariant
            i <= combo.oracle_ids@.len(),
            forall|k: int| 0 <= k < i ==> texts(present@).contains(#[trigger] combo.oracle_ids@[k]@),
        decreases combo.oracle_ids@.len() - i,
    {
        if !contains_text(present, combo.oracle_ids[i].as_str()) {
            return false;
        }
        i = i + 1;
    }
    true
}

fn copy_texts(v: &Vec<String>) -> (r: Vec<String>)
    ensures
        texts(r@) == texts(v@),
{
    let mut out: Vec<String> = Vec::new();
    let mut i: usize = 0;
    while i < v.len()
        invariant
            i <= v@.len(),
            out@.len() == i,
            forall|k: int| 0 <= k < i ==> (#[trigger] out@[k])@ == v@[k]@,
        decreases v@.len() - i,
    {
        out.push(string_of(chars_of(v[i].as_str()).as_slice()));
        i = i + 1;
    }
    assert(texts(out@) =~= texts(v@));
    out
}

/// A combo as a report line.
pub fn describe(combo: &ArchivedCombo) -> (r: ComboMatch)
    ensures
        describes(r, *combo),
{
    ComboMatch {
        id: string_of(chars_of(combo.id()).as_slice()),
        card_names: copy_texts(&combo.card_names),
        produces: copy_texts(&combo.produces),
        card_count: combo.card_count(),
        is_infinite: combo.is_infinite(),
        wins_the_game: combo.wins_the_game(),
    }
}

proof fn lemma_insert_contains(s: Seq<int>, p: int, x: int)
    requires
        0 <= p <= s.len(),
    ensures
        forall|y: int| #[trigger] s.insert(p, x).contains(y) <==> (s.contains(y) || y == x),
        s.no_duplicates() && !s.contains(x) ==> s.insert(p, x).no_duplicates(),
{
    s.insert_ensures(p, x);
    let t = s.insert(p, x);
    assert forall|y: int| #[trigger] t.contains(y) <==> (s.contains(y) || y == x) by {
        if t.contains(y) {
            let k = choose|k: int| 0 <= k < t.len() && t[k] == y;
            if k < p {
                assert(s[k] == y);
            } else if k > p {
                assert(s[k - 1] == y);
            }
        }
        if s.contains(y) {
            let k = choose|k: int| 0 <= k < s.len() && s[k] == y;
            if k < p {
                assert(t[k] == y);
            } else {
                assert(t[k + 1] == y);
            }
        }
        if y == x {
            assert(t[p] == x);
        }
    }
    if s.no_duplicates() && !s.contains(x) {
        assert forall|a: int, b: int| 0 <= a < t.len() && 0 <= b < t.len() && a != b implies t[a] != t[b] by {
            let a0 = if a < p { a } else { a - 1 };
            let b0 = if b < p { b } else { b - 1 };
            if a != p && b != p {
                assert(t[a] == s[a0] && t[b] == s[b0]);
            } else if a == p {
                assert(t[b] == s[b0]);
            } else {
                assert(t[a] == s[a0]);
            }
        }
    }
}

impl<'a> ComboIndex<'a> {
    pub closed spec fn db(&self) -> &'a ComboDatabase {
        self.database
    }

    pub fn build(database: &'a ComboDatabase) -> (r: ComboIndex<'a>)
        ensures
            r.db() == database,
    {
        ComboIndex { database }
    }

    pub fn len(&self) -> (r: usize)
        ensures
            r == self.db().combos_view().len(),
    {
        self.database.len()
    }

    pub fn is_empty(&self) -> (r: bool)
        ensures
            r == (self.db().combos_view().len() == 0),
    {
        self.database.is_empty()
    }

    /// Every combo fully contained in a set of cards, in report order.
    pub fn find_among(&self, oracle_ids: &[String]) -> (r: Vec<ComboMatch>)
        ensures
            exists|found: Seq<int>|
                reports(found, self.db().combos_view(), texts(oracle_ids@)) && found.len()
                    == r@.len() && forall|k: int|
                    0 <= k < r@.len() ==> describes(
                        #[trigger] r@[k],
                        self.db().combos_view()[found[k]],
                    ),
    {
        let combos = self.database.iter();
        let ghost cs = self.db().combos_view();
        let ghost present = texts(oracle_ids@);
        let mut order: Vec<usize> = Vec::new();
        let ghost mut found: Seq<int> = Seq::empty();
        let mut i: usize = 0;
        while i < combos.len()
            invariant
                combos@ == cs,
                present == texts(oracle_ids@),
                i <= cs.len(),
                order@.len() == found.len(),
                forall|k: int| 0 <= k < found.len() ==> found[k] == #[trigger] order@[k] as int,
                found.no_duplicates(),
                forall|k: int| 0 <= k < found.len() ==> 0 <= #[trigger] found[k] < i,
                forall|y: int| #[trigger] found.contains(y) <==> (0 <= y < i && contained(cs[y], present)),
                forall|k: int| 0 <= k < found.len() - 1 ==> !combo_before(cs[#[trigger] found[k + 1]], cs[found[k]]),
            decreases cs.len() - i,
        {
            if is_contained(&combos[i], oracle_ids) {
                let mut p: usize = 0;
                while p < order.len() && !combo_before_exec(&combos[i], &combos[order[p]])
                    invariant
                        combos@ == cs,
                        i < cs.len(),
                        p <= order@.len(),
                        order@.len() == found.len(),
                        forall|k: int| 0 <= k < found.len() ==> found[k] == #[trigger] order@[k] as int,
                        forall|k: int| 0 <= k < found.len() ==> 0 <= #[trigger] found[k] < i,
                        forall|k: int| 0 <= k < p ==> !combo_before(cs[i as int], cs[#[trigger] found[k]]),
                    decreases order@.len() - p,
                {
                    p = p + 1;
                }
                let ghost before = found;
                proof {
                    lemma_insert_contains(before, p as int, i as int);
                    before.insert_ensures(p as int, i as int);
                    if p < before.len() {
                        lemma_combo_before_asym(cs[i as int], cs[before[p as int]]);
                    }
                    found = before.insert(p as int, i as int);
                    assert forall|k: int| 0 <= k < found.len() - 1 implies !combo_before(cs[#[trigger] found[k + 1]], cs[found[k]]) by {
                        if k + 1 < p {
                            assert(found[k] == before[k] && found[k + 1] == before[k + 1]);
                        } else if k + 1 == p {
                            assert(found[k] == before[k]);
                        } else if k == p {
                            assert(found[k + 1] == before[k]);
                        } else {
                            assert(found[k] == before[k - 1] && found[k + 1] == before[k]);
                        }
                    }
                }
                order.insert(p, i);
                assert forall|k: int| 0 <= k < found.len() implies found[k] == #[trigger] order@[k] as int && 0 <= found[k] < i + 1 by {
                    if k < p {
                        assert(found[k] == before[k]);
                    } else if k > p {
                        assert(found[k] == before[k - 1]);
                    }
                }
            }
            assert forall|y: int| #[trigger] found.contains(y) <==> (0 <= y < i + 1 && contained(cs[y], present)) by {
                if found.contains(y) {
                    let k = choose|k: int| 0 <= k < found.len() && found[k] == y;
                    assert(0 <= found[k] < i + 1);
                }
            }
            i = i + 1;
        }
        let mut out: Vec<ComboMatch> = Vec::new();
        let mut k: usize = 0;
        while k < order.len()
            invariant
                combos@ == cs,
                order@.len() == found.len(),
                forall|j: int| 0 <= j < found.len() ==> found[j] == #[trigger] order@[j] as int,
                forall|j: int| 0 <= j < found.len() ==> 0 <= #[trigger] found[j] < cs.len(),
                k <= order@.len(),
                out@.len() == k,
                forall|j: int| 0 <= j < k ==> describes(#[trigger] out@[j], cs[found[j]]),
            decreases order@.len() - k,
        {
            out.push(describe(&combos[order[k]]));
            k = k + 1;
        }
        assert forall|j: int| 0 <= j < found.len() implies 0 <= #[trigger] found[j] < cs.len() && contained(cs[found[j]], present) by {
            assert(found.contains(found[j]));
        }
        assert(reports(found, cs, present));
        out
    }

    /// Every combo fully present in the deck.
    ///
    /// The sideboard is excluded: a combo you cannot assemble in game one is not a combo the
    /// deck has. The command zone counts, since a commander is always available.
    pub fn find_in(&self, deck: &Deck) -> (r: Vec<ComboMatch>)
        ensures
            exists|found: Seq<int>|
                reports(found, self.db().combos_view(), playable(deck.entries@)) && found.len()
                    == r@.len() && forall|k: int|
                    0 <= k < r@.len() ==> describes(
                        #[trigger] r@[k],
                        self.db().combos_view()[found[k]],
                    ),
    {
        let mut present: Vec<String> = Vec::new();
        let mut i: usize = 0;
        while i < deck.entries.len()
            invariant
                i <= deck.entries@.len(),
                texts(present@) == playable(deck.entries@.take(i as int)),
            decreases deck.entries@.len() - i,
        {
            assert(deck.entries@.take(i + 1).drop_last() =~= deck.entries@.take(i as int));
            if deck.entries[i].zone != Zone::Sideboard {
                present.push(string_of(chars_of(deck.entries[i].oracle_id.as_str()).as_slice()));
            }
            assert(texts(present@) =~= playable(deck.entries@.take(i + 1)));
            i = i + 1;
        }
        assert(deck.entries@.take(i as int) =~= deck.entries@);
        self.find_among(present.as_slice())
    }
}

/// The oracle ids a deck plays with: everything outside the sideboard.
pub open spec fn playable(es: Seq<crate::deck::deck::DeckEntry>) -> Seq<Seq<char>>
    decreases es.len(),
{
    if es.len() == 0 {
        Seq::empty()
    } else if es.last().zone != Zone::Sideboard {
        playable(es.drop_last()).push(es.last().oracle_id@)
    } else {
        playable(es.drop_last())
    }
}

} // verus!
