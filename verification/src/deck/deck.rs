//! The deck model.

use vstd::prelude::*;

use crate::format::Format;
use crate::text::{str_eq, string_of};

verus! {

/// Which part of a deck a card belongs to.
#[derive(Debug, Clone, Copy, PartialEq, Eq, PartialOrd, Ord, Hash, Structural)]
pub enum Zone {
    /// The deck proper.
    Main,
    /// The sideboard, where the format has one.
    Sideboard,
    /// Commanders, and anything else in the command zone.
    Command,
}

impl Zone {
    pub const ALL: [Zone; 3] = [Zone::Main, Zone::Sideboard, Zone::Command];

    /// The heading a zone is written under.
    pub open spec fn heading(self) -> Seq<char> {
        match self {
            Zone::Main => "Deck"@,
            Zone::Sideboard => "Sideboard"@,
            Zone::Command => "Commander"@,
        }
    }

    pub fn label(self) -> (r: &'static str)
        ensures
            r@ == self.heading(),
    {
        match self {
            Zone::Main => "Deck",
            Zone::Sideboard => "Sideboard",
            Zone::Command => "Commander",
        }
    }
}

/// One line of a decklist.
#[derive(Debug, Clone, PartialEq, Eq)]
pub struct DeckEntry {
    /// Scryfall oracle id: stable across catalog rebuilds.
    pub oracle_id: String,
    /// Denormalised so a deck stays readable without a catalog loaded.
    pub name: String,
    pub quantity: u32,
    pub zone: Zone,
    /// Optional printing preference. Empty means "any".
    pub set_code: String,
    pub collector_number: String,
}

impl DeckEntry {
    /// A main-deck entry with no printing preference.
    pub fn new(oracle_id: &str, name: &str, quantity: u32) -> (r: DeckEntry)
        ensures
            r.oracle_id@ == oracle_id@,
            r.name@ == name@,
            r.quantity == quantity,
            r.zone == Zone::Main,
            r.set_code@.len() == 0,
            r.collector_number@.len() == 0,
    {
        DeckEntry {
            oracle_id: string_of(crate::text::chars_of(oracle_id).as_slice()),
            name: string_of(crate::text::chars_of(name).as_slice()),
            quantity,
            zone: Zone::Main,
            set_code: String::new(),
            collector_number: String::new(),
        }
    }

    pub fn in_zone(self, zone: Zone) -> (r: DeckEntry)
        ensures
            r == (DeckEntry { zone, ..self }),
    {
        DeckEntry { zone, ..self }
    }

    pub fn printed_as(self, set_code: &str, collector_number: &str) -> (r: DeckEntry)
        ensures
            r.set_code@ == set_code@,
            r.collector_number@ == collector_number@,
            r.oracle_id == self.oracle_id,
            r.name == self.name,
            r.quantity == self.quantity,
            r.zone == self.zone,
    {
        DeckEntry {
            set_code: string_of(crate::text::chars_of(set_code).as_slice()),
            collector_number: string_of(crate::text::chars_of(collector_number).as_slice()),
            ..self
        }
    }
}

/// A deck entry with its text as character sequences.
pub struct EntryView {
    pub oracle_id: Seq<char>,
    pub name: Seq<char>,
    pub quantity: u32,
    pub zone: Zone,
    pub set_code: Seq<char>,
    pub collector_number: Seq<char>,
}

impl View for DeckEntry {
    type V = EntryView;

    open spec fn view(&self) -> EntryView {
        EntryView {
            oracle_id: self.oracle_id@,
            name: self.name@,
            quantity: self.quantity,
            zone: self.zone,
            set_code: self.set_code@,
            collector_number: self.collector_number@,
        }
    }
}

/// The views of a list of entries, in order.
pub open spec fn entry_views(es: Seq<DeckEntry>) -> Seq<EntryView> {
    es.map_values(|e: DeckEntry| e@)
}

/// Position of the first view for `oracle` in `zone`.
pub open spec fn slot_in(vs: Seq<EntryView>, oracle: Seq<char>, zone: Zone) -> Option<int>
    decreases vs.len(),
{
    if vs.len() == 0 {
        None
    } else {
        match slot_in(vs.drop_last(), oracle, zone) {
            Some(i) => Some(i),
            None => if vs.last().oracle_id == oracle && vs.last().zone == zone {
                Some(vs.len() - 1)
            } else {
                None
            },
        }
    }
}

/// What adding an entry does to a list of entries: cards merge into an existing entry for the
/// same card in the same zone, quantities saturating, and otherwise go on the end.
pub open spec fn merged_with(vs: Seq<EntryView>, v: EntryView) -> Seq<EntryView> {
    match slot_in(vs, v.oracle_id, v.zone) {
        Some(i) => vs.update(
            i,
            EntryView { quantity: vs[i].quantity.saturating_add(v.quantity), ..vs[i] },
        ),
        None => vs.push(v),
    }
}

proof fn lemma_slot_views(es: Seq<DeckEntry>, oracle: Seq<char>, zone: Zone)
    ensures
        slot_of(es, oracle, zone) == slot_in(entry_views(es), oracle, zone),
    decreases es.len(),
{
    if es.len() > 0 {
        assert(entry_views(es).drop_last() =~= entry_views(es.drop_last()));
        lemma_slot_views(es.drop_last(), oracle, zone);
    }
}

/// True when an entry is the card `oracle` in zone `zone`.
pub open spec fn is_slot(e: DeckEntry, oracle: Seq<char>, zone: Zone) -> bool {
    e.oracle_id@ == oracle && e.zone == zone
}

/// Position of the first entry for `oracle` in `zone`.
pub open spec fn slot_of(entries: Seq<DeckEntry>, oracle: Seq<char>, zone: Zone) -> Option<int>
    decreases entries.len(),
{
    if entries.len() == 0 {
        None
    } else {
        match slot_of(entries.drop_last(), oracle, zone) {
            Some(i) => Some(i),
            None => if is_slot(entries.last(), oracle, zone) {
                Some(entries.len() - 1)
            } else {
                None
            },
        }
    }
}

/// Copies in one zone.
pub open spec fn zone_total(entries: Seq<DeckEntry>, zone: Zone) -> nat
    decreases entries.len(),
{
    if entries.len() == 0 {
        0
    } else {
        zone_total(entries.drop_last(), zone) + (if entries.last().zone == zone {
            entries.last().quantity as nat
        } else {
            0
        })
    }
}

/// Copies of one card across the main deck and sideboard.
pub open spec fn copies(entries: Seq<DeckEntry>, oracle: Seq<char>) -> nat
    decreases entries.len(),
{
    if entries.len() == 0 {
        0
    } else {
        copies(entries.drop_last(), oracle) + (if entries.last().oracle_id@ == oracle
            && entries.last().zone != Zone::Command {
            entries.last().quantity as nat
        } else {
            0
        })
    }
}

/// The entries of one zone, in deck order.
pub open spec fn of_zone(entries: Seq<DeckEntry>, zone: Zone) -> Seq<DeckEntry> {
    entries.filter(|e: DeckEntry| e.zone == zone)
}

/// No card appears twice in one zone.
pub open spec fn merged(entries: Seq<DeckEntry>) -> bool {
    forall|i: int, j: int|
        0 <= i < j < entries.len() ==> !(#[trigger] entries[i].oracle_id@ == #[trigger] entries[j].oracle_id@
            && entries[i].zone == entries[j].zone)
}

pub proof fn lemma_slot_of(entries: Seq<DeckEntry>, oracle: Seq<char>, zone: Zone)
    ensures
        slot_of(entries, oracle, zone) matches Some(i) ==> 0 <= i < entries.len() && is_slot(
            entries[i],
            oracle,
            zone,
        ) && forall|k: int| 0 <= k < i ==> !is_slot(#[trigger] entries[k], oracle, zone),
        slot_of(entries, oracle, zone) is None ==> forall|k: int|
            0 <= k < entries.len() ==> !is_slot(#[trigger] entries[k], oracle, zone),
    decreases entries.len(),
{
    if entries.len() > 0 {
        lemma_slot_of(entries.drop_last(), oracle, zone);
        assert forall|k: int| 0 <= k < entries.len() - 1 implies #[trigger] entries[k]
            == entries.drop_last()[k] by {}
    }
}

proof fn lemma_slot_is_first(entries: Seq<DeckEntry>, oracle: Seq<char>, zone: Zone, i: int)
    requires
        0 <= i <= entries.len(),
        forall|k: int| 0 <= k < i ==> !is_slot(#[trigger] entries[k], oracle, zone),
        i == entries.len() || is_slot(entries[i], oracle, zone),
    ensures
        slot_of(entries, oracle, zone) == (if i == entries.len() { None } else { Some(i) }),
    decreases entries.len(),
{
    if entries.len() > 0 {
        let d = entries.drop_last();
        if i < entries.len() - 1 {
            assert(d[i] == entries[i]);
            lemma_slot_is_first(d, oracle, zone, i);
        } else {
            assert forall|k: int| 0 <= k < d.len() implies !is_slot(#[trigger] d[k], oracle, zone) by {
                assert(d[k] == entries[k]);
            }
            lemma_slot_is_first(d, oracle, zone, d.len() as int);
        }
    }
}

pub proof fn lemma_zone_total_update(entries: Seq<DeckEntry>, i: int, e: DeckEntry, zone: Zone)
    requires
        0 <= i < entries.len(),
        entries[i].zone == e.zone,
    ensures
        zone_total(entries.update(i, e), zone) + (if e.zone == zone {
            entries[i].quantity as int
        } else {
            0
        }) == zone_total(entries, zone) + (if e.zone == zone {
            e.quantity as int
        } else {
            0
        }),
    decreases entries.len(),
{
    let u = entries.update(i, e);
    if i < entries.len() - 1 {
        assert(u.drop_last() =~= entries.drop_last().update(i, e));
        lemma_zone_total_update(entries.drop_last(), i, e, zone);
    } else {
        assert(u.drop_last() =~= entries.drop_last());
    }
}

pub proof fn lemma_zone_total_remove(entries: Seq<DeckEntry>, i: int, zone: Zone)
    requires
        0 <= i < entries.len(),
    ensures
        zone_total(entries.remove(i), zone) + (if entries[i].zone == zone {
            entries[i].quantity as int
        } else {
            0
        }) == zone_total(entries, zone),
    decreases entries.len(),
{
    let r = entries.remove(i);
    if i < entries.len() - 1 {
        assert(r.drop_last() =~= entries.drop_last().remove(i));
        assert(r.last() == entries.last());
        lemma_zone_total_remove(entries.drop_last(), i, zone);
    } else {
        assert(r =~= entries.drop_last());
    }
}

pub proof fn lemma_zone_total_push(entries: Seq<DeckEntry>, e: DeckEntry, zone: Zone)
    ensures
        zone_total(entries.push(e), zone) == zone_total(entries, zone) + (if e.zone == zone {
            e.quantity as nat
        } else {
            0
        }),
{
    assert(entries.push(e).drop_last() =~= entries);
}

/// A deck, in one format.
#[derive(Debug, Clone, PartialEq, Eq)]
pub struct Deck {
    pub name: String,
    pub format: Format,
    /// One flat list rather than a struct per zone: almost every operation walks all the
    /// entries anyway.
    pub entries: Vec<DeckEntry>,
    pub notes: String,
}

impl Deck {
    pub fn new(name: &str, format: Format) -> (r: Deck)
        ensures
            r.name@ == name@,
            r.format == format,
            r.entries@.len() == 0,
            r.notes@.len() == 0,
    {
        Deck {
            name: string_of(crate::text::chars_of(name).as_slice()),
            format,
            entries: Vec::new(),
            notes: String::new(),
        }
    }

    /// Position of the first entry for `oracle_id` in `zone`.
    fn position(&self, oracle_id: &str, zone: Zone) -> (r: Option<usize>)
        ensures
            r matches Some(i) ==> slot_of(self.entries@, oracle_id@, zone) == Some(i as int),
            r is None ==> slot_of(self.entries@, oracle_id@, zone) is None,
    {
        let mut i: usize = 0;
        while i < self.entries.len()
            invariant
                i <= self.entries@.len(),
                forall|k: int| 0 <= k < i ==> !is_slot(#[trigger] self.entries@[k], oracle_id@, zone),
            decreases self.entries@.len() - i,
        {
            if self.entries[i].zone == zone && str_eq(self.entries[i].oracle_id.as_str(), oracle_id) {
                proof {
                    lemma_slot_is_first(self.entries@, oracle_id@, zone, i as int);
                }
                return Some(i);
            }
            i = i + 1;
        }
        proof {
            lemma_slot_is_first(self.entries@, oracle_id@, zone, i as int);
        }
        None
    }

    /// Adds cards, merging into an existing entry for the same card in the same zone.
    pub fn add(&mut self, entry: DeckEntry)
        ensures
            final(self).name == old(self).name,
            final(self).format == old(self).format,
            final(self).notes == old(self).notes,
            match slot_of(old(self).entries@, entry.oracle_id@, entry.zone) {
                Some(i) => final(self).entries@ == old(self).entries@.update(
                    i,
                    DeckEntry {
                        quantity: old(self).entries@[i].quantity.saturating_add(
                            entry.quantity,
                        ),
                        ..old(self).entries@[i]
                    },
                ),
                None => final(self).entries@ == old(self).entries@.push(entry),
            },
            entry_views(final(self).entries@) == merged_with(entry_views(old(self).entries@), entry@),
    {
        proof {
            lemma_slot_of(self.entries@, entry.oracle_id@, entry.zone);
            lemma_slot_views(self.entries@, entry.oracle_id@, entry.zone);
        }
        let ghost before = self.entries@;
        match self.position(entry.oracle_id.as_str(), entry.zone) {
            Some(i) => {
                let q = self.entries[i].quantity.saturating_add(entry.quantity);
                self.entries[i].quantity = q;
            },
            None => {
                self.entries.push(entry);
            },
        }
        assert(entry_views(self.entries@) =~= merged_with(entry_views(before), entry@));
    }

    /// Removes copies. Removing them all drops the entry; removing a card that is not there
    /// does nothing.
    pub fn remove(&mut self, oracle_id: &str, zone: Zone, quantity: u32)
        ensures
            final(self).name == old(self).name,
            final(self).format == old(self).format,
            final(self).notes == old(self).notes,
            match slot_of(old(self).entries@, oracle_id@, zone) {
                Some(i) => if old(self).entries@[i].quantity <= quantity {
                    final(self).entries@ == old(self).entries@.remove(i)
                } else {
                    final(self).entries@ == old(self).entries@.update(
                        i,
                        DeckEntry {
                            quantity: (old(self).entries@[i].quantity - quantity) as u32,
                            ..old(self).entries@[i]
                        },
                    )
                },
                None => final(self).entries@ == old(self).entries@,
            },
    {
        proof {
            lemma_slot_of(self.entries@, oracle_id@, zone);
        }
        let position = match self.position(oracle_id, zone) {
            Some(p) => p,
            None => {
                return;
            },
        };
        if self.entries[position].quantity <= quantity {
            self.entries.remove(position);
        } else {
            let q = self.entries[position].quantity - quantity;
            self.entries[position].quantity = q;
        }
    }

    /// The entries of one zone, in deck order.
    pub fn entries_in(&self, zone: Zone) -> (r: Vec<&DeckEntry>)
        ensures
            r@.len() == of_zone(self.entries@, zone).len(),
            forall|k: int| 0 <= k < r@.len() ==> *r@[k] == of_zone(self.entries@, zone)[k],
    {
        let mut out: Vec<&DeckEntry> = Vec::new();
        let mut i: usize = 0;
        while i < self.entries.len()
            invariant
                i <= self.entries@.len(),
                out@.len() == of_zone(self.entries@.take(i as int), zone).len(),
                forall|k: int|
                    0 <= k < out@.len() ==> *out@[k] == of_zone(self.entries@.take(i as int), zone)[k],
            decreases self.entries@.len() - i,
        {
            let ghost prefix = self.entries@.take(i as int);
            assert(self.entries@.take(i + 1).drop_last() =~= prefix);
            reveal_with_fuel(Seq::filter, 1);
            if self.entries[i].zone == zone {
                out.push(&self.entries[i]);
            }
            i = i + 1;
        }
        assert(self.entries@.take(self.entries@.len() as int) =~= self.entries@);
        out
    }

    /// Number of physical cards in a zone.
    pub fn count_in(&self, zone: Zone) -> (r: u32)
        requires
            zone_total(self.entries@, zone) <= u32::MAX,
        ensures
            r == zone_total(self.entries@, zone),
    {
        let mut total: u32 = 0;
        let mut i: usize = 0;
        while i < self.entries.len()
            invariant
                i <= self.entries@.len(),
                total == zone_total(self.entries@.take(i as int), zone),
                zone_total(self.entries@, zone) <= u32::MAX,
            decreases self.entries@.len() - i,
        {
            assert(self.entries@.take(i + 1).drop_last() =~= self.entries@.take(i as int));
            proof {
                lemma_zone_total_prefix(self.entries@, i + 1, zone);
            }
            if self.entries[i].zone == zone {
                total = total + self.entries[i].quantity;
            }
            i = i + 1;
        }
        assert(self.entries@.take(i as int) =~= self.entries@);
        total
    }

    /// Total copies of one card across the main deck and sideboard.
    ///
    /// Commanders are excluded because the copy limit counts them separately in every format
    /// that has them.
    pub fn copies_of(&self, oracle_id: &str) -> (r: u32)
        requires
            copies(self.entries@, oracle_id@) <= u32::MAX,
        ensures
            r == copies(self.entries@, oracle_id@),
    {
        let mut total: u32 = 0;
        let mut i: usize = 0;
        while i < self.entries.len()
            invariant
                i <= self.entries@.len(),
                total == copies(self.entries@.take(i as int), oracle_id@),
                copies(self.entries@, oracle_id@) <= u32::MAX,
            decreases self.entries@.len() - i,
        {
            assert(self.entries@.take(i + 1).drop_last() =~= self.entries@.take(i as int));
            proof {
                lemma_copies_prefix(self.entries@, i + 1, oracle_id@);
            }
            if self.entries[i].zone != Zone::Command && str_eq(self.entries[i].oracle_id.as_str(), oracle_id) {
                total = total + self.entries[i].quantity;
            }
            i = i + 1;
        }
        assert(self.entries@.take(i as int) =~= self.entries@);
        total
    }

    pub fn is_empty(&self) -> (r: bool)
        ensures
            r == (self.entries@.len() == 0),
    {
        self.entries.len() == 0
    }
}

pub proof fn lemma_zone_total_prefix(s: Seq<DeckEntry>, k: int, zone: Zone)
    requires
        0 <= k <= s.len(),
    ensures
        zone_total(s.take(k), zone) <= zone_total(s, zone),
    decreases s.len() - k,
{
    if k < s.len() {
        lemma_zone_total_prefix(s, k + 1, zone);
        assert(s.take(k + 1).drop_last() =~= s.take(k));
    } else {
        assert(s.take(k) =~= s);
    }
}

pub proof fn lemma_copies_prefix(s: Seq<DeckEntry>, k: int, oracle: Seq<char>)
    requires
        0 <= k <= s.len(),
    ensures
        copies(s.take(k), oracle) <= copies(s, oracle),
    decreases s.len() - k,
{
    if k < s.len() {
        lemma_copies_prefix(s, k + 1, oracle);
        assert(s.take(k + 1).drop_last() =~= s.take(k));
    } else {
        assert(s.take(k) =~= s);
    }
}

/// Adding cards to a zone raises that zone's count by exactly what was added, unless the
/// merged entry's quantity saturates, and leaves every other zone's count unchanged.
pub proof fn law_add_counts(before: Seq<DeckEntry>, entry: DeckEntry, after: Seq<DeckEntry>, zone: Zone)
    requires
        match slot_of(before, entry.oracle_id@, entry.zone) {
            Some(i) => after == before.update(
                i,
                DeckEntry {
                    quantity: before[i].quantity.saturating_add(entry.quantity),
                    ..before[i]
                },
            ),
            None => after == before.push(entry),
        },
        slot_of(before, entry.oracle_id@, entry.zone) matches Some(i) ==> before[i].quantity
            + entry.quantity <= u32::MAX,
    ensures
        zone_total(after, zone) == zone_total(before, zone) + (if entry.zone == zone {
            entry.quantity as nat
        } else {
            0
        }),
{
    lemma_slot_of(before, entry.oracle_id@, entry.zone);
    match slot_of(before, entry.oracle_id@, entry.zone) {
        Some(i) => {
            let merged_entry = DeckEntry {
                quantity: before[i].quantity.saturating_add(entry.quantity),
                ..before[i]
            };
            lemma_zone_total_update(before, i, merged_entry, zone);
        },
        None => {
            lemma_zone_total_push(before, entry, zone);
        },
    }
}

/// Adding never creates a second entry for a card already in that zone: a deck built by
/// adding stays merged.
pub proof fn law_add_keeps_merged(before: Seq<DeckEntry>, entry: DeckEntry, after: Seq<DeckEntry>)
    requires
        merged(before),
        match slot_of(before, entry.oracle_id@, entry.zone) {
            Some(i) => after == before.update(
                i,
                DeckEntry {
                    quantity: before[i].quantity.saturating_add(entry.quantity),
                    ..before[i]
                },
            ),
            None => after == before.push(entry),
        },
    ensures
        merged(after),
{
    lemma_slot_of(before, entry.oracle_id@, entry.zone);
    match slot_of(before, entry.oracle_id@, entry.zone) {
        Some(i) => {
            assert forall|a: int, b: int| 0 <= a < b < after.len() implies !(
            #[trigger] after[a].oracle_id@ == #[trigger] after[b].oracle_id@ && after[a].zone
                == after[b].zone) by {
                assert(after[a].oracle_id == before[a].oracle_id && after[a].zone == before[a].zone);
                assert(after[b].oracle_id == before[b].oracle_id && after[b].zone == before[b].zone);
                assert(before[a].oracle_id@ == after[a].oracle_id@);
                assert(before[b].oracle_id@ == after[b].oracle_id@);
            }
        },
        None => {
            assert forall|a: int, b: int| 0 <= a < b < after.len() implies !(
            #[trigger] after[a].oracle_id@ == #[trigger] after[b].oracle_id@ && after[a].zone
                == after[b].zone) by {
                if b == after.len() - 1 {
                    assert(!is_slot(before[a], entry.oracle_id@, entry.zone));
                } else {
                    assert(before[a] == after[a] && before[b] == after[b]);
                }
            }
        },
    }
}

/// Removing copies from a zone lowers that zone's count by what was removed, or by all that
/// was there when fewer remained, and leaves other zones alone.
pub proof fn law_remove_counts(before: Seq<DeckEntry>, oracle: Seq<char>, zone: Zone, quantity: u32, after: Seq<DeckEntry>, other: Zone)
    requires
        match slot_of(before, oracle, zone) {
            Some(i) => if before[i].quantity <= quantity {
                after == before.remove(i)
            } else {
                after == before.update(
                    i,
                    DeckEntry { quantity: (before[i].quantity - quantity) as u32, ..before[i] },
                )
            },
            None => after == before,
        },
    ensures
        match slot_of(before, oracle, zone) {
            Some(i) => zone_total(after, other) + (if other == zone {
                if before[i].quantity <= quantity {
                    before[i].quantity as int
                } else {
                    quantity as int
                }
            } else {
                0
            }) == zone_total(before, other),
            None => zone_total(after, other) == zone_total(before, other),
        },
{
    lemma_slot_of(before, oracle, zone);
    match slot_of(before, oracle, zone) {
        Some(i) => {
            if before[i].quantity <= quantity {
                lemma_zone_total_remove(before, i, other);
            } else {
                let e = DeckEntry { quantity: (before[i].quantity - quantity) as u32, ..before[i] };
                lemma_zone_total_update(before, i, e, other);
            }
        },
        None => {},
    }
}

} // verus!
