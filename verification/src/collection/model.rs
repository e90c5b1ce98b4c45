//! What a collection is made of.
//!
//! # Why cards are identified by `oracle_id` and not `CardId`
//!
//! [`crate::CardId`] is a position in one particular catalog. Rebuild the catalog after a set
//! release and every position shifts. A collection keyed on `CardId` would appear to work,
//! then silently turn into a different collection the first time the card data updated: the
//! worst kind of bug, because nothing errors and the damage is only noticed much later.
//!
//! Scryfall's `oracle_id` is stable across printings and across rebuilds, so that is what gets
//! stored. `CardId` stays a runtime-only handle.

use vstd::prelude::*;

use crate::text::{chars_of, decimal, push_decimal, push_str, string_of, trim, trim_chars};

verus! {

/// Which collection a card belongs to.
///
/// Kept separate because the two answer different questions: physical cards can be traded and
/// have a location in a binder, digital ones cannot.
#[derive(Debug, Clone, Copy, PartialEq, Eq, PartialOrd, Ord, Hash, Structural)]
pub enum Pool {
    Physical,
    Digital,
}

impl Pool {
    pub const ALL: [Pool; 2] = [Pool::Physical, Pool::Digital];

    pub open spec fn text(self) -> Seq<char> {
        match self {
            Pool::Physical => "physical"@,
            Pool::Digital => "digital"@,
        }
    }

    pub fn as_str(self) -> (r: &'static str)
        ensures
            r@ == self.text(),
    {
        match self {
            Pool::Physical => "physical",
            Pool::Digital => "digital",
        }
    }
}

/// How a printed card is finished.
#[derive(Debug, Clone, Copy, PartialEq, Eq, PartialOrd, Ord, Hash, Structural)]
pub enum Finish {
    Nonfoil,
    Foil,
    Etched,
}

impl Finish {
    /// The variant's name, as the merge key spells it.
    pub open spec fn spelled(self) -> Seq<char> {
        match self {
            Finish::Nonfoil => "Nonfoil"@,
            Finish::Foil => "Foil"@,
            Finish::Etched => "Etched"@,
        }
    }

    pub fn name(self) -> (r: &'static str)
        ensures
            r@ == self.spelled(),
    {
        match self {
            Finish::Nonfoil => "Nonfoil",
            Finish::Foil => "Foil",
            Finish::Etched => "Etched",
        }
    }
}

impl Default for Finish {
    fn default() -> (r: Finish)
        ensures
            r == Finish::Nonfoil,
    {
        Finish::Nonfoil
    }
}

/// Condition of a physical card, using the grades every marketplace uses.
#[derive(Debug, Clone, Copy, PartialEq, Eq, PartialOrd, Ord, Hash, Structural)]
pub enum Condition {
    NearMint,
    LightlyPlayed,
    ModeratelyPlayed,
    HeavilyPlayed,
    Damaged,
}

impl Default for Condition {
    fn default() -> (r: Condition)
        ensures
            r == Condition::NearMint,
    {
        Condition::NearMint
    }
}

impl Condition {
    pub const ALL: [Condition; 5] = [
        Condition::NearMint,
        Condition::LightlyPlayed,
        Condition::ModeratelyPlayed,
        Condition::HeavilyPlayed,
        Condition::Damaged,
    ];

    pub open spec fn code(self) -> Seq<char> {
        match self {
            Condition::NearMint => "NM"@,
            Condition::LightlyPlayed => "LP"@,
            Condition::ModeratelyPlayed => "MP"@,
            Condition::HeavilyPlayed => "HP"@,
            Condition::Damaged => "DMG"@,
        }
    }

    /// The abbreviation used on price lists and trade binders.
    pub fn short_code(self) -> (r: &'static str)
        ensures
            r@ == self.code(),
    {
        match self {
            Condition::NearMint => "NM",
            Condition::LightlyPlayed => "LP",
            Condition::ModeratelyPlayed => "MP",
            Condition::HeavilyPlayed => "HP",
            Condition::Damaged => "DMG",
        }
    }

    /// The variant's name, as the merge key spells it.
    pub open spec fn spelled(self) -> Seq<char> {
        match self {
            Condition::NearMint => "NearMint"@,
            Condition::LightlyPlayed => "LightlyPlayed"@,
            Condition::ModeratelyPlayed => "ModeratelyPlayed"@,
            Condition::HeavilyPlayed => "HeavilyPlayed"@,
            Condition::Damaged => "Damaged"@,
        }
    }

    pub fn name(self) -> (r: &'static str)
        ensures
            r@ == self.spelled(),
    {
        match self {
            Condition::NearMint => "NearMint",
            Condition::LightlyPlayed => "LightlyPlayed",
            Condition::ModeratelyPlayed => "ModeratelyPlayed",
            Condition::HeavilyPlayed => "HeavilyPlayed",
            Condition::Damaged => "Damaged",
        }
    }
}

fn copy_string(s: &String) -> (r: String)
    ensures
        r@ == s@,
{
    string_of(chars_of(s.as_str()).as_slice())
}

/// Where a physical card lives.
///
/// Free-form on purpose: people organise by binder, by box, by deck, by shoebox. During a
/// scan session the location is sticky and the slot increments, so nothing has to be typed per
/// card.
#[derive(Debug, Clone, PartialEq, Eq)]
pub struct StorageLocation {
    /// e.g. "Binder 3", "Blue deck box".
    pub container: String,
    /// e.g. "page 12".
    pub section: Option<String>,
    /// Position within the section.
    pub slot: Option<u16>,
}

/// How a location reads: `Binder 3, page 12 #4`.
pub open spec fn location_text(container: Seq<char>, section: Option<Seq<char>>, slot: Option<u16>) -> Seq<char> {
    container + (match section {
        Some(s) => ", "@ + s,
        None => Seq::empty(),
    }) + (match slot {
        Some(n) => " #"@ + decimal(n as nat),
        None => Seq::empty(),
    })
}

impl StorageLocation {
    /// The section's text, when there is one.
    pub open spec fn section_view(&self) -> Option<Seq<char>> {
        match self.section {
            Some(s) => Some(s@),
            None => None,
        }
    }

    /// How the location reads.
    pub open spec fn text(&self) -> Seq<char> {
        location_text(self.container@, self.section_view(), self.slot)
    }

    pub fn new(container: &str) -> (r: StorageLocation)
        ensures
            r.container@ == container@,
            r.section is None,
            r.slot is None,
    {
        StorageLocation {
            container: string_of(chars_of(container).as_slice()),
            section: None,
            slot: None,
        }
    }

    pub fn with_section(self, section: &str) -> (r: StorageLocation)
        ensures
            r.container == self.container,
            r.section_view() == Some(section@),
            r.slot == self.slot,
    {
        StorageLocation { section: Some(string_of(chars_of(section).as_slice())), ..self }
    }

    pub fn with_slot(self, slot: u16) -> (r: StorageLocation)
        ensures
            r.container == self.container,
            r.section == self.section,
            r.slot == Some(slot),
    {
        StorageLocation { slot: Some(slot), ..self }
    }

    /// The next slot in the same section, for sticky scanning. Slot numbering starts at one
    /// and saturates rather than wrapping to zero, which would silently scramble locations.
    pub fn next_slot(&self) -> (r: StorageLocation)
        ensures
            r.container@ == self.container@,
            r.section_view() == self.section_view(),
            r.slot == Some(
                match self.slot {
                    Some(s) => s.saturating_add(1),
                    None => 1u16,
                },
            ),
    {
        let section = match &self.section {
            Some(s) => Some(copy_string(s)),
            None => None,
        };
        let slot = match self.slot {
            Some(s) => s.saturating_add(1),
            None => 1,
        };
        StorageLocation { container: copy_string(&self.container), section, slot: Some(slot) }
    }

    /// A location that says nothing: a blank container and no section or slot.
    pub fn is_empty(&self) -> (r: bool)
        ensures
            r == (trim(self.container@).len() == 0 && self.section is None && self.slot is None),
    {
        let t = trim_chars(chars_of(self.container.as_str()).as_slice());
        t.len() == 0 && self.section.is_none() && self.slot.is_none()
    }

    /// Renders as `Binder 3, page 12 #4`.
    pub fn to_string(&self) -> (r: String)
        ensures
            r@ == self.text(),
    {
        let mut out = String::new();
        push_str(&mut out, self.container.as_str());
        match &self.section {
            Some(s) => {
                push_str(&mut out, ", ");
                push_str(&mut out, s.as_str());
            },
            None => {},
        }
        match self.slot {
            Some(n) => {
                push_str(&mut out, " #");
                push_decimal(&mut out, n as u64);
            },
            None => {},
        }
        assert(out@ =~= self.text());
        out
    }

    /// A field-for-field copy.
    pub fn duplicate(&self) -> (r: StorageLocation)
        ensures
            r.container@ == self.container@,
            r.section_view() == self.section_view(),
            r.slot == self.slot,
    {
        let section = match &self.section {
            Some(s) => Some(copy_string(s)),
            None => None,
        };
        StorageLocation { container: copy_string(&self.container), section, slot: self.slot }
    }
}

/// Identifier of a holding, unique within one collection.
#[derive(Debug, Clone, Copy, PartialEq, Eq, PartialOrd, Ord, Hash, Structural)]
pub struct HoldingId(pub u64);

impl HoldingId {
    pub fn to_string(self) -> (r: String)
        ensures
            r@ == decimal(self.0 as nat),
    {
        let mut out = String::new();
        push_decimal(&mut out, self.0);
        assert(out@ =~= decimal(self.0 as nat));
        out
    }
}

/// A stack of interchangeable copies of one card.
///
/// Two copies of the same card in different binders, or in different conditions, are two
/// holdings. Copies that differ in nothing worth tracking share one holding and a quantity.
#[derive(Debug, Clone, PartialEq, Eq)]
pub struct Holding {
    pub id: HoldingId,
    pub pool: Pool,
    /// Scryfall oracle id: stable across catalog rebuilds. See the module docs.
    pub oracle_id: String,
    /// Denormalised so a collection stays readable even without a catalog loaded.
    pub name: String,
    /// Which printing, when known. Empty means "unspecified".
    pub set_code: String,
    pub collector_number: String,
    /// Two-letter Scryfall language code. `"en"` by default; French cards are `"fr"`.
    pub language: String,
    pub finish: Finish,
    pub condition: Condition,
    pub quantity: u32,
    pub location: Option<StorageLocation>,
    pub notes: String,
}

/// Borrowed view of the fields that identify interchangeable copies.
#[derive(Debug)]
pub struct MergeKey<'a> {
    pub pool: Pool,
    pub oracle_id: &'a str,
    pub set_code: &'a str,
    pub collector_number: &'a str,
    pub language: &'a str,
    pub finish: Finish,
    pub condition: Condition,
    pub location: Option<&'a StorageLocation>,
}

impl Holding {
    /// Fields that make two stacks interchangeable.
    ///
    /// Used to merge an addition into an existing holding instead of creating a near-duplicate
    /// row every time the same card is scanned.
    pub fn merge_key(&self) -> (r: MergeKey<'_>)
        ensures
            r.pool == self.pool,
            r.oracle_id@ == self.oracle_id@,
            r.set_code@ == self.set_code@,
            r.collector_number@ == self.collector_number@,
            r.language@ == self.language@,
            r.finish == self.finish,
            r.condition == self.condition,
            r.location == (match &self.location {
                Some(l) => Some(l),
                None => None::<&StorageLocation>,
            }),
    {
        MergeKey {
            pool: self.pool,
            oracle_id: self.oracle_id.as_str(),
            set_code: self.set_code.as_str(),
            collector_number: self.collector_number.as_str(),
            language: self.language.as_str(),
            finish: self.finish,
            condition: self.condition,
            location: match &self.location {
                Some(l) => Some(l),
                None => None,
            },
        }
    }

    /// A field-for-field copy.
    pub fn duplicate(&self) -> (r: Holding)
        ensures
            r.id == self.id,
            r.pool == self.pool,
            r.oracle_id@ == self.oracle_id@,
            r.name@ == self.name@,
            r.set_code@ == self.set_code@,
            r.collector_number@ == self.collector_number@,
            r.language@ == self.language@,
            r.finish == self.finish,
            r.condition == self.condition,
            r.quantity == self.quantity,
            r.location is Some == self.location is Some,
            r.location matches Some(l) ==> self.location matches Some(m) && l.container@
                == m.container@ && l.section_view() == m.section_view() && l.slot == m.slot,
            r.notes@ == self.notes@,
    {
        Holding {
            id: self.id,
            pool: self.pool,
            oracle_id: copy_string(&self.oracle_id),
            name: copy_string(&self.name),
            set_code: copy_string(&self.set_code),
            collector_number: copy_string(&self.collector_number),
            language: copy_string(&self.language),
            finish: self.finish,
            condition: self.condition,
            quantity: self.quantity,
            location: match &self.location {
                Some(l) => Some(l.duplicate()),
                None => None,
            },
            notes: copy_string(&self.notes),
        }
    }
}

/// What to add to a collection. `quantity` is added to any matching holding.
#[derive(Debug, Clone, PartialEq, Eq)]
pub struct NewHolding {
    pub pool: Pool,
    pub oracle_id: String,
    pub name: String,
    pub set_code: String,
    pub collector_number: String,
    pub language: String,
    pub finish: Finish,
    pub condition: Condition,
    pub quantity: u32,
    pub location: Option<StorageLocation>,
    pub notes: String,
}

impl NewHolding {
    /// A single English non-foil copy in near-mint condition, with no printing specified.
    pub fn single(pool: Pool, oracle_id: &str, name: &str) -> (r: NewHolding)
        ensures
            r.pool == pool,
            r.oracle_id@ == oracle_id@,
            r.name@ == name@,
            r.set_code@.len() == 0,
            r.collector_number@.len() == 0,
            r.language@ == "en"@,
            r.finish == Finish::Nonfoil,
            r.condition == Condition::NearMint,
            r.quantity == 1,
            r.location is None,
            r.notes@.len() == 0,
    {
        NewHolding {
            pool,
            oracle_id: string_of(chars_of(oracle_id).as_slice()),
            name: string_of(chars_of(name).as_slice()),
            set_code: String::new(),
            collector_number: String::new(),
            language: string_of(chars_of("en").as_slice()),
            finish: Finish::default(),
            condition: Condition::default(),
            quantity: 1,
            location: None,
            notes: String::new(),
        }
    }

    pub fn quantity(self, quantity: u32) -> (r: NewHolding)
        ensures
            r == (NewHolding { quantity, ..self }),
    {
        NewHolding { quantity, ..self }
    }

    pub fn printing(self, set_code: &str, collector_number: &str) -> (r: NewHolding)
        ensures
            r.set_code@ == set_code@,
            r.collector_number@ == collector_number@,
            r.pool == self.pool,
            r.oracle_id == self.oracle_id,
            r.name == self.name,
            r.language == self.language,
            r.finish == self.finish,
            r.condition == self.condition,
            r.quantity == self.quantity,
            r.location == self.location,
            r.notes == self.notes,
    {
        NewHolding {
            set_code: string_of(chars_of(set_code).as_slice()),
            collector_number: string_of(chars_of(collector_number).as_slice()),
            ..self
        }
    }

    pub fn language(self, language: &str) -> (r: NewHolding)
        ensures
            r.language@ == language@,
            r.pool == self.pool,
            r.oracle_id == self.oracle_id,
            r.name == self.name,
            r.set_code == self.set_code,
            r.collector_number == self.collector_number,
            r.finish == self.finish,
            r.condition == self.condition,
            r.quantity == self.quantity,
            r.location == self.location,
            r.notes == self.notes,
    {
        NewHolding { language: string_of(chars_of(language).as_slice()), ..self }
    }

    pub fn finish(self, finish: Finish) -> (r: NewHolding)
        ensures
            r == (NewHolding { finish, ..self }),
    {
        NewHolding { finish, ..self }
    }

    pub fn condition(self, condition: Condition) -> (r: NewHolding)
        ensures
            r == (NewHolding { condition, ..self }),
    {
        NewHolding { condition, ..self }
    }

    pub fn at(self, location: StorageLocation) -> (r: NewHolding)
        ensures
            r == (NewHolding { location: Some(location), ..self }),
    {
        NewHolding { location: Some(location), ..self }
    }

    /// The holding this addition becomes under a fresh id.
    pub open spec fn as_holding(self, id: HoldingId) -> Holding {
        Holding {
            id,
            pool: self.pool,
            oracle_id: self.oracle_id,
            name: self.name,
            set_code: self.set_code,
            collector_number: self.collector_number,
            language: self.language,
            finish: self.finish,
            condition: self.condition,
            quantity: self.quantity,
            location: self.location,
            notes: self.notes,
        }
    }

    pub fn into_holding(self, id: HoldingId) -> (r: Holding)
        ensures
            r == self.as_holding(id),
    {
        Holding {
            id,
            pool: self.pool,
            oracle_id: self.oracle_id,
            name: self.name,
            set_code: self.set_code,
            collector_number: self.collector_number,
            language: self.language,
            finish: self.finish,
            condition: self.condition,
            quantity: self.quantity,
            location: self.location,
            notes: self.notes,
        }
    }
}

/// Something went wrong reading or writing a collection.
#[derive(Debug)]
pub enum CollectionError {
    /// A failure from the underlying database, flattened to a message: every one of them
    /// means the write did not happen, and the caller's only recourse is to surface it.
    Database(String),
    Encoding(String),
    NotFound(HoldingId),
    /// Guarded rather than silently ignored: a zero-quantity add is a caller bug, and letting
    /// it through would leave an invisible empty row behind.
    ZeroQuantity,
}

impl CollectionError {
    pub open spec fn message(&self) -> Seq<char> {
        match self {
            CollectionError::Database(m) => "collection database error: "@ + m@,
            CollectionError::Encoding(m) => "could not encode or decode a holding: "@ + m@,
            CollectionError::NotFound(id) => "no holding with id "@ + decimal(id.0 as nat),
            CollectionError::ZeroQuantity => "cannot add zero copies; use remove to delete a holding"@,
        }
    }

    pub fn to_string(&self) -> (r: String)
        ensures
            r@ == self.message(),
    {
        let mut out = String::new();
        match self {
            CollectionError::Database(m) => {
                push_str(&mut out, "collection database error: ");
                push_str(&mut out, m.as_str());
            },
            CollectionError::Encoding(m) => {
                push_str(&mut out, "could not encode or decode a holding: ");
                push_str(&mut out, m.as_str());
            },
            CollectionError::NotFound(id) => {
                push_str(&mut out, "no holding with id ");
                push_decimal(&mut out, id.0);
            },
            CollectionError::ZeroQuantity => {
                push_str(&mut out, "cannot add zero copies; use remove to delete a holding");
            },
        }
        assert(out@ =~= self.message());
        out
    }
}

} // verus!
