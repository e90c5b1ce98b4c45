//! The combo model.
//!
//! Combos are keyed on Scryfall `oracle_id`, which is what makes them line up with decks and
//! collections without a translation step.

use vstd::prelude::*;

use crate::text::{decimal, has_sub, lowered, push_decimal, push_str, str_contains, to_lowercase};

verus! {

/// Bumped whenever the stored layout changes in a way older readers cannot handle.
pub const FORMAT_VERSION: u32 = 1;

/// One known combo, as it is written into the combo artifact.
#[derive(Debug, Clone)]
pub struct Combo {
    /// Commander Spellbook's own identifier, so a combo can be looked up on their site.
    pub id: String,
    /// Oracle ids of every card the combo needs. All of them must be present.
    pub oracle_ids: Vec<String>,
    /// Card names, denormalised so a result is readable without a catalog.
    pub card_names: Vec<String>,
    /// What it does: "Infinite colorless mana", "Win the game", and so on.
    pub produces: Vec<String>,
    /// Colour identity, as WUBRG letters.
    pub identity: String,
    pub legal_in_commander: bool,
    /// How often it turns up in decklists. Absent when Spellbook does not say.
    pub popularity: Option<u32>,
    /// Spellbook's own bracket tag, stored verbatim and uninterpreted: its meaning is not
    /// documented, so the bracket estimate is derived from Wizards' published criteria
    /// instead.
    pub bracket_tag: String,
}

/// One known combo, as the loaded database holds it.
#[derive(Debug, Clone)]
pub struct ArchivedCombo {
    pub id: String,
    pub oracle_ids: Vec<String>,
    pub card_names: Vec<String>,
    pub produces: Vec<String>,
    pub identity: String,
    pub legal_in_commander: bool,
    pub popularity: Option<u32>,
    pub bracket_tag: String,
}

impl Combo {
    /// The combo as the database holds it.
    pub fn archive(self) -> (r: ArchivedCombo)
        ensures
            r.id == self.id,
            r.oracle_ids == self.oracle_ids,
            r.card_names == self.card_names,
            r.produces == self.produces,
            r.identity == self.identity,
            r.legal_in_commander == self.legal_in_commander,
            r.popularity == self.popularity,
            r.bracket_tag == self.bracket_tag,
    {
        ArchivedCombo {
            id: self.id,
            oracle_ids: self.oracle_ids,
            card_names: self.card_names,
            produces: self.produces,
            identity: self.identity,
            legal_in_commander: self.legal_in_commander,
            popularity: self.popularity,
            bracket_tag: self.bracket_tag,
        }
    }
}

/// The texts of a list of strings.
pub open spec fn texts(v: Seq<String>) -> Seq<Seq<char>> {
    v.map_values(|x: String| x@)
}

/// True when some feature, lower-cased, contains `needle`.
pub open spec fn some_feature_says(features: Seq<String>, needle: Seq<char>) -> bool {
    exists|i: int| 0 <= i < features.len() && has_sub(lowered(#[trigger] features[i]@), needle)
}

impl ArchivedCombo {
    /// Unbounded: Spellbook's feature names say "Infinite ..." for the ones that matter. A
    /// combo that merely produces a large amount is not the same thing.
    pub open spec fn infinite(&self) -> bool {
        some_feature_says(self.produces@, "infinite"@)
    }

    /// Wins outright rather than producing a resource.
    pub open spec fn wins(&self) -> bool {
        some_feature_says(self.produces@, "win the game"@) || some_feature_says(
            self.produces@,
            "each opponent loses the game"@,
        )
    }

    pub fn id(&self) -> (r: &str)
        ensures
            r@ == self.id@,
    {
        self.id.as_str()
    }

    pub fn identity(&self) -> (r: &str)
        ensures
            r@ == self.identity@,
    {
        self.identity.as_str()
    }

    /// How many cards it takes. Two is the number the bracket rules care about.
    pub fn card_count(&self) -> (r: usize)
        ensures
            r == self.oracle_ids@.len(),
    {
        self.oracle_ids.len()
    }

    /// True when the combo produces something unbounded.
    pub fn is_infinite(&self) -> (r: bool)
        ensures
            r == self.infinite(),
    {
        let mut i: usize = 0;
        while i < self.produces.len()
            invariant
                i <= self.produces@.len(),
                forall|k: int| 0 <= k < i ==> !has_sub(lowered(#[trigger] self.produces@[k]@), "infinite"@),
            decreases self.produces@.len() - i,
        {
            let lower = to_lowercase(self.produces[i].as_str());
            if str_contains(lower.as_str(), "infinite") {
                return true;
            }
            i = i + 1;
        }
        false
    }

    /// True when it wins outright rather than producing a resource.
    pub fn wins_the_game(&self) -> (r: bool)
        ensures
            r == self.wins(),
    {
        let mut i: usize = 0;
        while i < self.produces.len()
            invariant
                i <= self.produces@.len(),
                forall|k: int|
                    0 <= k < i ==> !has_sub(lowered(#[trigger] self.produces@[k]@), "win the game"@)
                        && !has_sub(lowered(self.produces@[k]@), "each opponent loses the game"@),
            decreases self.produces@.len() - i,
        {
            let lower = to_lowercase(self.produces[i].as_str());
            if str_contains(lower.as_str(), "win the game") || str_contains(
                lower.as_str(),
                "each opponent loses the game",
            ) {
                return true;
            }
            i = i + 1;
        }
        false
    }

    pub fn names(&self) -> (r: Vec<&str>)
        ensures
            r@.len() == self.card_names@.len(),
            forall|k: int| 0 <= k < r@.len() ==> (#[trigger] r@[k])@ == self.card_names@[k]@,
    {
        let mut out: Vec<&str> = Vec::new();
        let mut i: usize = 0;
        while i < self.card_names.len()
            invariant
                i <= self.card_names@.len(),
                out@.len() == i,
                forall|k: int| 0 <= k < i ==> (#[trigger] out@[k])@ == self.card_names@[k]@,
            decreases self.card_names@.len() - i,
        {
            out.push(self.card_names[i].as_str());
            i = i + 1;
        }
        out
    }

    pub fn produces_list(&self) -> (r: Vec<&str>)
        ensures
            r@.len() == self.produces@.len(),
            forall|k: int| 0 <= k < r@.len() ==> (#[trigger] r@[k])@ == self.produces@[k]@,
    {
        let mut out: Vec<&str> = Vec::new();
        let mut i: usize = 0;
        while i < self.produces.len()
            invariant
                i <= self.produces@.len(),
                out@.len() == i,
                forall|k: int| 0 <= k < i ==> (#[trigger] out@[k])@ == self.produces@[k]@,
            decreases self.produces@.len() - i,
        {
            out.push(self.produces[i].as_str());
            i = i + 1;
        }
        out
    }
}

/// The root of the combo artifact.
#[derive(Debug)]
pub struct ComboData {
    pub format_version: u32,
    /// When the snapshot was taken, so the UI can say how stale it is.
    pub fetched_at: String,
    pub combos: Vec<Combo>,
}

/// Something went wrong opening or reading a combo artifact. The artifact is an optional
/// download, so every one of these is expected to happen and none of them panic.
#[derive(Debug)]
pub enum ComboError {
    Io { path: String, message: String },
    Corrupt(String),
    VersionMismatch { expected: u32, found: u32 },
    Serialize(String),
}

impl ComboError {
    pub open spec fn message(&self) -> Seq<char> {
        match self {
            ComboError::Io { path, .. } => "could not read the combo database at "@ + path@,
            ComboError::Corrupt(m) => "the combo database is corrupt or not a combo archive: "@ + m@,
            ComboError::VersionMismatch { expected, found } => "combo database format version "@
                + decimal(*found as nat) + " cannot be read by this build (expects "@ + decimal(
                *expected as nat,
            ) + "); download the matching artifact"@,
            ComboError::Serialize(m) => "could not serialize the combo database: "@ + m@,
        }
    }

    pub fn to_string(&self) -> (r: String)
        ensures
            r@ == self.message(),
    {
        let mut out = String::new();
        match self {
            ComboError::Io { path, .. } => {
                push_str(&mut out, "could not read the combo database at ");
                push_str(&mut out, path.as_str());
            },
            ComboError::Corrupt(m) => {
                push_str(&mut out, "the combo database is corrupt or not a combo archive: ");
                push_str(&mut out, m.as_str());
            },
            ComboError::VersionMismatch { expected, found } => {
                push_str(&mut out, "combo database format version ");
                push_decimal(&mut out, *found as u64);
                push_str(&mut out, " cannot be read by this build (expects ");
                push_decimal(&mut out, *expected as u64);
                push_str(&mut out, "); download the matching artifact");
            },
            ComboError::Serialize(m) => {
                push_str(&mut out, "could not serialize the combo database: ");
                push_str(&mut out, m.as_str());
            },
        }
        assert(out@ =~= self.message());
        out
    }
}

/// A loaded combo database.
#[derive(Debug)]
pub struct ComboDatabase {
    combos: Vec<ArchivedCombo>,
    fetched_at: String,
}

impl ComboDatabase {
    /// The combos, in artifact order.
    pub closed spec fn combos_view(&self) -> Seq<ArchivedCombo> {
        self.combos@
    }

    pub closed spec fn fetched(&self) -> Seq<char> {
        self.fetched_at@
    }

    /// A database over the contents of an artifact, provided it was written in the layout
    /// this build reads.
    pub fn from_parts(format_version: u32, fetched_at: String, combos: Vec<ArchivedCombo>) -> (r: Result<ComboDatabase, ComboError>)
        ensures
            format_version == FORMAT_VERSION ==> (r matches Ok(db) && db.combos_view() == combos@
                && db.fetched() == fetched_at@),
            format_version != FORMAT_VERSION ==> (r matches Err(ComboError::VersionMismatch { expected, found })
                && expected == FORMAT_VERSION && found == format_version),
    {
        if format_version != FORMAT_VERSION {
            return Err(ComboError::VersionMismatch { expected: FORMAT_VERSION, found: format_version });
        }
        Ok(ComboDatabase { combos, fetched_at })
    }

    pub fn fetched_at(&self) -> (r: &str)
        ensures
            r@ == self.fetched(),
    {
        self.fetched_at.as_str()
    }

    pub fn len(&self) -> (r: usize)
        ensures
            r == self.combos_view().len(),
    {
        self.combos.len()
    }

    pub fn is_empty(&self) -> (r: bool)
        ensures
            r == (self.combos_view().len() == 0),
    {
        self.combos.len() == 0
    }

    pub fn get(&self, index: usize) -> (r: Option<&ArchivedCombo>)
        ensures
            index < self.combos_view().len() ==> r == Some(&self.combos_view()[index as int]),
            index >= self.combos_view().len() ==> r is None,
    {
        if index < self.combos.len() {
            Some(&self.combos[index])
        } else {
            None
        }
    }

    /// Every combo, in artifact order.
    pub fn iter(&self) -> (r: &[ArchivedCombo])
        ensures
            r@ == self.combos_view(),
    {
        self.combos.as_slice()
    }
}

} // verus!
