use mtg::format::{Format, Legality};

#[test]
fn format_indexes_match_position_in_all() {
    for (position, format) in Format::ALL.into_iter().enumerate() {
        assert_eq!(format.index(), position, "{format:?}");
    }
}

#[test]
fn scryfall_keys_round_trip() {
    for format in Format::ALL {
        assert_eq!(Format::from_scryfall_key(format.scryfall_key()), Some(format), "{format:?}");
    }
}

#[test]
fn scryfall_keys_are_unique() {
    let mut keys: Vec<&str> = Format::ALL.iter().map(|f| f.scryfall_key()).collect();
    keys.sort_unstable();
    let count = keys.len();
    keys.dedup();
    assert_eq!(keys.len(), count);
}

#[test]
fn unknown_format_keys_are_ignored() {
    assert_eq!(Format::from_scryfall_key("some_new_format_2027"), None);
    // Retired by Scryfall: Explorer no longer appears in the legalities object.
    assert_eq!(Format::from_scryfall_key("explorer"), None);
}

#[test]
fn format_list_matches_scryfall_as_observed() {
    let observed = [
        "alchemy",
        "brawl",
        "commander",
        "competitivebrawl",
        "duel",
        "future",
        "gladiator",
        "historic",
        "legacy",
        "modern",
        "oathbreaker",
        "oldschool",
        "pauper",
        "paupercommander",
        "penny",
        "pioneer",
        "predh",
        "premodern",
        "standard",
        "standardbrawl",
        "timeless",
        "tlr",
        "vintage",
    ];
    assert_eq!(observed.len(), Format::COUNT);

    let mut ours: Vec<&str> = Format::ALL.iter().map(|f| f.scryfall_key()).collect();
    ours.sort_unstable();
    assert_eq!(ours, observed);
}

#[test]
fn legality_parsing() {
    assert_eq!(Legality::from_scryfall_value("legal"), Legality::Legal);
    assert_eq!(Legality::from_scryfall_value("banned"), Legality::Banned);
    assert_eq!(Legality::from_scryfall_value("restricted"), Legality::Restricted);
    assert_eq!(Legality::from_scryfall_value("not_legal"), Legality::NotLegal);
}

#[test]
fn unknown_legality_values_are_not_playable() {
    // A new legality string must never accidentally read as "legal".
    assert_eq!(Legality::from_scryfall_value("provisionally_legal"), Legality::NotLegal);
    assert!(!Legality::from_scryfall_value("provisionally_legal").is_playable());
}

#[test]
fn restricted_allows_exactly_one_copy() {
    assert_eq!(Legality::Restricted.max_copies(), Some(1));
    assert_eq!(Legality::Banned.max_copies(), Some(0));
    assert_eq!(Legality::Legal.max_copies(), None);
}

#[test]
fn commander_formats_are_flagged() {
    assert!(Format::Commander.is_singleton_commander());
    assert!(Format::Brawl.is_singleton_commander());
    assert!(!Format::Modern.is_singleton_commander());
    assert!(!Format::Pauper.is_singleton_commander());
}

#[test]
fn formats_are_found_again_by_position() {
    for (position, format) in Format::ALL.into_iter().enumerate() {
        assert_eq!(Format::at(position), format);
    }
    assert_eq!(Format::Commander.display_name(), "Commander");
}
