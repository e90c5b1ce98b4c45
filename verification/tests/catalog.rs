use mtg::color::ColorSet;
use mtg::data::card::{legality_to_u8, rarity_to_u8, ArchivedCard, ArchivedCardFace, Layout, LEGALITY_SLOTS};
use mtg::data::catalog::{Catalog, FORMAT_VERSION};
use mtg::data::error::CatalogError;
use mtg::format::{Format, Legality, Rarity};
use mtg::CardId;

fn face(name: &str, mana_cost: &str, type_line: &str) -> ArchivedCardFace {
    ArchivedCardFace {
        name: name.to_owned(),
        mana_cost: mana_cost.to_owned(),
        type_line: type_line.to_owned(),
        oracle_text: String::new(),
        power: None,
        toughness: None,
        loyalty: None,
        colors: 0,
    }
}

fn card(name: &str, mana_cost: &str, type_line: &str) -> ArchivedCard {
    ArchivedCard {
        oracle_id: format!("oracle-{name}"),
        name: name.to_owned(),
        mana_cost: mana_cost.to_owned(),
        mana_value: 0,
        mana_value_halves: 0,
        colors: 0,
        color_identity: 0,
        produced_mana: 0,
        type_line: type_line.to_owned(),
        oracle_text: String::new(),
        power: None,
        toughness: None,
        loyalty: None,
        keywords: Vec::new(),
        legalities: vec![legality_to_u8(Legality::NotLegal); LEGALITY_SLOTS],
        rarity: rarity_to_u8(Rarity::Common),
        edhrec_rank: None,
        game_changer: false,
        tags: 0,
        reserved: false,
        layout: Layout::Normal,
        faces: vec![face(name, mana_cost, type_line)],
        set_code: "tst".to_owned(),
        collector_number: "1".to_owned(),
        released_at: "2026-01-01".to_owned(),
        image_id: String::new(),
    }
}

fn round_trip(cards: Vec<ArchivedCard>) -> Catalog {
    match Catalog::from_parts(FORMAT_VERSION, "2026-08-17T09:01:54.476+00:00".to_owned(), cards) {
        Ok(catalog) => catalog,
        Err(e) => panic!("{}", e.to_string()),
    }
}

#[test]
fn empty_catalog_round_trips() {
    let catalog = round_trip(Vec::new());
    assert!(catalog.is_empty());
    assert_eq!(catalog.source_updated_at(), "2026-08-17T09:01:54.476+00:00");
}

#[test]
fn cards_are_readable_after_round_trip() {
    let catalog = round_trip(vec![
        card("Llanowar Elves", "{G}", "Creature — Elf Druid"),
        card("Counterspell", "{U}{U}", "Instant"),
    ]);

    assert_eq!(catalog.len(), 2);
    let counterspell = catalog.get(CardId(1)).unwrap();
    assert_eq!(counterspell.name(), "Counterspell");
    assert_eq!(counterspell.mana_cost().unwrap().mana_value(), 2);
}

#[test]
fn ids_are_positions() {
    let catalog = round_trip(vec![
        card("A", "{W}", "Instant"),
        card("B", "{U}", "Instant"),
        card("C", "{B}", "Instant"),
    ]);
    for (id, c) in catalog.iter() {
        assert_eq!(catalog.get(id).unwrap().name(), c.name());
    }
    assert_eq!(catalog.get(CardId(2)).unwrap().name(), "C");
    assert!(catalog.get(CardId(3)).is_none());
}

#[test]
fn name_lookup_is_case_insensitive() {
    let catalog = round_trip(vec![card("Sol Ring", "{1}", "Artifact")]);

    for query in ["Sol Ring", "sol ring", "SOL RING"] {
        let (id, found) = catalog.find_by_name(query).unwrap();
        assert_eq!(id, CardId(0));
        assert_eq!(found.name(), "Sol Ring");
    }
    assert!(catalog.find_by_name("Sol").is_none());
}

#[test]
fn split_card_mana_cost_is_empty_at_top_level() {
    let mut fire_ice = card("Fire // Ice", "{1}{R} // {1}{U}", "Instant // Instant");
    fire_ice.layout = Layout::Split;
    fire_ice.faces = vec![face("Fire", "{1}{R}", "Instant"), face("Ice", "{1}{U}", "Instant")];

    let catalog = round_trip(vec![fire_ice]);
    let archived = catalog.get(CardId(0)).unwrap();

    assert!(archived.is_multi_faced());
    assert!(archived.mana_cost().unwrap().is_empty());
    assert_eq!(archived.faces()[0].mana_cost().unwrap().mana_value(), 2);
    assert_eq!(archived.faces()[1].mana_cost().unwrap().colors(), ColorSet::from_symbols("U"));
}

#[test]
fn legality_reads_back_per_format() {
    let mut sol_ring = card("Sol Ring", "{1}", "Artifact");
    sol_ring.legalities[Format::Commander.index()] = legality_to_u8(Legality::Legal);
    sol_ring.legalities[Format::Vintage.index()] = legality_to_u8(Legality::Restricted);
    sol_ring.legalities[Format::Modern.index()] = legality_to_u8(Legality::Banned);

    let catalog = round_trip(vec![sol_ring]);
    let archived = catalog.get(CardId(0)).unwrap();

    assert_eq!(archived.legality(Format::Commander), Legality::Legal);
    assert_eq!(archived.legality(Format::Vintage), Legality::Restricted);
    assert_eq!(archived.legality(Format::Modern), Legality::Banned);
    assert_eq!(archived.legality(Format::Standard), Legality::NotLegal);

    assert!(archived.is_legal_in(Format::Commander));
    assert!(archived.is_legal_in(Format::Vintage));
    assert!(!archived.is_legal_in(Format::Modern));
}

#[test]
fn commander_detection() {
    let atraxa = card("Atraxa, Praetors' Voice", "{G}{W}{U}{B}", "Legendary Creature — Phyrexian Angel Horror");
    let elves = card("Llanowar Elves", "{G}", "Creature — Elf Druid");
    let sword = card("Sol Ring", "{1}", "Artifact");

    let catalog = round_trip(vec![atraxa, elves, sword]);
    assert!(catalog.get(CardId(0)).unwrap().can_be_commander());
    assert!(!catalog.get(CardId(1)).unwrap().can_be_commander());
    assert!(!catalog.get(CardId(2)).unwrap().can_be_commander());
}

#[test]
fn planeswalker_commanders_are_detected_by_text() {
    let mut teferi = card("Teferi, Temporal Archmage", "{3}{U}{U}", "Legendary Planeswalker — Teferi");
    teferi.oracle_text = "Teferi, Temporal Archmage can be your commander.".to_owned();

    let catalog = round_trip(vec![teferi]);
    assert!(catalog.get(CardId(0)).unwrap().can_be_commander());
}

#[test]
fn version_mismatch_is_reported() {
    let err = match Catalog::from_parts(FORMAT_VERSION + 1, String::new(), Vec::new()) {
        Ok(_) => panic!("accepted"),
        Err(e) => e,
    };
    assert!(matches!(err, CatalogError::VersionMismatch { .. }), "{}", err.to_string());
    assert_eq!(
        err.to_string(),
        "catalog format version 2 cannot be read by this build (expects 1); download the matching artifact"
    );
}

#[test]
fn a_card_is_found_by_its_oracle_id() {
    let catalog = round_trip(vec![card("A", "{W}", "Instant"), card("B", "{U}", "Instant")]);
    assert_eq!(catalog.find_by_oracle_id("oracle-B").unwrap().name(), "B");
    assert!(catalog.find_by_oracle_id("oracle-Z").is_none());
}

#[test]
fn catalog_errors_read_as_sentences() {
    assert_eq!(CatalogError::Corrupt("bad".to_owned()).to_string(), "catalog is corrupt or not a catalog archive: bad");
    assert_eq!(
        CatalogError::Io { path: "/x".to_owned(), message: "gone".to_owned() }.to_string(),
        "could not read catalog at /x"
    );
}
