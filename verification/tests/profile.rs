use mtg::color::{Color, ColorSet};
use mtg::data::card::{legality_to_u8, rarity_to_u8, ArchivedCard, ArchivedCardFace, Layout, LEGALITY_SLOTS};
use mtg::data::catalog::{Catalog, FORMAT_VERSION};
use mtg::deck::deck::{Deck, DeckEntry, Zone};
use mtg::format::{Format, Legality, Rarity};
use mtg::mana::ManaCost;
use mtg::optimizer::profile::{profile, profile_with_index, CardIndex};

fn card(name: &str, type_line: &str, mana_cost: &str, produced: &str) -> ArchivedCard {
    let cost = ManaCost::parse(mana_cost).unwrap_or_default();
    let colors = cost.colors();
    let produced_set = ColorSet::from_symbols(produced);
    let mut built = ArchivedCard {
        oracle_id: format!("o-{name}"),
        name: name.to_owned(),
        mana_cost: mana_cost.to_owned(),
        mana_value: cost.mana_value(),
        mana_value_halves: 2 * cost.mana_value(),
        colors: colors.bits(),
        color_identity: colors.union(produced_set).bits(),
        produced_mana: produced_set.bits(),
        type_line: type_line.to_owned(),
        oracle_text: String::new(),
        power: None,
        toughness: None,
        loyalty: None,
        keywords: Vec::new(),
        legalities: vec![legality_to_u8(Legality::Legal); LEGALITY_SLOTS],
        rarity: rarity_to_u8(Rarity::Common),
        edhrec_rank: None,
        game_changer: false,
        tags: 0,
        reserved: false,
        layout: Layout::Normal,
        faces: Vec::new(),
        set_code: "tst".to_owned(),
        collector_number: "1".to_owned(),
        released_at: "2026-01-01".to_owned(),
        image_id: String::new(),
    };
    built.faces.push(ArchivedCardFace {
        name: built.name.clone(),
        mana_cost: built.mana_cost.clone(),
        type_line: built.type_line.clone(),
        oracle_text: String::new(),
        power: None,
        toughness: None,
        loyalty: None,
        colors: built.colors,
    });
    built
}

fn catalog() -> Catalog {
    let cards = vec![
        card("Island", "Basic Land — Island", "", "U"),
        card("Mountain", "Basic Land — Mountain", "", "R"),
        card("Wastes", "Basic Land — Wastes", "", ""),
        card("Command Tower", "Land", "", "WUBRG"),
        card("Birds", "Creature — Bird", "{G}", "WUBRG"),
        card("Counterspell", "Instant", "{U}{U}", ""),
        card("Bolt", "Instant", "{R}", ""),
        card("Emrakul", "Legendary Creature — Eldrazi", "{15}", ""),
    ];
    match Catalog::from_parts(FORMAT_VERSION, String::new(), cards) {
        Ok(c) => c,
        Err(e) => panic!("{}", e.to_string()),
    }
}

fn deck_of(entries: &[(&str, u32)]) -> Deck {
    let mut deck = Deck::new("Test", Format::Modern);
    for (name, quantity) in entries {
        deck.add(DeckEntry::new(&format!("o-{name}"), name, *quantity));
    }
    deck
}

#[test]
fn one_card_entry_per_physical_copy() {
    let built = profile(&deck_of(&[("Island", 20), ("Bolt", 4)]), &catalog());
    assert_eq!(built.deck_size(), 24);
    assert_eq!(built.cards.iter().filter(|c| c.is_land).count(), 20);
}

#[test]
fn colour_sources_come_from_produced_mana_not_from_the_type_line() {
    let built = profile(&deck_of(&[("Birds", 4)]), &catalog());
    for color in Color::ALL {
        assert_eq!(built.sources_of(color), 4, "{color:?}");
    }
    assert_eq!(built.lands, 0);
    assert_eq!(built.creatures, 4);
}

#[test]
fn a_five_colour_land_counts_for_every_colour() {
    let built = profile(&deck_of(&[("Command Tower", 1), ("Island", 10)]), &catalog());
    assert_eq!(built.sources_of(Color::Blue), 11);
    assert_eq!(built.sources_of(Color::Red), 1);
}

#[test]
fn a_colourless_land_still_counts_as_a_mana_producer() {
    let built = profile(&deck_of(&[("Wastes", 5)]), &catalog());
    assert_eq!(built.lands, 5);
    assert_eq!(built.mana_producers, 5);
    for color in Color::ALL {
        assert_eq!(built.sources_of(color), 0);
    }
}

#[test]
fn requirements_weigh_copies_and_count_pips() {
    let built = profile(&deck_of(&[("Counterspell", 4)]), &catalog());
    assert_eq!(built.pip_requirements.len(), 1);
    let requirement = built.pip_requirements[0];
    assert_eq!(requirement.color, Color::Blue);
    assert_eq!(requirement.pips, 2, "{{U}}{{U}} is two symbols, not one card");
    assert_eq!(requirement.copies, 4);
    assert_eq!(requirement.turn, 2);
}

#[test]
fn lands_ask_nothing_of_the_mana_base() {
    let built = profile(&deck_of(&[("Island", 20)]), &catalog());
    assert!(built.pip_requirements.is_empty());
}

#[test]
fn a_huge_cost_does_not_claim_a_late_turn() {
    let built = profile(&deck_of(&[("Emrakul", 1)]), &catalog());
    assert!(built.pip_requirements.is_empty(), "no coloured pips at all");

    let mixed = profile(&deck_of(&[("Counterspell", 1), ("Emrakul", 1)]), &catalog());
    for requirement in &mixed.pip_requirements {
        assert!(requirement.turn <= 6, "{requirement:?}");
    }
}

#[test]
fn required_colours_are_not_the_colour_identity() {
    let built = profile(&deck_of(&[("Command Tower", 5), ("Bolt", 4)]), &catalog());
    assert_eq!(built.color_identity, ColorSet::wubrg());
    assert_eq!(built.required_colors(), ColorSet::from_symbols("R"));
}

#[test]
fn the_sideboard_is_left_out() {
    let mut deck = deck_of(&[("Island", 20)]);
    deck.add(DeckEntry::new("o-Bolt", "Bolt", 15).in_zone(Zone::Sideboard));
    assert_eq!(profile(&deck, &catalog()).deck_size(), 20);
}

#[test]
fn the_command_zone_is_included() {
    let mut deck = deck_of(&[("Island", 99)]);
    deck.add(DeckEntry::new("o-Birds", "Birds", 1).in_zone(Zone::Command));
    let built = profile(&deck, &catalog());
    assert_eq!(built.deck_size(), 100);
    assert_eq!(built.creatures, 1);
}

#[test]
fn unresolved_cards_are_counted_not_silently_dropped() {
    let mut deck = deck_of(&[("Island", 20)]);
    deck.add(DeckEntry::new("o-ghost", "Ghost", 4));
    let built = profile(&deck, &catalog());
    assert_eq!(built.unresolved, 4);
    assert_eq!(built.deck_size(), 20);
}

#[test]
fn an_index_finds_cards_by_oracle_id_and_lists_them_in_catalog_order() {
    let catalog = catalog();
    let index = CardIndex::build(&catalog);
    assert_eq!(index.len(), 8);
    assert!(!index.is_empty());
    assert_eq!(index.get("o-Bolt").unwrap().name(), "Bolt");
    assert!(index.get("o-nothing").is_none());
    assert_eq!(index.oracle_ids()[0], "o-Island");
    let deck = deck_of(&[("Island", 20), ("Bolt", 4)]);
    assert_eq!(profile_with_index(&deck, &index).deck_size(), 24);
}
