use mtg::combo::bracket::{assess, detect_extra_turns, detect_mass_land_denial, detect_tutor};
use mtg::combo::combo::{Combo, ComboDatabase, ComboError, FORMAT_VERSION};
use mtg::combo::detect::ComboIndex;
use mtg::data::card::{legality_to_u8, rarity_to_u8, ArchivedCard, ArchivedCardFace, Layout, LEGALITY_SLOTS};
use mtg::data::catalog::Catalog;
use mtg::deck::deck::{Deck, DeckEntry, Zone};
use mtg::format::{Format, Legality, Rarity};

fn combo(id: &str, cards: &[&str], produces: &[&str]) -> Combo {
    Combo {
        id: id.to_owned(),
        oracle_ids: cards.iter().map(|c| format!("o-{c}")).collect(),
        card_names: cards.iter().map(|c| (*c).to_owned()).collect(),
        produces: produces.iter().map(|p| (*p).to_owned()).collect(),
        identity: "U".to_owned(),
        legal_in_commander: true,
        popularity: Some(100),
        bracket_tag: "S".to_owned(),
    }
}

fn database(combos: Vec<Combo>) -> ComboDatabase {
    let archived = combos.into_iter().map(|c| c.archive()).collect();
    match ComboDatabase::from_parts(FORMAT_VERSION, "2026-08-17".to_owned(), archived) {
        Ok(db) => db,
        Err(e) => panic!("{}", e.to_string()),
    }
}

fn deck_of(cards: &[&str]) -> Deck {
    let mut deck = Deck::new("Test", Format::Commander);
    for name in cards {
        deck.add(DeckEntry::new(&format!("o-{name}"), name, 1));
    }
    deck
}

#[test]
fn combos_round_trip() {
    let db = database(vec![combo(
        "513-5034",
        &["Hullbreaker Horror", "Sol Ring"],
        &["Infinite colorless mana", "Infinite storm count"],
    )]);

    assert_eq!(db.len(), 1);
    assert_eq!(db.fetched_at(), "2026-08-17");

    let first = db.get(0).unwrap();
    assert_eq!(first.id(), "513-5034");
    assert_eq!(first.card_count(), 2);
    assert_eq!(first.names(), ["Hullbreaker Horror", "Sol Ring"]);
}

#[test]
fn infinite_is_read_from_what_the_combo_produces() {
    let db = database(vec![
        combo("a", &["X", "Y"], &["Infinite colorless mana"]),
        combo("b", &["X", "Y"], &["Near-infinite mana"]),
        combo("c", &["X", "Y"], &["Two extra cards"]),
    ]);

    assert!(db.get(0).unwrap().is_infinite());
    assert!(db.get(1).unwrap().is_infinite());
    assert!(!db.get(2).unwrap().is_infinite(), "a large amount is not infinite");
}

#[test]
fn winning_outright_is_told_apart_from_producing_a_resource() {
    let db = database(vec![
        combo("a", &["X", "Y"], &["Win the game"]),
        combo("b", &["X", "Y"], &["Each opponent loses the game"]),
        combo("c", &["X", "Y"], &["Infinite colorless mana"]),
    ]);

    assert!(db.get(0).unwrap().wins_the_game());
    assert!(db.get(1).unwrap().wins_the_game());
    assert!(!db.get(2).unwrap().wins_the_game());
}

#[test]
fn an_empty_database_is_valid() {
    let db = database(Vec::new());
    assert!(db.is_empty());
    assert!(db.get(0).is_none());
}

#[test]
fn a_version_mismatch_is_reported() {
    let error = match ComboDatabase::from_parts(FORMAT_VERSION + 1, String::new(), Vec::new()) {
        Ok(_) => panic!("accepted"),
        Err(e) => e,
    };
    assert!(matches!(error, ComboError::VersionMismatch { .. }), "{}", error.to_string());
}

fn sample() -> ComboDatabase {
    database(vec![
        combo("a", &["Thassa's Oracle", "Demonic Consultation"], &["Win the game"]),
        combo("b", &["Dramatic Reversal", "Isochron Scepter"], &["Infinite colorless mana"]),
        combo("c", &["Kiki-Jiki", "Zealous Conscripts", "Ashnod's Altar"], &["Infinite colorless mana"]),
    ])
}

#[test]
fn a_complete_combo_is_found() {
    let db = sample();
    let index = ComboIndex::build(&db);
    let found = index.find_in(&deck_of(&["Thassa's Oracle", "Demonic Consultation", "Island"]));

    assert_eq!(found.len(), 1);
    assert_eq!(found[0].id, "a");
    assert!(found[0].wins_the_game);
}

#[test]
fn a_combo_missing_a_piece_is_not_reported() {
    let db = sample();
    let index = ComboIndex::build(&db);
    assert!(index.find_in(&deck_of(&["Thassa's Oracle", "Island"])).is_empty());
    assert!(index.find_in(&deck_of(&["Kiki-Jiki", "Zealous Conscripts"])).is_empty());
}

#[test]
fn three_card_combos_work_too() {
    let db = sample();
    let index = ComboIndex::build(&db);
    let found = index.find_in(&deck_of(&["Kiki-Jiki", "Zealous Conscripts", "Ashnod's Altar"]));
    assert_eq!(found.len(), 1);
    assert_eq!(found[0].card_count, 3);
}

#[test]
fn several_combos_are_all_reported_shortest_first() {
    let db = sample();
    let index = ComboIndex::build(&db);
    let found = index.find_in(&deck_of(&[
        "Thassa's Oracle",
        "Demonic Consultation",
        "Kiki-Jiki",
        "Zealous Conscripts",
        "Ashnod's Altar",
    ]));

    assert_eq!(found.len(), 2);
    assert_eq!(found[0].card_count, 2, "two-card combos first");
    assert_eq!(found[1].card_count, 3);
}

#[test]
fn the_order_is_stable_across_runs() {
    let db = sample();
    let index = ComboIndex::build(&db);
    let deck = deck_of(&["Thassa's Oracle", "Demonic Consultation", "Dramatic Reversal", "Isochron Scepter"]);
    let first = index.find_in(&deck);
    for _ in 0..20 {
        assert_eq!(index.find_in(&deck), first);
    }
}

#[test]
fn the_sideboard_does_not_complete_a_combo() {
    let db = sample();
    let index = ComboIndex::build(&db);

    let mut deck = deck_of(&["Thassa's Oracle"]);
    deck.add(DeckEntry::new("o-Demonic Consultation", "Demonic Consultation", 1).in_zone(Zone::Sideboard));

    assert!(index.find_in(&deck).is_empty());
}

#[test]
fn the_command_zone_does_complete_a_combo() {
    let db = sample();
    let index = ComboIndex::build(&db);

    let mut deck = deck_of(&["Demonic Consultation"]);
    deck.add(DeckEntry::new("o-Thassa's Oracle", "Thassa's Oracle", 1).in_zone(Zone::Command));

    assert_eq!(index.find_in(&deck).len(), 1);
}

#[test]
fn an_empty_database_finds_nothing_without_complaining() {
    let db = database(Vec::new());
    let index = ComboIndex::build(&db);
    assert!(index.is_empty());
    assert!(index.find_in(&deck_of(&["Thassa's Oracle"])).is_empty());
}

#[test]
fn an_empty_deck_finds_nothing() {
    let db = sample();
    let index = ComboIndex::build(&db);
    assert!(index.find_in(&Deck::new("Empty", Format::Commander)).is_empty());
}

fn card(name: &str, text: &str, game_changer: bool) -> ArchivedCard {
    ArchivedCard {
        oracle_id: format!("o-{name}"),
        name: name.to_owned(),
        mana_cost: String::new(),
        mana_value: 0,
        mana_value_halves: 0,
        colors: 0,
        color_identity: 0,
        produced_mana: 0,
        type_line: "Instant".to_owned(),
        oracle_text: text.to_owned(),
        power: None,
        toughness: None,
        loyalty: None,
        keywords: Vec::new(),
        legalities: vec![legality_to_u8(Legality::Legal); LEGALITY_SLOTS],
        rarity: rarity_to_u8(Rarity::Common),
        edhrec_rank: None,
        game_changer,
        tags: 0,
        reserved: false,
        layout: Layout::Normal,
        faces: vec![ArchivedCardFace {
            name: name.to_owned(),
            mana_cost: String::new(),
            type_line: "Instant".to_owned(),
            oracle_text: text.to_owned(),
            power: None,
            toughness: None,
            loyalty: None,
            colors: 0,
        }],
        set_code: "tst".to_owned(),
        collector_number: "1".to_owned(),
        released_at: "2026-01-01".to_owned(),
        image_id: String::new(),
    }
}

fn catalog() -> Catalog {
    let cards = vec![
        card("Island", "", false),
        card("Mana Vault", "Mana Vault doesn't untap.", true),
        card("Rhystic Study", "Draw a card unless that player pays {1}.", true),
        card("Smothering Tithe", "Create a Treasure token.", true),
        card("Jeska's Will", "Add {R} for each card.", true),
        card("Armageddon", "Destroy all lands.", false),
        card("Time Warp", "Take an extra turn after this one.", false),
        card("Temporal Manipulation", "Take an extra turn after this one.", false),
        card("Demonic Tutor", "Search your library for a card.", false),
        card("Thassa's Oracle", "You win the game.", false),
        card("Demonic Consultation", "Exile cards.", false),
    ];
    match Catalog::from_parts(mtg::data::catalog::FORMAT_VERSION, String::new(), cards) {
        Ok(c) => c,
        Err(e) => panic!("{}", e.to_string()),
    }
}

fn combos() -> ComboDatabase {
    database(vec![combo("a", &["Thassa's Oracle", "Demonic Consultation"], &["Win the game"])])
}

#[test]
fn a_plain_deck_sits_at_bracket_two() {
    let result = assess(&deck_of(&["Island"]), &catalog(), Some(&combos()));
    assert_eq!(result.bracket, 2);
    assert_eq!(result.label(), "Core");
    assert!(result.reasons[0].contains("nothing found"), "{:?}", result.reasons);
}

#[test]
fn one_game_changer_lifts_it_to_three() {
    let result = assess(&deck_of(&["Island", "Mana Vault"]), &catalog(), Some(&combos()));
    assert_eq!(result.bracket, 3);
    assert_eq!(result.game_changers.len(), 1);
    assert_eq!(result.game_changers[0].name, "Mana Vault");
}

#[test]
fn a_fourth_game_changer_lifts_it_to_four() {
    let three = assess(&deck_of(&["Mana Vault", "Rhystic Study", "Smothering Tithe"]), &catalog(), Some(&combos()));
    assert_eq!(three.bracket, 3);

    let four = assess(
        &deck_of(&["Mana Vault", "Rhystic Study", "Smothering Tithe", "Jeska's Will"]),
        &catalog(),
        Some(&combos()),
    );
    assert_eq!(four.bracket, 4);
}

#[test]
fn a_two_card_infinite_combo_lifts_it_to_three() {
    let result =
        assess(&deck_of(&["Island", "Thassa's Oracle", "Demonic Consultation"]), &catalog(), Some(&combos()));
    assert_eq!(result.bracket, 3);
    assert_eq!(result.two_card_combos.len(), 1);
    assert!(result.reasons.iter().any(|r| r.contains("two-card")), "{:?}", result.reasons);
}

#[test]
fn mass_land_denial_lifts_it_to_four() {
    let result = assess(&deck_of(&["Island", "Armageddon"]), &catalog(), Some(&combos()));
    assert_eq!(result.bracket, 4);
    assert_eq!(result.mass_land_denial.len(), 1);
}

#[test]
fn one_extra_turn_card_is_fine_but_two_are_not() {
    let one = assess(&deck_of(&["Island", "Time Warp"]), &catalog(), Some(&combos()));
    assert_eq!(one.bracket, 2);
    assert_eq!(one.extra_turns.len(), 1, "still reported");

    let two = assess(&deck_of(&["Time Warp", "Temporal Manipulation"]), &catalog(), Some(&combos()));
    assert_eq!(two.bracket, 4);
}

#[test]
fn tutors_are_reported_without_moving_the_bracket() {
    let result = assess(&deck_of(&["Island", "Demonic Tutor"]), &catalog(), Some(&combos()));
    assert_eq!(result.bracket, 2);
    assert_eq!(result.tutors.len(), 1);
}

#[test]
fn the_estimate_never_claims_bracket_one_or_five() {
    for deck in [
        deck_of(&["Island"]),
        deck_of(&["Mana Vault", "Rhystic Study", "Smothering Tithe", "Jeska's Will", "Armageddon"]),
    ] {
        let result = assess(&deck, &catalog(), Some(&combos()));
        assert!((2..=4).contains(&result.bracket), "{}", result.bracket);
        assert!(result.caveats.iter().any(|c| c.contains("1 and 5")), "{:?}", result.caveats);
    }
}

#[test]
fn a_missing_combo_database_is_admitted_not_assumed_clean() {
    let result = assess(&deck_of(&["Thassa's Oracle", "Demonic Consultation"]), &catalog(), None);
    assert_eq!(result.bracket, 2);
    assert!(result.caveats.iter().any(|c| c.contains("not loaded")), "{:?}", result.caveats);
}

#[test]
fn mass_land_denial_does_not_catch_stax_pieces() {
    assert!(detect_mass_land_denial("Lands don't untap during untap steps.").is_none());
    assert!(detect_mass_land_denial("Destroy all lands.").is_some());
    assert!(detect_mass_land_denial("Destroy target land.").is_none());
}

#[test]
fn the_reasons_read_as_sentences() {
    let result = assess(
        &deck_of(&["Mana Vault", "Rhystic Study", "Smothering Tithe", "Jeska's Will"]),
        &catalog(),
        Some(&combos()),
    );
    assert!(result.reasons[0].starts_with("4 Game Changers"), "{:?}", result.reasons);
}

#[test]
fn extra_turns_and_tutors_are_read_from_the_text() {
    assert!(detect_extra_turns("Take an extra turn after this one.").is_some());
    assert!(detect_extra_turns("Draw a card.").is_none());
    assert!(detect_tutor("Search your library for a card.").is_some());
    assert!(detect_tutor("Search your library for a basic land card.").is_none());
}
