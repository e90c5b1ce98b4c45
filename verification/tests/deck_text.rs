use mtg::data::card::{legality_to_u8, rarity_to_u8, ArchivedCard, ArchivedCardFace, Layout, LEGALITY_SLOTS};
use mtg::data::catalog::{Catalog, FORMAT_VERSION};
use mtg::deck::deck::{Deck, DeckEntry, Zone};
use mtg::deck::text::{export, import, split_printing, ExportStyle, ImportProblem, ImportResult};
use mtg::format::{Format, Legality, Rarity};

fn card(name: &str, faces: &[&str]) -> ArchivedCard {
    let face_names: Vec<&str> = if faces.is_empty() { vec![name] } else { faces.to_vec() };
    ArchivedCard {
        oracle_id: format!("oracle-{name}"),
        name: name.to_owned(),
        mana_cost: String::new(),
        mana_value: 0,
        mana_value_halves: 0,
        colors: 0,
        color_identity: 0,
        produced_mana: 0,
        type_line: "Instant".to_owned(),
        oracle_text: String::new(),
        power: None,
        toughness: None,
        loyalty: None,
        keywords: Vec::new(),
        legalities: vec![legality_to_u8(Legality::Legal); LEGALITY_SLOTS],
        rarity: rarity_to_u8(Rarity::Common),
        edhrec_rank: None,
        game_changer: false,
        tags: 0,
        reserved: false,
        layout: if faces.len() > 1 { Layout::Split } else { Layout::Normal },
        faces: face_names
            .into_iter()
            .map(|face_name| ArchivedCardFace {
                name: face_name.to_owned(),
                mana_cost: String::new(),
                type_line: "Instant".to_owned(),
                oracle_text: String::new(),
                power: None,
                toughness: None,
                loyalty: None,
                colors: 0,
            })
            .collect(),
        set_code: "tst".to_owned(),
        collector_number: "1".to_owned(),
        released_at: "2026-01-01".to_owned(),
        image_id: String::new(),
    }
}

fn catalog() -> Catalog {
    let cards = vec![
        card("Lightning Bolt", &[]),
        card("Mountain", &[]),
        card("Pyroblast", &[]),
        card("Krenko, Mob Boss", &[]),
        card("Bonecrusher Giant // Stomp", &["Bonecrusher Giant", "Stomp"]),
        card("Fire // Ice", &["Fire", "Ice"]),
        card("Start // Fire", &["Start", "Fire"]),
        card("Lim-Dûl's Vault", &[]),
    ];
    match Catalog::from_parts(FORMAT_VERSION, String::new(), cards) {
        Ok(c) => c,
        Err(e) => panic!("{}", e.to_string()),
    }
}

fn import_text(text: &str) -> ImportResult {
    import(text, "Imported", Format::Modern, &catalog())
}

#[test]
fn plain_list_with_no_headers_is_all_main_deck() {
    let result = import_text("4 Lightning Bolt\n20 Mountain\n");
    assert!(result.is_complete(), "{:?}", result.problems);
    assert_eq!(result.deck.count_in(Zone::Main), 24);
    assert_eq!(result.deck.count_in(Zone::Sideboard), 0);
}

#[test]
fn the_x_suffix_is_accepted() {
    let result = import_text("4x Lightning Bolt\n2X Mountain\n");
    assert!(result.is_complete(), "{:?}", result.problems);
    assert_eq!(result.deck.count_in(Zone::Main), 6);
}

#[test]
fn arena_sections_and_printings() {
    let result =
        import_text("Deck\n4 Lightning Bolt (M21) 137\n20 Mountain (M21) 275\n\nSideboard\n2 Pyroblast (ICE) 213\n");
    assert!(result.is_complete(), "{:?}", result.problems);
    assert_eq!(result.deck.count_in(Zone::Main), 24);
    assert_eq!(result.deck.count_in(Zone::Sideboard), 2);

    let main = result.deck.entries_in(Zone::Main);
    let bolt = main.iter().find(|e| e.name == "Lightning Bolt").expect("bolt");
    assert_eq!(bolt.set_code, "m21");
    assert_eq!(bolt.collector_number, "137");
}

#[test]
fn mtgo_marks_the_sideboard_per_line() {
    let result = import_text("4 Lightning Bolt\nSB: 2 Pyroblast\nsb: 1 Mountain\n");
    assert!(result.is_complete(), "{:?}", result.problems);
    assert_eq!(result.deck.count_in(Zone::Main), 4);
    assert_eq!(result.deck.count_in(Zone::Sideboard), 3);
}

#[test]
fn commander_sections_land_in_the_command_zone() {
    let result = import_text("Commander\n1 Krenko, Mob Boss\n\nDeck\n99 Mountain\n");
    assert!(result.is_complete(), "{:?}", result.problems);
    assert_eq!(result.deck.count_in(Zone::Command), 1);
    assert_eq!(result.deck.count_in(Zone::Main), 99);
}

#[test]
fn comments_are_ignored_but_commented_headers_are_not() {
    let result = import_text("// my burn deck\n4 Lightning Bolt\n// Sideboard\n2 Pyroblast\n");
    assert!(result.is_complete(), "{:?}", result.problems);
    assert_eq!(result.deck.count_in(Zone::Main), 4);
    assert_eq!(result.deck.count_in(Zone::Sideboard), 2);
}

#[test]
fn foil_markers_are_stripped_from_the_name() {
    let result = import_text("1 Lightning Bolt *F*\n1 Mountain *E*\n");
    assert!(result.is_complete(), "{:?}", result.problems);
    assert_eq!(result.deck.count_in(Zone::Main), 2);
}

#[test]
fn multi_part_cards_are_accepted_by_their_front_face() {
    let result = import_text("4 Bonecrusher Giant\n");
    assert!(result.is_complete(), "{:?}", result.problems);
    assert_eq!(result.deck.entries[0].name, "Bonecrusher Giant // Stomp", "stored under the full name");
}

#[test]
fn accents_and_apostrophes_do_not_have_to_match() {
    let result = import_text("1 Lim-Dul's Vault\n");
    assert!(result.is_complete(), "{:?}", result.problems);
    assert_eq!(result.deck.entries[0].name, "Lim-Dûl's Vault");
}

#[test]
fn an_unknown_card_is_reported_with_its_line() {
    let result = import_text("4 Lightning Bolt\n2 Not A Real Card\n");
    assert_eq!(result.problems, [ImportProblem::UnknownCard { line: 2, name: "Not A Real Card".to_owned() }]);
    // The rest of the list still imported.
    assert_eq!(result.deck.count_in(Zone::Main), 4);
}

#[test]
fn an_ambiguous_face_name_is_reported_rather_than_guessed() {
    let result = import_text("2 Fire\n");
    match &result.problems[..] {
        [ImportProblem::AmbiguousCard { line, name, candidates }] => {
            assert_eq!(*line, 1);
            assert_eq!(name, "Fire");
            assert_eq!(candidates.len(), 2);
        },
        other => panic!("expected ambiguity, got {other:?}"),
    }
    assert!(result.deck.is_empty(), "nothing guessed into the deck");
}

#[test]
fn a_line_that_makes_no_sense_is_reported_not_dropped() {
    let result = import_text("4 Lightning Bolt\nsome stray text\n");
    assert_eq!(
        result.problems,
        [ImportProblem::UnrecognizedLine { line: 2, text: "some stray text".to_owned() }]
    );
}

#[test]
fn parenthesised_card_names_are_not_mistaken_for_a_printing() {
    let (name, set, number) = split_printing("Erase (Not the Urza's Legacy One)");
    assert_eq!(name, "Erase (Not the Urza's Legacy One)");
    assert!(set.is_empty());
    assert!(number.is_empty());

    let (name, set, number) = split_printing("Lightning Bolt (M21) 137");
    assert_eq!(name, "Lightning Bolt");
    assert_eq!(set, "m21");
    assert_eq!(number, "137");
}

#[test]
fn quantities_and_names_survive_odd_spacing() {
    let result = import_text("   4    Lightning Bolt   \n\t2\tMountain\n");
    assert!(result.is_complete(), "{:?}", result.problems);
    assert_eq!(result.deck.count_in(Zone::Main), 6);
}

fn sample_deck() -> Deck {
    let mut deck = Deck::new("Krenko", Format::Commander);
    deck.add(
        DeckEntry::new("oracle-Krenko, Mob Boss", "Krenko, Mob Boss", 1)
            .in_zone(Zone::Command)
            .printed_as("m19", "149"),
    );
    deck.add(DeckEntry::new("oracle-Mountain", "Mountain", 30));
    deck.add(DeckEntry::new("oracle-Pyroblast", "Pyroblast", 2).in_zone(Zone::Sideboard));
    deck
}

#[test]
fn plain_export_uses_section_headers() {
    assert_eq!(
        export(&sample_deck(), ExportStyle::Plain),
        "Commander\n1 Krenko, Mob Boss\n\nDeck\n30 Mountain\n\nSideboard\n2 Pyroblast\n"
    );
}

#[test]
fn arena_export_includes_the_printing_when_known() {
    let text = export(&sample_deck(), ExportStyle::Arena);
    assert!(text.contains("1 Krenko, Mob Boss (M19) 149"), "{text}");
    assert!(text.contains("30 Mountain\n"), "{text}");
}

#[test]
fn mtgo_export_is_flat_with_sb_prefixes() {
    assert_eq!(export(&sample_deck(), ExportStyle::Mtgo), "1 Krenko, Mob Boss\n30 Mountain\nSB: 2 Pyroblast\n");
}

#[test]
fn export_and_import_round_trip() {
    let original = import_text("Deck\n4 Lightning Bolt\n20 Mountain\n\nSideboard\n2 Pyroblast\n");
    assert!(original.is_complete());

    for style in [ExportStyle::Plain, ExportStyle::Arena, ExportStyle::Mtgo] {
        let text = export(&original.deck, style);
        let back = import_text(&text);
        assert!(back.is_complete(), "{style:?}: {:?}", back.problems);
        assert_eq!(back.deck.count_in(Zone::Main), original.deck.count_in(Zone::Main), "{style:?}");
        assert_eq!(back.deck.count_in(Zone::Sideboard), original.deck.count_in(Zone::Sideboard), "{style:?}");
    }
}

#[test]
fn import_problems_read_as_sentences() {
    let problem = ImportProblem::UnknownCard { line: 3, name: "Foo".to_owned() };
    assert_eq!(problem.to_string(), "line 3: no card named \"Foo\"");
}

#[test]
fn an_mtgo_export_reads_back_with_the_commander_in_the_main_deck() {
    let original = import_text("Commander\n1 Krenko, Mob Boss\n\nDeck\n60 Mountain\n4 Lightning Bolt\n\nSideboard\n2 Pyroblast\n");
    assert!(original.is_complete(), "{:?}", original.problems);
    let text = export(&original.deck, ExportStyle::Mtgo);
    assert_eq!(text, "1 Krenko, Mob Boss\n60 Mountain\n4 Lightning Bolt\nSB: 2 Pyroblast\n");
    let back = import_text(&text);
    assert!(back.is_complete(), "{:?}", back.problems);
    assert_eq!(back.deck.count_in(Zone::Main), 65);
    assert_eq!(back.deck.count_in(Zone::Sideboard), 2);
    assert_eq!(back.deck.count_in(Zone::Command), 0);
}

#[test]
fn a_sectioned_export_reads_back_zone_by_zone() {
    let original = import_text(
        "Commander\n1 Krenko, Mob Boss\n\nDeck\n4 Lightning Bolt (m21) 137\n60 Mountain\n\nSideboard\n2 Pyroblast (ice) 212\n",
    );
    assert!(original.is_complete(), "{:?}", original.problems);
    let arena = export(&original.deck, ExportStyle::Arena);
    assert!(arena.contains("4 Lightning Bolt (M21) 137\n"), "{arena}");
    for style in [ExportStyle::Plain, ExportStyle::Arena] {
        let text = export(&original.deck, style);
        let back = import_text(&text);
        assert!(back.is_complete(), "{style:?}: {:?}", back.problems);
        assert_eq!(back.deck.count_in(Zone::Command), 1, "{style:?}");
        assert_eq!(back.deck.count_in(Zone::Main), 64, "{style:?}");
        assert_eq!(back.deck.count_in(Zone::Sideboard), 2, "{style:?}");
    }
}

#[test]
fn a_line_opening_on_an_accented_letter_is_read_like_any_other() {
    let result = import_text("1 Æther Vial\n4 Lightning Bolt\n");
    assert_eq!(result.deck.count_in(Zone::Main), 4);
    assert_eq!(result.problems.len(), 1);
    assert!(matches!(
        &result.problems[0],
        ImportProblem::UnknownCard { line: 1, name } if name == "Æther Vial"
    ));
}
