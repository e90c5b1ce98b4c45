use mtg::color::ColorSet;
use mtg::data::card::{legality_to_u8, rarity_to_u8, ArchivedCard, ArchivedCardFace, Layout, LEGALITY_SLOTS};
use mtg::data::catalog::{Catalog, FORMAT_VERSION};
use mtg::deck::deck::{Deck, DeckEntry, Zone};
use mtg::deck::legality::{check, Violation};
use mtg::format::{Format, Legality, Rarity};

struct Builder(ArchivedCard);

impl Builder {
    fn new(name: &str) -> Builder {
        Builder(ArchivedCard {
            oracle_id: format!("oracle-{name}"),
            name: name.to_owned(),
            mana_cost: String::new(),
            mana_value: 0,
            mana_value_halves: 0,
            colors: 0,
            color_identity: 0,
            produced_mana: 0,
            type_line: "Instant".to_owned(),
            oracle_text: String::new(),
            power: None,
            toughness: None,
            loyalty: None,
            keywords: Vec::new(),
            legalities: vec![legality_to_u8(Legality::Legal); LEGALITY_SLOTS],
            rarity: rarity_to_u8(Rarity::Common),
            edhrec_rank: None,
            game_changer: false,
            tags: 0,
            reserved: false,
            layout: Layout::Normal,
            faces: Vec::new(),
            set_code: "tst".to_owned(),
            collector_number: "1".to_owned(),
            released_at: "2026-01-01".to_owned(),
            image_id: String::new(),
        })
    }

    fn types(mut self, type_line: &str) -> Builder {
        self.0.type_line = type_line.to_owned();
        self
    }

    fn text(mut self, text: &str) -> Builder {
        self.0.oracle_text = text.to_owned();
        self
    }

    fn identity(mut self, symbols: &str) -> Builder {
        self.0.color_identity = ColorSet::from_symbols(symbols).bits();
        self
    }

    fn legality(mut self, format: Format, legality: Legality) -> Builder {
        self.0.legalities[format.index()] = legality_to_u8(legality);
        self
    }

    fn build(mut self) -> ArchivedCard {
        self.0.faces.push(ArchivedCardFace {
            name: self.0.name.clone(),
            mana_cost: self.0.mana_cost.clone(),
            type_line: self.0.type_line.clone(),
            oracle_text: self.0.oracle_text.clone(),
            power: None,
            toughness: None,
            loyalty: None,
            colors: self.0.colors,
        });
        self.0
    }
}

fn catalog(cards: Vec<ArchivedCard>) -> Catalog {
    match Catalog::from_parts(FORMAT_VERSION, String::new(), cards) {
        Ok(c) => c,
        Err(e) => panic!("{}", e.to_string()),
    }
}

fn sample_catalog() -> Catalog {
    catalog(vec![
        Builder::new("Island").types("Basic Land — Island").build(),
        Builder::new("Lightning Bolt").identity("R").build(),
        Builder::new("Counterspell").identity("U").build(),
        Builder::new("Krenko, Mob Boss").types("Legendary Creature — Goblin Warrior").identity("R").build(),
        Builder::new("Sol Ring")
            .types("Artifact")
            .legality(Format::Modern, Legality::Banned)
            .legality(Format::Vintage, Legality::Restricted)
            .build(),
        Builder::new("Relentless Rats")
            .types("Creature — Rat")
            .identity("B")
            .text("A deck can have any number of cards named Relentless Rats.")
            .build(),
        Builder::new("Ancestral Recall").identity("U").legality(Format::Modern, Legality::NotLegal).build(),
    ])
}

fn oracle(name: &str) -> String {
    format!("oracle-{name}")
}

fn modern_deck() -> Deck {
    let mut deck = Deck::new("Test", Format::Modern);
    deck.add(DeckEntry::new(&oracle("Island"), "Island", 56));
    deck.add(DeckEntry::new(&oracle("Counterspell"), "Counterspell", 4));
    deck
}

#[test]
fn a_legal_deck_reports_no_violations() {
    let report = check(&modern_deck(), &sample_catalog());
    assert!(report.is_legal(), "{:?}", report.violations);
    assert_eq!(report.main_count, 60);
}

#[test]
fn a_short_deck_is_reported_with_numbers() {
    let mut deck = Deck::new("Test", Format::Modern);
    deck.add(DeckEntry::new(&oracle("Island"), "Island", 55));

    let report = check(&deck, &sample_catalog());
    assert_eq!(report.violations, [Violation::DeckTooSmall { found: 55, required: 60 }]);
}

#[test]
fn sixty_card_formats_have_no_maximum() {
    let mut deck = modern_deck();
    deck.add(DeckEntry::new(&oracle("Island"), "Island", 20));
    assert!(check(&deck, &sample_catalog()).is_legal());
}

#[test]
fn basic_lands_ignore_the_copy_limit() {
    let report = check(&modern_deck(), &sample_catalog());
    assert!(!report.violations.iter().any(|v| matches!(v, Violation::TooManyCopies { .. })));
}

#[test]
fn too_many_copies_of_a_normal_card() {
    let mut deck = Deck::new("Test", Format::Modern);
    deck.add(DeckEntry::new(&oracle("Island"), "Island", 55));
    deck.add(DeckEntry::new(&oracle("Lightning Bolt"), "Lightning Bolt", 5));

    let report = check(&deck, &sample_catalog());
    assert!(report.violations.contains(&Violation::TooManyCopies {
        name: "Lightning Bolt".to_owned(),
        found: 5,
        allowed: 4,
    }));
}

#[test]
fn cards_that_grant_their_own_allowance_are_exempt() {
    let mut deck = Deck::new("Test", Format::Modern);
    deck.add(DeckEntry::new(&oracle("Island"), "Island", 20));
    deck.add(DeckEntry::new(&oracle("Relentless Rats"), "Relentless Rats", 40));

    let report = check(&deck, &sample_catalog());
    assert!(report.is_legal(), "{:?}", report.violations);
}

#[test]
fn copies_span_the_main_deck_and_sideboard() {
    let mut deck = modern_deck();
    deck.add(DeckEntry::new(&oracle("Lightning Bolt"), "Lightning Bolt", 3));
    deck.add(DeckEntry::new(&oracle("Lightning Bolt"), "Lightning Bolt", 3).in_zone(Zone::Sideboard));

    let report = check(&deck, &sample_catalog());
    assert!(report.violations.contains(&Violation::TooManyCopies {
        name: "Lightning Bolt".to_owned(),
        found: 6,
        allowed: 4,
    }));
    assert_eq!(report.violations.iter().filter(|v| matches!(v, Violation::TooManyCopies { .. })).count(), 1);
}

#[test]
fn banned_and_absent_cards_are_told_apart() {
    let mut deck = modern_deck();
    deck.add(DeckEntry::new(&oracle("Sol Ring"), "Sol Ring", 1));
    deck.add(DeckEntry::new(&oracle("Ancestral Recall"), "Ancestral Recall", 1));

    let report = check(&deck, &sample_catalog());
    assert!(report.violations.contains(&Violation::Banned { name: "Sol Ring".to_owned() }));
    assert!(report.violations.contains(&Violation::NotInFormat { name: "Ancestral Recall".to_owned() }));
}

#[test]
fn restricted_cards_allow_exactly_one() {
    let mut one = Deck::new("Test", Format::Vintage);
    one.add(DeckEntry::new(&oracle("Island"), "Island", 59));
    one.add(DeckEntry::new(&oracle("Sol Ring"), "Sol Ring", 1));
    assert!(check(&one, &sample_catalog()).is_legal());

    let mut two = Deck::new("Test", Format::Vintage);
    two.add(DeckEntry::new(&oracle("Island"), "Island", 58));
    two.add(DeckEntry::new(&oracle("Sol Ring"), "Sol Ring", 2));
    assert!(check(&two, &sample_catalog())
        .violations
        .contains(&Violation::Restricted { name: "Sol Ring".to_owned(), found: 2 }));
}

#[test]
fn sideboard_limit() {
    let mut deck = modern_deck();
    deck.add(DeckEntry::new(&oracle("Island"), "Island", 16).in_zone(Zone::Sideboard));

    let report = check(&deck, &sample_catalog());
    assert!(report.violations.contains(&Violation::SideboardTooLarge { found: 16, allowed: 15 }));
}

fn commander_deck() -> Deck {
    let mut deck = Deck::new("Krenko", Format::Commander);
    deck.add(DeckEntry::new(&oracle("Krenko, Mob Boss"), "Krenko, Mob Boss", 1).in_zone(Zone::Command));
    deck.add(DeckEntry::new(&oracle("Island"), "Island", 99));
    deck
}

#[test]
fn the_commander_counts_towards_the_hundred() {
    let report = check(&commander_deck(), &sample_catalog());
    assert!(report.is_legal(), "{:?}", report.violations);
    assert_eq!(report.main_count, 99);
    assert_eq!(report.command_count, 1);
}

#[test]
fn a_missing_commander_is_reported() {
    let mut deck = Deck::new("Nobody", Format::Commander);
    deck.add(DeckEntry::new(&oracle("Island"), "Island", 100));

    let report = check(&deck, &sample_catalog());
    assert!(report.violations.contains(&Violation::CommandZoneSize { found: 0, minimum: 1, maximum: 2 }));
}

#[test]
fn a_non_legendary_card_cannot_be_the_commander() {
    let mut deck = Deck::new("Bolt", Format::Commander);
    deck.add(DeckEntry::new(&oracle("Lightning Bolt"), "Lightning Bolt", 1).in_zone(Zone::Command));
    deck.add(DeckEntry::new(&oracle("Island"), "Island", 99));

    let report = check(&deck, &sample_catalog());
    assert!(report.violations.contains(&Violation::NotAValidCommander { name: "Lightning Bolt".to_owned() }));
}

#[test]
fn colour_identity_is_enforced_against_the_commander() {
    let mut deck = commander_deck();
    deck.remove(&oracle("Island"), Zone::Main, 1);
    deck.add(DeckEntry::new(&oracle("Counterspell"), "Counterspell", 1));

    let report = check(&deck, &sample_catalog());
    assert!(report.violations.contains(&Violation::OutsideColorIdentity {
        name: "Counterspell".to_owned(),
        card_identity: "U".to_owned(),
        commander_identity: "R".to_owned(),
    }));
    assert_eq!(report.commander_identity, "R");
}

#[test]
fn colourless_cards_fit_any_commander() {
    let mut deck = commander_deck();
    deck.remove(&oracle("Island"), Zone::Main, 1);
    deck.add(DeckEntry::new(&oracle("Sol Ring"), "Sol Ring", 1));

    let report = check(&deck, &sample_catalog());
    assert!(report.is_legal(), "{:?}", report.violations);
}

#[test]
fn commander_is_singleton_but_basics_are_still_unlimited() {
    let report = check(&commander_deck(), &sample_catalog());
    assert!(report.is_legal(), "99 Islands must be fine");
}

#[test]
fn a_command_zone_in_a_format_without_one_is_reported() {
    let mut deck = modern_deck();
    deck.add(DeckEntry::new(&oracle("Krenko, Mob Boss"), "Krenko", 1).in_zone(Zone::Command));

    let report = check(&deck, &sample_catalog());
    assert!(report.violations.contains(&Violation::CommandZoneNotAllowed { found: 1 }));
}

#[test]
fn an_unknown_card_is_reported_once_and_does_not_cascade() {
    let mut deck = modern_deck();
    deck.add(DeckEntry::new("oracle-nonexistent", "Ghost Card", 4));
    deck.add(DeckEntry::new("oracle-nonexistent", "Ghost Card", 2).in_zone(Zone::Sideboard));

    let report = check(&deck, &sample_catalog());
    let unknown: Vec<&Violation> =
        report.violations.iter().filter(|v| matches!(v, Violation::UnknownCard { .. })).collect();
    assert_eq!(unknown.len(), 1);
    assert_eq!(report.violations.len(), 1, "unexpected extra: {:?}", report.violations);
}

#[test]
fn approximate_rules_are_flagged_in_the_report() {
    let mut deck = Deck::new("Test", Format::Tlr);
    deck.add(DeckEntry::new(&oracle("Island"), "Island", 100));
    assert!(check(&deck, &sample_catalog()).approximate_rules);

    assert!(!check(&modern_deck(), &sample_catalog()).approximate_rules);
}

#[test]
fn violations_read_as_sentences() {
    assert_eq!(Violation::Banned { name: "Sol Ring".to_owned() }.to_string(), "Sol Ring is banned");
    assert_eq!(
        Violation::DeckTooSmall { found: 55, required: 60 }.to_string(),
        "the deck has 55 cards, 60 are required"
    );
    assert_eq!(
        Violation::CommandZoneSize { found: 0, minimum: 1, maximum: 1 }.to_string(),
        "the command zone has 0 cards, 1 is required"
    );
}
