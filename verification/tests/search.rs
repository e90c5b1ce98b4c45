use mtg::color::ColorSet;
use mtg::data::card::{legality_to_u8, rarity_to_u8, ArchivedCard, ArchivedCardFace, Layout, LEGALITY_SLOTS};
use mtg::data::catalog::{Catalog, FORMAT_VERSION};
use mtg::data::search::{contains_ignore_ascii_case, Query};
use mtg::format::{Format, Legality, Rarity};
use mtg::CardId;

struct Builder(ArchivedCard);

impl Builder {
    fn new(name: &str) -> Builder {
        Builder(ArchivedCard {
            oracle_id: format!("oracle-{name}"),
            name: name.to_owned(),
            mana_cost: String::new(),
            mana_value: 0,
            mana_value_halves: 0,
            colors: 0,
            color_identity: 0,
            produced_mana: 0,
            type_line: "Instant".to_owned(),
            oracle_text: String::new(),
            power: None,
            toughness: None,
            loyalty: None,
            keywords: Vec::new(),
            legalities: vec![legality_to_u8(Legality::NotLegal); LEGALITY_SLOTS],
            rarity: rarity_to_u8(Rarity::Common),
            edhrec_rank: None,
            game_changer: false,
            tags: 0,
            reserved: false,
            layout: Layout::Normal,
            faces: Vec::new(),
            set_code: "tst".to_owned(),
            collector_number: "1".to_owned(),
            released_at: "2026-01-01".to_owned(),
            image_id: String::new(),
        })
    }

    fn types(mut self, type_line: &str) -> Builder {
        self.0.type_line = type_line.to_owned();
        self
    }

    fn text(mut self, text: &str) -> Builder {
        self.0.oracle_text = text.to_owned();
        self
    }

    fn colors(mut self, symbols: &str) -> Builder {
        let set = ColorSet::from_symbols(symbols);
        self.0.colors = set.bits();
        self.0.color_identity = set.bits();
        self
    }

    fn mana_value(mut self, value: u32) -> Builder {
        self.0.mana_value = value;
        self.0.mana_value_halves = value * 2;
        self
    }

    fn legal(mut self, format: Format) -> Builder {
        self.0.legalities[format.index()] = legality_to_u8(Legality::Legal);
        self
    }

    fn game_changer(mut self) -> Builder {
        self.0.game_changer = true;
        self
    }

    fn face(mut self, name: &str, text: &str) -> Builder {
        self.0.faces.push(ArchivedCardFace {
            name: name.to_owned(),
            mana_cost: String::new(),
            type_line: "Creature".to_owned(),
            oracle_text: text.to_owned(),
            power: None,
            toughness: None,
            loyalty: None,
            colors: 0,
        });
        self
    }

    fn build(mut self) -> ArchivedCard {
        if self.0.faces.is_empty() {
            self.0.faces.push(ArchivedCardFace {
                name: self.0.name.clone(),
                mana_cost: self.0.mana_cost.clone(),
                type_line: self.0.type_line.clone(),
                oracle_text: self.0.oracle_text.clone(),
                power: None,
                toughness: None,
                loyalty: None,
                colors: self.0.colors,
            });
        }
        self.0
    }
}

fn sample() -> Catalog {
    let cards = vec![
        Builder::new("Counterspell")
            .types("Instant")
            .text("Counter target spell.")
            .colors("U")
            .mana_value(2)
            .legal(Format::Modern)
            .legal(Format::Commander)
            .build(),
        Builder::new("Llanowar Elves")
            .types("Creature — Elf Druid")
            .text("{T}: Add {G}.")
            .colors("G")
            .mana_value(1)
            .legal(Format::Commander)
            .build(),
        Builder::new("Atraxa, Praetors' Voice")
            .types("Legendary Creature — Phyrexian Angel Horror")
            .text("Flying, vigilance, deathtouch, lifelink.")
            .colors("WUBG")
            .mana_value(4)
            .legal(Format::Commander)
            .build(),
        Builder::new("Mana Vault")
            .types("Artifact")
            .text("{T}: Add {C}{C}{C}.")
            .mana_value(1)
            .legal(Format::Commander)
            .game_changer()
            .build(),
        Builder::new("Delver of Secrets // Insectile Aberration")
            .types("Creature — Human Wizard")
            .colors("U")
            .mana_value(1)
            .legal(Format::Modern)
            .face("Delver of Secrets", "At the beginning of your upkeep, look at the top card.")
            .face("Insectile Aberration", "Flying")
            .build(),
    ];
    match Catalog::from_parts(FORMAT_VERSION, String::new(), cards) {
        Ok(catalog) => catalog,
        Err(e) => panic!("{}", e.to_string()),
    }
}

fn names(results: Vec<(CardId, &ArchivedCard)>) -> Vec<String> {
    results.into_iter().map(|(_, c)| c.name().to_owned()).collect()
}

#[test]
fn empty_query_matches_everything() {
    let catalog = sample();
    assert_eq!(Query::new().count(&catalog), catalog.len());
}

#[test]
fn text_search_is_case_insensitive() {
    let catalog = sample();
    for needle in ["counter target", "COUNTER TARGET", "Counter Target"] {
        assert_eq!(names(Query::new().text(needle).execute(&catalog)), ["Counterspell"]);
    }
}

#[test]
fn text_search_reaches_the_back_face() {
    let catalog = sample();
    let found = names(Query::new().text("flying").execute(&catalog));
    assert!(found.contains(&"Delver of Secrets // Insectile Aberration".to_owned()));
}

#[test]
fn type_filter_is_whole_word() {
    let catalog = sample();
    let creatures = names(Query::new().card_type("Creature").execute(&catalog));
    assert_eq!(creatures.len(), 3);

    let legends = names(Query::new().card_type("Legendary").card_type("Creature").execute(&catalog));
    assert_eq!(legends, ["Atraxa, Praetors' Voice"]);
}

#[test]
fn commander_identity_filter() {
    let catalog = sample();
    let playable = names(Query::new().identity_within(ColorSet::from_symbols("U")).execute(&catalog));
    assert!(playable.contains(&"Counterspell".to_owned()));
    assert!(playable.contains(&"Mana Vault".to_owned()), "colorless is always legal");
    assert!(!playable.contains(&"Llanowar Elves".to_owned()));
    assert!(!playable.contains(&"Atraxa, Praetors' Voice".to_owned()));
}

#[test]
fn exact_and_including_color_filters_differ() {
    let catalog = sample();

    let exactly_blue = names(Query::new().colors_exactly(ColorSet::from_symbols("U")).execute(&catalog));
    assert_eq!(exactly_blue.len(), 2);

    let including_blue = names(Query::new().colors_including(ColorSet::from_symbols("U")).execute(&catalog));
    assert!(including_blue.contains(&"Atraxa, Praetors' Voice".to_owned()));
}

#[test]
fn format_filter() {
    let catalog = sample();
    assert_eq!(Query::new().legal_in(Format::Commander).count(&catalog), 4);
    assert_eq!(Query::new().legal_in(Format::Modern).count(&catalog), 2);
    assert_eq!(Query::new().legal_in(Format::Standard).count(&catalog), 0);
}

#[test]
fn mana_value_range() {
    // Bounds are given in half points of mana value: two halves make one.
    let catalog = sample();
    assert_eq!(Query::new().mana_value_at_most(2).count(&catalog), 3, "three one-drops");
    assert_eq!(Query::new().mana_value_at_least(8).count(&catalog), 1);
}

#[test]
fn game_changer_filter_uses_the_scryfall_flag() {
    let catalog = sample();
    assert_eq!(names(Query::new().game_changer(true).execute(&catalog)), ["Mana Vault"]);
}

#[test]
fn commander_filter() {
    let catalog = sample();
    assert_eq!(names(Query::new().can_be_commander(true).execute(&catalog)), ["Atraxa, Praetors' Voice"]);
}

#[test]
fn filters_combine_with_and() {
    let catalog = sample();
    let results = names(
        Query::new()
            .card_type("Creature")
            .legal_in(Format::Commander)
            .identity_within(ColorSet::from_symbols("G"))
            .execute(&catalog),
    );
    assert_eq!(results, ["Llanowar Elves"]);
}

#[test]
fn limit_stops_early() {
    let catalog = sample();
    assert_eq!(Query::new().limit(2).execute(&catalog).len(), 2);
    // count ignores the limit, which is what makes "showing 2 of 5" possible.
    assert_eq!(Query::new().limit(2).count(&catalog), 5);
}

#[test]
fn case_insensitive_contains_handles_non_ascii_text() {
    assert!(contains_ignore_ascii_case("Créature — Elfe", "elfe"));
    assert!(!contains_ignore_ascii_case("Créature — Elfe", "creature"));
    assert!(contains_ignore_ascii_case("Créature — Elfe", "ature"));
}

#[test]
fn needle_longer_than_haystack_is_not_a_match() {
    assert!(!contains_ignore_ascii_case("ab", "abcdef"));
    assert!(contains_ignore_ascii_case("anything", ""));
}

#[test]
fn a_name_filter_reads_the_name_only() {
    let catalog = sample();
    assert_eq!(names(Query::new().name("vault").execute(&catalog)), ["Mana Vault"]);
    assert!(Query::new().name("target").execute(&catalog).is_empty());
}
