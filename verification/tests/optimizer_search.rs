use mtg::color::{Color, ColorSet};
use mtg::data::card::{legality_to_u8, rarity_to_u8, ArchivedCard, ArchivedCardFace, Layout, LEGALITY_SLOTS};
use mtg::data::catalog::{Catalog, FORMAT_VERSION};
use mtg::deck::deck::{Deck, DeckEntry, Zone};
use mtg::deck::rules::FormatRules;
use mtg::format::{Format, Legality, Rarity};
use mtg::mana::ManaCost;
use mtg::optimizer::profile::CardIndex;
use mtg::optimizer::rng::Rng;
use mtg::optimizer::search::{
    candidate_cards, candidate_identity, game_changer_allowance, game_changers_in, net_changes, propose_swap, CardPool,
};

fn card(name: &str, type_line: &str, mana_cost: &str, produced: &str) -> ArchivedCard {
    let cost = ManaCost::parse(mana_cost).unwrap_or_default();
    let produced_set = ColorSet::from_symbols(produced);
    ArchivedCard {
        oracle_id: format!("o-{name}"),
        name: name.to_owned(),
        mana_cost: mana_cost.to_owned(),
        mana_value: cost.mana_value(),
        mana_value_halves: 2 * cost.mana_value(),
        colors: cost.colors().bits(),
        color_identity: cost.colors().union(produced_set).bits(),
        produced_mana: produced_set.bits(),
        type_line: type_line.to_owned(),
        oracle_text: String::new(),
        power: None,
        toughness: None,
        loyalty: None,
        keywords: Vec::new(),
        legalities: vec![legality_to_u8(Legality::Legal); LEGALITY_SLOTS],
        rarity: rarity_to_u8(Rarity::Common),
        edhrec_rank: None,
        game_changer: false,
        tags: 0,
        reserved: false,
        layout: Layout::Normal,
        faces: vec![ArchivedCardFace {
            name: name.to_owned(),
            mana_cost: mana_cost.to_owned(),
            type_line: type_line.to_owned(),
            oracle_text: String::new(),
            power: None,
            toughness: None,
            loyalty: None,
            colors: cost.colors().bits(),
        }],
        set_code: "tst".to_owned(),
        collector_number: "1".to_owned(),
        released_at: "2026-01-01".to_owned(),
        image_id: String::new(),
    }
}

fn build(cards: Vec<ArchivedCard>) -> Catalog {
    match Catalog::from_parts(FORMAT_VERSION, String::new(), cards) {
        Ok(c) => c,
        Err(e) => panic!("{}", e.to_string()),
    }
}

fn catalog() -> Catalog {
    build(vec![
        card("Island", "Basic Land — Island", "", "U"),
        card("Swamp", "Basic Land — Swamp", "", "B"),
        card("Forest", "Basic Land — Forest", "", "G"),
        card("Counterspell", "Instant", "{U}{U}", ""),
        card("Doom Blade", "Instant", "{1}{B}", ""),
        card("Ponder", "Sorcery", "{U}", ""),
        card("Divination", "Sorcery", "{2}{U}", ""),
        card("Colossus", "Creature — Golem", "{7}", ""),
    ])
}

fn bracket_catalog() -> Catalog {
    let mut island = card("Island", "Basic Land — Island", "", "U");
    island.edhrec_rank = Some(1);
    let mut plain_spell = card("Ponder", "Sorcery", "{U}", "");
    plain_spell.edhrec_rank = Some(2);

    let mut cards = vec![island, plain_spell];
    for name in ["Rhystic Study", "Cyclonic Rift", "Mystical Tutor", "Fierce Guardianship"] {
        let mut changer = card(name, "Instant", "{U}", "");
        changer.game_changer = true;
        changer.edhrec_rank = Some(3);
        cards.push(changer);
    }
    build(cards)
}

fn deck_of(entries: &[(&str, u32)]) -> Deck {
    let mut deck = Deck::new("Test", Format::Modern);
    for (name, quantity) in entries {
        deck.add(DeckEntry::new(&format!("o-{name}"), name, *quantity));
    }
    deck
}

/// The candidate list by name, which is what the colour and popularity rules act on.
fn candidates_for(deck: &Deck, index: &CardIndex<'_>, only_played_cards: bool) -> Vec<String> {
    let rules = FormatRules::for_format(deck.format);
    let identity = candidate_identity(deck, index, &rules);
    candidate_cards(deck, index, &CardPool::Everything, only_played_cards, 8_000, identity)
        .into_iter()
        .map(|(_, name)| name)
        .collect()
}

#[test]
fn the_allowance_matches_what_assess_would_say() {
    assert_eq!(game_changer_allowance(Some(1)), Some(0));
    assert_eq!(game_changer_allowance(Some(2)), Some(0));
    assert_eq!(game_changer_allowance(Some(3)), Some(3));
    assert_eq!(game_changer_allowance(Some(4)), None, "bracket 4 is unbounded");
    assert_eq!(game_changer_allowance(None), None, "and so is asking for nothing");
}

#[test]
fn an_unconstrained_search_is_free_to_use_game_changers() {
    let catalog = bracket_catalog();
    let index = CardIndex::build(&catalog);
    let deck = deck_of(&[("Island", 40), ("Ponder", 20)]);

    let ceiling = game_changer_allowance(None).map(|allowance| allowance.max(game_changers_in(&deck, &index)));
    assert_eq!(ceiling, None);
}

#[test]
fn game_changers_are_counted_per_copy_and_ignore_the_sideboard() {
    let catalog = bracket_catalog();
    let index = CardIndex::build(&catalog);

    let mut deck = deck_of(&[("Rhystic Study", 3)]);
    let mut benched = DeckEntry::new("o-Cyclonic Rift", "Cyclonic Rift", 5);
    benched.zone = Zone::Sideboard;
    deck.add(benched);

    assert_eq!(game_changers_in(&deck, &index), 3);
}

#[test]
fn basic_lands_survive_the_popularity_filter() {
    let catalog = catalog();
    let index = CardIndex::build(&catalog);
    let deck = deck_of(&[("Island", 4), ("Swamp", 4), ("Forest", 4), ("Colossus", 48)]);

    let names = candidates_for(&deck, &index, true);

    for basic in ["Island", "Swamp", "Forest"] {
        assert!(names.iter().any(|name| name == basic), "{basic} was filtered out: {names:?}");
    }
    assert_eq!(names.len(), 3, "{names:?}");
}

#[test]
fn the_search_stays_inside_the_decks_own_colours() {
    let catalog = catalog();
    let index = CardIndex::build(&catalog);
    let deck = deck_of(&[("Island", 20), ("Counterspell", 40)]);

    let names = candidates_for(&deck, &index, false);

    assert!(names.iter().any(|name| name == "Ponder"), "{names:?}");
    assert!(names.iter().any(|name| name == "Colossus"), "colourless is always allowed");
    for off_colour in ["Swamp", "Forest", "Doom Blade"] {
        assert!(!names.iter().any(|name| name == off_colour), "{off_colour} is outside the deck's colours: {names:?}");
    }
}

#[test]
fn a_colourless_deck_is_not_locked_out_of_every_colour() {
    let catalog = catalog();
    let index = CardIndex::build(&catalog);
    let deck = deck_of(&[("Colossus", 60)]);

    let names = candidates_for(&deck, &index, false);
    assert!(names.iter().any(|name| name == "Swamp"), "{names:?}");
    assert!(names.iter().any(|name| name == "Counterspell"), "{names:?}");
}

#[test]
fn a_commanders_identity_still_wins_over_the_decks_own_cards() {
    let catalog = catalog();
    let index = CardIndex::build(&catalog);
    let rules = FormatRules::for_format(Format::Commander);

    let mut deck = Deck::new("EDH", Format::Commander);
    let mut commander = DeckEntry::new("o-Ponder", "Ponder", 1);
    commander.zone = Zone::Command;
    deck.add(commander);
    deck.add(DeckEntry::new("o-Swamp", "Swamp", 40));

    let identity = candidate_identity(&deck, &index, &rules).expect("an identity");
    assert!(identity.contains(Color::Blue));
    assert!(!identity.contains(Color::Black), "the Swamps in the deck must not widen the commander's identity");
}

#[test]
fn a_restricted_pool_is_respected() {
    let catalog = catalog();
    let index = CardIndex::build(&catalog);
    let deck = deck_of(&[("Island", 10), ("Colossus", 50)]);
    let rules = FormatRules::for_format(deck.format);
    let identity = candidate_identity(&deck, &index, &rules);
    let pool = CardPool::Only { oracle_ids: vec!["o-Island".to_owned(), "o-Ponder".to_owned()] };
    let found = candidate_cards(&deck, &index, &pool, false, 8_000, identity);
    let ids: Vec<&str> = found.iter().map(|(id, _)| id.as_str()).collect();
    assert_eq!(ids, ["o-Island", "o-Ponder"]);
    let empty = CardPool::Only { oracle_ids: Vec::new() };
    assert!(candidate_cards(&deck, &index, &empty, false, 8_000, identity).is_empty());
}

#[test]
fn candidates_come_sorted_by_oracle_id() {
    let catalog = catalog();
    let index = CardIndex::build(&catalog);
    let deck = deck_of(&[("Colossus", 60)]);
    let found = candidate_cards(&deck, &index, &CardPool::Everything, false, 8_000, None);
    let ids: Vec<&str> = found.iter().map(|(id, _)| id.as_str()).collect();
    let mut sorted = ids.clone();
    sorted.sort_unstable();
    assert_eq!(ids, sorted);
    assert_eq!(ids.len(), 8);
}

#[test]
fn a_proposed_swap_never_trades_a_card_for_itself_or_breaks_the_copy_limit() {
    let catalog = catalog();
    let index = CardIndex::build(&catalog);
    let deck = deck_of(&[("Island", 24), ("Counterspell", 4), ("Ponder", 32)]);
    let rules = FormatRules::for_format(deck.format);
    let candidates = candidate_cards(&deck, &index, &CardPool::Everything, false, 8_000, None);
    let mut rng = Rng::new(9);
    for _ in 0..200 {
        if let Some((removed, (added, _))) = propose_swap(&deck, &candidates, &index, &rules, &mut rng) {
            assert_ne!(removed.oracle_id, added);
            assert_ne!(added, "o-Counterspell", "already at four copies");
            assert_eq!(removed.zone, Zone::Main);
        }
    }
}

#[test]
fn the_net_changes_between_two_decks_are_listed_copy_by_copy() {
    let original = deck_of(&[("Island", 10), ("Colossus", 50)]);
    let improved = deck_of(&[("Island", 12), ("Colossus", 47), ("Ponder", 1)]);
    let (removals, additions) = net_changes(&original, &improved);
    assert_eq!(removals, vec![("o-Colossus".to_owned(), "Colossus".to_owned()); 3]);
    assert_eq!(
        additions,
        vec![
            ("o-Island".to_owned(), "Island".to_owned()),
            ("o-Island".to_owned(), "Island".to_owned()),
            ("o-Ponder".to_owned(), "Ponder".to_owned()),
        ]
    );
}

#[test]
fn a_pool_allows_what_it_lists() {
    let pool = CardPool::Only { oracle_ids: vec!["a".to_owned()] };
    assert!(pool.allows("a"));
    assert!(!pool.allows("b"));
    assert!(CardPool::Everything.allows("b"));
}
