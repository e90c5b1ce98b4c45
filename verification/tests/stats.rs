use mtg::data::card::{legality_to_u8, rarity_to_u8, ArchivedCard, ArchivedCardFace, Layout, LEGALITY_SLOTS};
use mtg::data::catalog::{Catalog, FORMAT_VERSION};
use mtg::deck::deck::{Deck, DeckEntry, Zone};
use mtg::deck::stats::{stats, DeckStats, CURVE_CAP};
use mtg::format::{Format, Legality, Rarity};
use mtg::mana::ManaCost;

fn card(name: &str, type_line: &str, mana_cost: &str, mana_value: u32) -> ArchivedCard {
    let identity = match ManaCost::parse(mana_cost) {
        Ok(c) => c.colors().bits(),
        Err(_) => 0,
    };
    let mut built = ArchivedCard {
        oracle_id: format!("o-{name}"),
        name: name.to_owned(),
        mana_cost: mana_cost.to_owned(),
        mana_value,
        mana_value_halves: 2 * mana_value,
        colors: 0,
        color_identity: identity,
        produced_mana: 0,
        type_line: type_line.to_owned(),
        oracle_text: String::new(),
        power: None,
        toughness: None,
        loyalty: None,
        keywords: Vec::new(),
        legalities: vec![legality_to_u8(Legality::Legal); LEGALITY_SLOTS],
        rarity: rarity_to_u8(Rarity::Common),
        edhrec_rank: None,
        game_changer: false,
        tags: 0,
        reserved: false,
        layout: Layout::Normal,
        faces: Vec::new(),
        set_code: "tst".to_owned(),
        collector_number: "1".to_owned(),
        released_at: "2026-01-01".to_owned(),
        image_id: String::new(),
    };
    built.faces.push(ArchivedCardFace {
        name: built.name.clone(),
        mana_cost: built.mana_cost.clone(),
        type_line: built.type_line.clone(),
        oracle_text: String::new(),
        power: None,
        toughness: None,
        loyalty: None,
        colors: built.colors,
    });
    built
}

fn catalog() -> Catalog {
    let cards = vec![
        card("Island", "Basic Land — Island", "", 0),
        card("Delver", "Creature — Human Wizard", "{U}", 1),
        card("Counterspell", "Instant", "{U}{U}", 2),
        card("Cryptic Command", "Instant", "{1}{U}{U}{U}", 4),
        card("Emrakul", "Legendary Creature — Eldrazi", "{15}", 15),
        card("Lightning Bolt", "Instant", "{R}", 1),
    ];
    match Catalog::from_parts(FORMAT_VERSION, String::new(), cards) {
        Ok(c) => c,
        Err(e) => panic!("{}", e.to_string()),
    }
}

fn deck_of(entries: &[(&str, u32)]) -> Deck {
    let mut deck = Deck::new("Test", Format::Modern);
    for (name, quantity) in entries {
        deck.add(DeckEntry::new(&format!("o-{name}"), name, *quantity));
    }
    deck
}

/// The mean mana value of the non-land cards.
fn average(stats: &DeckStats) -> f64 {
    if stats.non_land_cards == 0 {
        0.0
    } else {
        stats.mana_value_halves_total as f64 / (2.0 * stats.non_land_cards as f64)
    }
}

#[test]
fn counts_lands_and_creatures() {
    let stats = stats(&deck_of(&[("Island", 20), ("Delver", 4), ("Counterspell", 4)]), &catalog());
    assert_eq!(stats.total_cards, 28);
    assert_eq!(stats.lands, 20);
    assert_eq!(stats.creatures, 4);
}

#[test]
fn lands_stay_out_of_the_curve() {
    let stats = stats(&deck_of(&[("Island", 20), ("Delver", 4)]), &catalog());
    assert_eq!(stats.curve[0].count, 0);
    assert_eq!(stats.curve[1].count, 4);
}

#[test]
fn the_top_bucket_collects_everything_above_it() {
    let stats = stats(&deck_of(&[("Emrakul", 2)]), &catalog());
    let top = stats.curve.last().copied().unwrap();
    assert_eq!(top.mana_value, CURVE_CAP);
    assert_eq!(top.count, 2, "a 15-drop lands in the 7+ bucket");
    assert!(top.is_overflow);
}

#[test]
fn the_curve_has_no_gaps() {
    let stats = stats(&deck_of(&[("Delver", 1)]), &catalog());
    assert_eq!(stats.curve.len() as u32, CURVE_CAP + 1);
    for (index, bucket) in stats.curve.iter().enumerate() {
        assert_eq!(bucket.mana_value, index as u32);
    }
}

#[test]
fn the_average_excludes_lands() {
    let stats = stats(&deck_of(&[("Island", 30), ("Delver", 2), ("Counterspell", 2)]), &catalog());
    assert!((average(&stats) - 1.5).abs() < 0.001, "{:?}", average(&stats));
}

#[test]
fn an_all_land_deck_does_not_divide_by_zero() {
    let stats = stats(&deck_of(&[("Island", 60)]), &catalog());
    assert_eq!(average(&stats), 0.0);
    assert_eq!(stats.non_land_cards, 0);
}

#[test]
fn pips_are_counted_per_symbol_not_per_card() {
    let stats = stats(&deck_of(&[("Counterspell", 4)]), &catalog());
    let blue = stats.color_pips.iter().find(|p| p.color == 'U').unwrap();
    assert_eq!(blue.pips, 8);
    assert_eq!(blue.cards, 4);
}

#[test]
fn every_colour_appears_even_at_zero() {
    let stats = stats(&deck_of(&[("Lightning Bolt", 4)]), &catalog());
    assert_eq!(stats.color_pips.len(), 5);
    let white = stats.color_pips.iter().find(|p| p.color == 'W').unwrap();
    assert_eq!(white.pips, 0);
}

#[test]
fn the_sideboard_is_not_counted() {
    let mut deck = deck_of(&[("Island", 20)]);
    deck.add(DeckEntry::new("o-Counterspell", "Counterspell", 15).in_zone(Zone::Sideboard));
    assert_eq!(stats(&deck, &catalog()).total_cards, 20);
}

#[test]
fn the_command_zone_is_counted() {
    let mut deck = deck_of(&[("Island", 99)]);
    deck.add(DeckEntry::new("o-Emrakul", "Emrakul", 1).in_zone(Zone::Command));
    assert_eq!(stats(&deck, &catalog()).total_cards, 100);
}

#[test]
fn unresolved_cards_are_counted_rather_than_ignored() {
    let mut deck = deck_of(&[("Island", 20)]);
    deck.add(DeckEntry::new("o-ghost", "Ghost", 4));

    let stats = stats(&deck, &catalog());
    assert_eq!(stats.unresolved_cards, 4);
    assert_eq!(stats.total_cards, 20);
}

#[test]
fn the_identity_is_read_in_wubrg_order() {
    let stats = stats(&deck_of(&[("Lightning Bolt", 1), ("Delver", 1)]), &catalog());
    assert_eq!(stats.color_identity, "UR");
    assert_eq!(stats.mana_value_halves_total, 4);
}
