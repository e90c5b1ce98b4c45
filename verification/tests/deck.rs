use mtg::deck::deck::{Deck, DeckEntry, Zone};
use mtg::format::Format;

fn deck() -> Deck {
    Deck::new("Test", Format::Commander)
}

#[test]
fn adding_the_same_card_twice_merges() {
    let mut deck = deck();
    deck.add(DeckEntry::new("o1", "Lightning Bolt", 2));
    deck.add(DeckEntry::new("o1", "Lightning Bolt", 2));

    assert_eq!(deck.entries.len(), 1);
    assert_eq!(deck.count_in(Zone::Main), 4);
}

#[test]
fn the_same_card_in_two_zones_stays_separate() {
    let mut deck = deck();
    deck.add(DeckEntry::new("o1", "Pyroblast", 1));
    deck.add(DeckEntry::new("o1", "Pyroblast", 2).in_zone(Zone::Sideboard));

    assert_eq!(deck.entries.len(), 2);
    assert_eq!(deck.count_in(Zone::Main), 1);
    assert_eq!(deck.count_in(Zone::Sideboard), 2);
    // The copy limit spans both zones.
    assert_eq!(deck.copies_of("o1"), 3);
}

#[test]
fn commanders_do_not_count_towards_the_copy_limit() {
    let mut deck = deck();
    deck.add(DeckEntry::new("o1", "Krenko", 1).in_zone(Zone::Command));
    deck.add(DeckEntry::new("o1", "Krenko", 1));

    assert_eq!(deck.copies_of("o1"), 1);
    assert_eq!(deck.count_in(Zone::Command), 1);
}

#[test]
fn removing_fewer_copies_than_present_keeps_the_entry() {
    let mut deck = deck();
    deck.add(DeckEntry::new("o1", "Island", 10));
    deck.remove("o1", Zone::Main, 4);

    assert_eq!(deck.count_in(Zone::Main), 6);
    assert_eq!(deck.entries.len(), 1);
}

#[test]
fn removing_every_copy_drops_the_entry() {
    let mut deck = deck();
    deck.add(DeckEntry::new("o1", "Island", 3));
    deck.remove("o1", Zone::Main, 3);
    assert!(deck.is_empty());

    // Over-removing is not an error; the entry is simply gone.
    deck.add(DeckEntry::new("o2", "Forest", 2));
    deck.remove("o2", Zone::Main, 99);
    assert!(deck.is_empty());
}

#[test]
fn removing_a_card_that_is_not_there_does_nothing() {
    let mut deck = deck();
    deck.add(DeckEntry::new("o1", "Island", 3));
    deck.remove("o2", Zone::Main, 1);
    deck.remove("o1", Zone::Sideboard, 1);
    assert_eq!(deck.count_in(Zone::Main), 3);
}

#[test]
fn entries_of_a_zone_come_in_deck_order() {
    let mut deck = deck();
    deck.add(DeckEntry::new("o1", "Island", 3));
    deck.add(DeckEntry::new("o2", "Forest", 1).in_zone(Zone::Sideboard));
    deck.add(DeckEntry::new("o3", "Swamp", 2));
    let names: Vec<&str> = deck.entries_in(Zone::Main).iter().map(|e| e.name.as_str()).collect();
    assert_eq!(names, ["Island", "Swamp"]);
    assert_eq!(Zone::Command.label(), "Commander");
    let printed = DeckEntry::new("o4", "Goblin Chieftain", 1).printed_as("m10", "142");
    assert_eq!(printed.set_code, "m10");
    assert_eq!(printed.collector_number, "142");
}

#[test]
fn quantities_saturate_rather_than_wrap() {
    let mut deck = deck();
    deck.add(DeckEntry::new("o1", "Relentless Rats", u32::MAX));
    deck.add(DeckEntry::new("o1", "Relentless Rats", 5));
    assert_eq!(deck.entries[0].quantity, u32::MAX);
}
