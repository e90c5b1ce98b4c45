use mtg::data::card::{
    legality_to_u8, rarity_from_u8, rarity_to_u8, type_line_has, Layout, LEGALITY_SLOTS,
};
use mtg::format::{Format, Legality, Rarity};

#[test]
fn legality_slots_match_format_count() {
    assert_eq!(LEGALITY_SLOTS, Format::COUNT);
}

#[test]
fn legality_encoding_round_trips() {
    for legality in [Legality::Legal, Legality::NotLegal, Legality::Restricted, Legality::Banned] {
        let mut slots = [legality_to_u8(Legality::NotLegal); LEGALITY_SLOTS];
        slots[Format::Modern.index()] = legality_to_u8(legality);
        assert_eq!(slots[Format::Modern.index()], legality_to_u8(legality));
    }
}

#[test]
fn rarity_encoding_round_trips() {
    for rarity in [
        Rarity::Common,
        Rarity::Uncommon,
        Rarity::Rare,
        Rarity::Mythic,
        Rarity::Special,
        Rarity::Bonus,
    ] {
        assert_eq!(rarity_from_u8(rarity_to_u8(rarity)), rarity);
    }
}

#[test]
fn layout_parsing() {
    assert_eq!(Layout::from_scryfall_value("normal"), Layout::Normal);
    assert_eq!(Layout::from_scryfall_value("modal_dfc"), Layout::ModalDfc);
    assert_eq!(Layout::from_scryfall_value("adventure"), Layout::Adventure);
    // Unmodelled layouts collapse rather than failing.
    assert_eq!(Layout::from_scryfall_value("planar"), Layout::Other);
}

#[test]
fn transforming_layouts_are_two_sided() {
    assert!(!Layout::Transform.is_single_sided());
    assert!(!Layout::ModalDfc.is_single_sided());
    // Split and adventure cards show everything on one side.
    assert!(Layout::Split.is_single_sided());
    assert!(Layout::Adventure.is_single_sided());
}

#[test]
fn type_line_matching_is_whole_word() {
    assert!(type_line_has("Basic Land — Forest", "Land"));
    assert!(type_line_has("Legendary Creature — Human Wizard", "Creature"));
    assert!(type_line_has("Legendary Creature — Human Wizard", "creature"));
    // The reason a substring match would not do.
    assert!(!type_line_has("Enchantment — Landfall", "Land"));
    assert!(!type_line_has("Artifact Creature — Golem", "Art"));
}

#[test]
fn a_legality_byte_reads_back_as_the_legality_it_encodes() {
    // Each legality has its own byte, and the bytes are distinct.
    let bytes: Vec<u8> = [Legality::Legal, Legality::NotLegal, Legality::Restricted, Legality::Banned]
        .iter()
        .map(|l| legality_to_u8(*l))
        .collect();
    let mut sorted = bytes.clone();
    sorted.sort_unstable();
    sorted.dedup();
    assert_eq!(sorted.len(), 4);
    assert_eq!(rarity_from_u8(200), Rarity::Common);
}
