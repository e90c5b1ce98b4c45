use mtg::color::{Color, ColorSet};

#[test]
fn all_colors_are_in_wubrg_order() {
    let symbols: String = Color::ALL.iter().map(|c| c.symbol()).collect();
    assert_eq!(symbols, "WUBRG");
}

#[test]
fn symbol_parsing_round_trips() {
    for color in Color::ALL {
        assert_eq!(Color::from_symbol(color.symbol()), Some(color));
    }
}

#[test]
fn unknown_symbols_are_rejected() {
    // 'C' is colorless and 'X' is a generic cost: neither is a color.
    assert_eq!(Color::from_symbol('C'), None);
    assert_eq!(Color::from_symbol('X'), None);
    assert_eq!(Color::from_symbol('w'), None);
}

#[test]
fn set_membership_and_size() {
    let azorius = ColorSet::from_symbols("WU");
    assert!(azorius.contains(Color::White));
    assert!(azorius.contains(Color::Blue));
    assert!(!azorius.contains(Color::Black));
    assert_eq!(azorius.len(), 2);
    assert!(!azorius.is_colorless());
}

#[test]
fn colorless_is_a_subset_of_everything() {
    // The rule that lets colorless cards into any Commander deck.
    for set in [ColorSet::colorless(), ColorSet::from_symbols("R"), ColorSet::wubrg()] {
        assert!(ColorSet::colorless().is_subset_of(set));
    }
}

#[test]
fn commander_identity_rule() {
    let commander = ColorSet::from_symbols("WU");

    assert!(ColorSet::from_symbols("W").is_subset_of(commander));
    assert!(ColorSet::from_symbols("WU").is_subset_of(commander));
    // A black card cannot go in an Azorius deck, even alongside legal colors.
    assert!(!ColorSet::from_symbols("B").is_subset_of(commander));
    assert!(!ColorSet::from_symbols("WUB").is_subset_of(commander));
}

#[test]
fn iteration_is_in_wubrg_order() {
    let jund = ColorSet::from_symbols("GBR");
    let symbols: String = jund.iter().into_iter().map(Color::symbol).collect();
    assert_eq!(symbols, "BRG");
}

#[test]
fn unknown_symbols_are_ignored_when_building_a_set() {
    // Scryfall never sends these, but tolerating them beats panicking on network data.
    assert_eq!(ColorSet::from_symbols("W?U"), ColorSet::from_symbols("WU"));
}

#[test]
fn bits_round_trip() {
    for set in [ColorSet::colorless(), ColorSet::wubrg(), ColorSet::from_symbols("BG")] {
        assert_eq!(ColorSet::from_bits(set.bits()), set);
    }
}

#[test]
fn display_is_readable() {
    assert_eq!(ColorSet::colorless().to_string(), "C");
    assert_eq!(ColorSet::from_symbols("GW").to_string(), "WG");
    assert_eq!(ColorSet::wubrg().to_string(), "WUBRG");
}

#[test]
fn union_and_intersection_are_what_they_say() {
    let azorius = ColorSet::from_symbols("WU");
    let dimir = ColorSet::from_symbols("UB");
    assert_eq!(azorius.union(dimir), ColorSet::from_symbols("WUB"));
    assert_eq!(azorius.intersection(dimir), ColorSet::from_symbols("U"));
    assert!(ColorSet::colorless().is_empty());
    assert_eq!(Color::Green.index(), 4);
}

#[test]
fn a_set_from_a_list_of_colors_holds_exactly_those() {
    let set = ColorSet::from_colors(&[Color::Red, Color::White, Color::Red]);
    assert_eq!(set, ColorSet::from_symbols("WR"));
    let mut grown = ColorSet::colorless();
    grown.insert(Color::Black);
    assert_eq!(grown.to_string(), "B");
}
