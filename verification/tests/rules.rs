use mtg::deck::rules::{DeckSize, FormatRules};
use mtg::format::Format;

#[test]
fn every_format_has_rules() {
    for format in Format::ALL {
        let rules = FormatRules::for_format(format);
        assert_eq!(rules.format, format);
        assert!(rules.deck_size.minimum() >= 40, "{format:?}");
        assert!(rules.max_copies >= 1, "{format:?}");
    }
}

#[test]
fn sixty_card_formats_allow_four_copies_and_a_sideboard() {
    let modern = FormatRules::for_format(Format::Modern);
    assert_eq!(modern.deck_size, DeckSize::AtLeast(60));
    assert_eq!(modern.max_copies, 4);
    assert_eq!(modern.max_sideboard, 15);
    assert!(!modern.has_commander());
    assert!(!modern.is_singleton());
}

#[test]
fn commander_is_a_hundred_card_singleton_with_a_command_zone() {
    let commander = FormatRules::for_format(Format::Commander);
    assert_eq!(commander.deck_size, DeckSize::Exactly(100));
    assert!(commander.is_singleton());
    assert_eq!(commander.max_sideboard, 0);

    let zone = commander.commander.expect("commander rules");
    assert_eq!(zone.count_min..=zone.count_max, 1..=2, "partners make two legal");
    assert!(zone.enforce_color_identity);
    assert!(zone.counts_towards_deck_size, "99 + 1 = 100");
}

#[test]
fn oathbreaker_wants_exactly_two_in_the_command_zone() {
    let rules = FormatRules::for_format(Format::Oathbreaker);
    assert_eq!(rules.deck_size, DeckSize::Exactly(60));
    let zone = rules.commander.expect("commander rules");
    assert_eq!(zone.count_min..=zone.count_max, 2..=2);
}

#[test]
fn gladiator_is_singleton_without_a_commander() {
    let rules = FormatRules::for_format(Format::Gladiator);
    assert_eq!(rules.deck_size, DeckSize::Exactly(100));
    assert!(rules.is_singleton());
    assert!(!rules.has_commander());
}

#[test]
fn standard_brawl_is_sixty_cards_not_a_hundred() {
    assert_eq!(FormatRules::for_format(Format::StandardBrawl).deck_size, DeckSize::Exactly(60));
    assert_eq!(FormatRules::for_format(Format::Brawl).deck_size, DeckSize::Exactly(100));
}

#[test]
fn only_the_unconfirmed_formats_are_flagged_approximate() {
    let approximate: Vec<Format> =
        Format::ALL.into_iter().filter(|f| FormatRules::for_format(*f).approximate).collect();
    assert_eq!(approximate, [Format::CompetitiveBrawl, Format::Tlr]);
}
