use mtg::color::ColorSet;
use mtg::optimizer::profile::{DeckProfile, PipRequirement};
use mtg::optimizer::score::{land_drop_horizon, spell_curve, Archetype, RoleGroup, MAX_HORIZON, MIN_HORIZON};
use mtg::optimizer::simulate::Card;
use mtg::tag::Tag;

fn land() -> Card {
    Card { is_land: true, mana_value: 0 }
}

fn spell(mana_value: u32) -> Card {
    Card { is_land: false, mana_value }
}

/// A 60-card deck with `lands` lands, all producing blue, and the given spells.
fn deck(lands: u32, spells: &[(u32, u32)], requirements: Vec<PipRequirement>) -> DeckProfile {
    let mut cards = vec![land(); lands as usize];
    for (mana_value, count) in spells {
        for _ in 0..*count {
            cards.push(spell(*mana_value));
        }
    }
    let mut profile = DeckProfile::default();
    profile.cards = cards;
    profile.color_sources = [0, lands, 0, 0, 0];
    profile.mana_producers = lands;
    profile.lands = lands;
    profile.pip_requirements = requirements;
    profile.color_identity = ColorSet::from_symbols("U");
    profile
}

#[test]
fn an_aggressive_curve_asks_for_fewer_lands_than_a_slow_one() {
    let burn = deck(20, &[(1, 16), (2, 12), (3, 12)], Vec::new());
    let control = deck(26, &[(2, 8), (3, 8), (4, 8), (5, 6), (6, 4)], Vec::new());

    assert_eq!(land_drop_horizon(&burn), 3);
    assert!(land_drop_horizon(&control) > land_drop_horizon(&burn), "control wants its lands for longer");
}

#[test]
fn one_expensive_card_does_not_drag_the_horizon_out() {
    let mostly_cheap = deck(24, &[(1, 18), (2, 17), (7, 1)], Vec::new());
    assert_eq!(land_drop_horizon(&mostly_cheap), MIN_HORIZON);
}

#[test]
fn a_deck_of_nothing_but_lands_does_not_panic() {
    let all_lands = deck(60, &[], Vec::new());
    assert_eq!(land_drop_horizon(&all_lands), MIN_HORIZON);
}

#[test]
fn the_horizon_of_a_control_deck_is_where_nine_in_ten_spells_are_castable() {
    // 34 spells: 31 wanted castable. By turn five 30 are, by turn six all 34.
    let control = deck(26, &[(2, 8), (3, 8), (4, 8), (5, 6), (6, 4)], Vec::new());
    assert_eq!(land_drop_horizon(&control), 6);
}

#[test]
fn a_deck_of_only_huge_spells_stops_at_the_latest_horizon() {
    let huge = deck(30, &[(25, 30)], Vec::new());
    assert_eq!(land_drop_horizon(&huge), MAX_HORIZON);
}

#[test]
fn the_curve_counts_spells_by_mana_value_with_a_seven_plus_bucket() {
    let profile = deck(20, &[(0, 1), (1, 4), (3, 2), (7, 1), (9, 2)], Vec::new());
    assert_eq!(spell_curve(&profile), vec![1, 4, 0, 2, 0, 0, 0, 3]);
    assert_eq!(spell_curve(&deck(10, &[], Vec::new())), vec![0; 8]);
}

#[test]
fn archetypes_and_role_groups_read_as_words() {
    let labels: Vec<&str> = Archetype::ALL.iter().map(|a| a.label()).collect();
    assert_eq!(labels, ["Aggro", "Midrange", "Control"]);
    assert_eq!(RoleGroup::CardAdvantage.label(), "card advantage");
    assert_eq!(RoleGroup::Interaction.tags()[0], Tag::Removal);
}
