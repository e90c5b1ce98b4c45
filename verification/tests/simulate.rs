use mtg::optimizer::rng::Rng;
use mtg::optimizer::simulate::{bottom_cards, play_one, simulate_counts, Card, MulliganRule, SimulationSettings};

fn land() -> Card {
    Card { is_land: true, mana_value: 0 }
}

fn spell(mana_value: u32) -> Card {
    Card { is_land: false, mana_value }
}

/// A deck of `lands` lands and spells spread evenly over one to four mana.
fn deck(lands: u32, spells: u32) -> Vec<Card> {
    let mut cards = vec![land(); lands as usize];
    for i in 0..spells {
        cards.push(spell(i % 4 + 1));
    }
    cards
}

fn settings_for(cards: &[Card]) -> SimulationSettings {
    let mut settings = SimulationSettings::for_deck_size(cards.len() as u32);
    settings.games = 2_000;
    settings
}

#[test]
fn the_same_seed_gives_the_same_result() {
    let cards = deck(24, 36);
    let settings = settings_for(&cards);
    assert_eq!(simulate_counts(&cards, settings), simulate_counts(&cards, settings));
}

#[test]
fn an_all_land_deck_never_gets_screwed_and_always_floods() {
    let cards = deck(60, 0);
    let result = simulate_counts(&cards, settings_for(&cards));
    assert_eq!(result.screwed, 0);
    assert_eq!(result.flooded, result.games);
    assert_eq!(result.land_drops[0], result.games, "always a land for turn one");
}

#[test]
fn a_deck_with_no_lands_never_makes_a_land_drop() {
    let cards = deck(0, 60);
    let result = simulate_counts(&cards, settings_for(&cards));
    assert_eq!(result.screwed, result.games);
    assert_eq!(result.flooded, 0);
    assert!(result.land_drops.iter().all(|n| *n == 0));
    assert!(result.on_curve.iter().all(|n| *n == 0), "nothing is castable with no mana");
}

#[test]
fn more_lands_means_more_land_drops() {
    let lean_cards = deck(18, 42);
    let rich_cards = deck(28, 32);
    let lean = simulate_counts(&lean_cards, settings_for(&lean_cards));
    let rich = simulate_counts(&rich_cards, settings_for(&rich_cards));
    assert!(rich.land_drops[3] > lean.land_drops[3], "{} vs {}", rich.land_drops[3], lean.land_drops[3]);
}

#[test]
fn land_drop_probabilities_only_go_down_with_the_turns() {
    let cards = deck(24, 36);
    let result = simulate_counts(&cards, settings_for(&cards));
    for window in result.land_drops.windows(2) {
        assert!(window[1] <= window[0], "{:?}", result.land_drops);
    }
}

#[test]
fn commander_sized_decks_use_a_higher_keepable_band() {
    let rule = MulliganRule::for_deck_size(100);
    assert_eq!(rule.minimum_lands, 3);
    assert_eq!(MulliganRule::for_deck_size(60).minimum_lands, 2);
}

#[test]
fn a_small_hand_is_always_kept() {
    let rule = MulliganRule::for_deck_size(60);
    assert!(rule.keeps(5, 0), "a five-card hand is kept whatever it holds");
    assert!(!rule.keeps(7, 0));
}

#[test]
fn bottoming_prefers_excess_lands_then_the_top_end() {
    let rule = MulliganRule::for_deck_size(60);

    let mut flooded = vec![land(), land(), land(), land(), land(), land(), spell(2)];
    bottom_cards(&mut flooded, 1, &rule);
    assert_eq!(flooded.iter().filter(|c| c.is_land).count(), 5);

    let mut lean = vec![land(), land(), spell(1), spell(2), spell(7)];
    bottom_cards(&mut lean, 1, &rule);
    assert_eq!(lean.iter().filter(|c| c.is_land).count(), 2);
    assert!(!lean.iter().any(|c| c.mana_value == 7));
}

#[test]
fn bottoming_never_empties_the_hand() {
    let rule = MulliganRule::for_deck_size(60);
    let mut hand = vec![land(), spell(1)];
    bottom_cards(&mut hand, 10, &rule);
    assert_eq!(hand.len(), 1);
}

#[test]
fn an_empty_deck_does_not_hang_or_panic() {
    let cards: Vec<Card> = Vec::new();
    let result = simulate_counts(&cards, settings_for(&cards));
    assert_eq!(result.screwed, result.games);
    assert!(result.land_drops.iter().all(|n| *n == 0));
}

#[test]
fn playing_second_draws_an_extra_card() {
    let cards = deck(24, 36);
    let mut on_play = settings_for(&cards);
    on_play.on_the_play = true;
    let mut on_draw = on_play;
    on_draw.on_the_play = false;

    let played = simulate_counts(&cards, on_play);
    let drawn = simulate_counts(&cards, on_draw);
    assert!(drawn.land_drops[3] >= played.land_drops[3], "{} vs {}", drawn.land_drops[3], played.land_drops[3]);
}

#[test]
fn a_reasonable_deck_keeps_most_opening_hands() {
    let cards = deck(24, 36);
    let result = simulate_counts(&cards, settings_for(&cards));
    let kept = result.kept_first_hand as f64 / result.games as f64;
    let mulligans = result.total_mulligans as f64 / result.games as f64;
    assert!(kept > 0.75, "{kept}");
    assert!(mulligans < 0.35, "{mulligans}");
}

#[test]
fn a_single_game_is_reproducible_from_its_seed() {
    let settings = SimulationSettings::for_deck_size(60);
    let mut first = deck(24, 36);
    let mut second = deck(24, 36);
    let a = play_one(&mut first, &mut Rng::new(3), &settings, 4);
    let b = play_one(&mut second, &mut Rng::new(3), &settings, 4);
    assert_eq!(format!("{a:?}"), format!("{b:?}"));
    assert_eq!(first, second);
}

fn run(cards: &Vec<Card>) -> mtg::optimizer::simulate::SimulationCounts {
    simulate_counts(cards, SimulationSettings::for_deck_size(cards.len() as u32))
}

fn share(count: u32, games: u32) -> f64 {
    f64::from(count) / f64::from(games)
}

#[test]
fn a_different_seed_gives_a_close_but_different_result() {
    let cards = deck(24, 36);
    let mut a = SimulationSettings::for_deck_size(60);
    let mut b = a;
    b.seed = a.seed + 1;
    a.games = 10_000;
    b.games = 10_000;

    let first = simulate_counts(&cards, a);
    let second = simulate_counts(&cards, b);
    assert_ne!(first, second, "two seeds should not agree exactly");
    let (p, q) = (share(first.kept_first_hand, first.games), share(second.kept_first_hand, second.games));
    assert!((p - q).abs() < 0.02, "{p} vs {q}");
}

#[test]
fn a_deck_with_a_terrible_land_count_mulligans_far_more() {
    let sane = run(&deck(24, 36));
    let broken = run(&deck(5, 55));
    let sane_average = sane.total_mulligans as f64 / f64::from(sane.games);
    let broken_average = broken.total_mulligans as f64 / f64::from(broken.games);
    assert!(broken_average > sane_average * 2.0, "{broken_average} vs {sane_average}");
}

#[test]
fn opening_land_counts_are_near_what_the_maths_predicts() {
    // 24 lands in 60 cards is 2.8 per seven-card hand before mulligans; the mulligan rule
    // pulls that up a little by rejecting the extremes.
    let result = run(&deck(24, 36));
    let average = result.total_opening_lands as f64 / f64::from(result.games);
    assert!((average - 3.0).abs() < 0.5, "{average}");
}
