use mtg::color::{Color, ColorSet};
use mtg::mana::{ManaCost, ManaCostError};

fn parse(s: &str) -> ManaCost {
    ManaCost::parse(s).unwrap()
}

#[test]
fn empty_cost_is_valid() {
    // Lands have an empty mana cost in Scryfall data.
    let cost = parse("");
    assert!(cost.is_empty());
    assert_eq!(cost.mana_value(), 0);
    assert_eq!(cost.colors(), ColorSet::colorless());
}

#[test]
fn simple_cost() {
    let cost = parse("{2}{W}{U}");
    assert_eq!(cost.mana_value(), 4);
    assert_eq!(cost.colors(), ColorSet::from_symbols("WU"));
    assert_eq!(cost.pip_count(Color::White), 1);
    assert_eq!(cost.pip_count(Color::Black), 0);
}

#[test]
fn double_pips_are_counted_separately_from_mana_value() {
    let heavy = parse("{B}{B}");
    let light = parse("{1}{B}");
    assert_eq!(heavy.mana_value(), light.mana_value());
    assert_eq!(heavy.pip_count(Color::Black), 2);
    assert_eq!(light.pip_count(Color::Black), 1);
}

#[test]
fn variable_costs_count_as_zero() {
    let cost = parse("{X}{R}");
    assert_eq!(cost.mana_value(), 1);
    assert!(cost.has_variable());
}

#[test]
fn hybrid_symbols() {
    let cost = parse("{B/G}{B/G}");
    assert_eq!(cost.mana_value(), 2);
    assert_eq!(cost.colors(), ColorSet::from_symbols("BG"));
}

#[test]
fn monocolored_hybrid_has_mana_value_two() {
    // {2/W} can be paid with two generic, so its mana value is 2, not 1.
    let cost = parse("{2/W}{2/W}");
    assert_eq!(cost.mana_value(), 4);
    assert_eq!(cost.colors(), ColorSet::from_symbols("W"));
}

#[test]
fn phyrexian_symbols() {
    let cost = parse("{1}{W/P}");
    assert_eq!(cost.mana_value(), 2);
    assert_eq!(cost.colors(), ColorSet::from_symbols("W"));
}

#[test]
fn hybrid_phyrexian_symbols() {
    let cost = parse("{R/W/P}");
    assert_eq!(cost.mana_value(), 1);
    assert_eq!(cost.colors(), ColorSet::from_symbols("RW"));
}

#[test]
fn colorless_and_snow_are_not_colors() {
    let cost = parse("{C}{S}");
    assert_eq!(cost.mana_value(), 2);
    assert!(cost.colors().is_colorless());
}

#[test]
fn large_generic_costs() {
    // Draco costs {16}; two digits must not be read as two symbols.
    let cost = parse("{16}");
    assert_eq!(cost.mana_value(), 16);
}

#[test]
fn malformed_costs_return_errors_rather_than_panicking() {
    assert_eq!(ManaCost::parse("{W"), Err(ManaCostError::UnclosedBrace));
    assert_eq!(ManaCost::parse("W"), Err(ManaCostError::StrayText('W')));
    assert_eq!(ManaCost::parse("{2}X"), Err(ManaCostError::StrayText('X')));
    assert_eq!(ManaCost::parse("{Q}"), Err(ManaCostError::UnknownSymbol("Q".to_owned())));
}

#[test]
fn an_empty_pair_of_braces_is_an_unknown_symbol() {
    assert_eq!(ManaCost::parse("{}"), Err(ManaCostError::UnknownSymbol(String::new())));
    assert_eq!(parse("{G}{G}{1}").symbols().len(), 3);
}
