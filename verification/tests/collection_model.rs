use mtg::collection::model::{Condition, Finish, HoldingId, NewHolding, Pool, StorageLocation};

#[test]
fn location_display() {
    assert_eq!(StorageLocation::new("Binder 3").to_string(), "Binder 3");
    assert_eq!(StorageLocation::new("Binder 3").with_section("page 12").to_string(), "Binder 3, page 12");
    assert_eq!(
        StorageLocation::new("Binder 3").with_section("page 12").with_slot(4).to_string(),
        "Binder 3, page 12 #4"
    );
}

#[test]
fn sticky_scanning_increments_the_slot() {
    let start = StorageLocation::new("Binder 3").with_section("page 12");
    let first = start.next_slot();
    assert_eq!(first.slot, Some(1));

    let second = first.next_slot();
    assert_eq!(second.slot, Some(2));
    assert_eq!(second.container, "Binder 3");
    assert_eq!(second.section.as_deref(), Some("page 12"));
}

#[test]
fn slot_increment_saturates_rather_than_wrapping() {
    let last = StorageLocation::new("Box").with_slot(u16::MAX);
    assert_eq!(last.next_slot().slot, Some(u16::MAX));
}

#[test]
fn condition_codes_are_the_usual_ones() {
    let codes: Vec<&str> = Condition::ALL.iter().map(|c| c.short_code()).collect();
    assert_eq!(codes, ["NM", "LP", "MP", "HP", "DMG"]);
}

#[test]
fn new_holdings_default_to_one_english_near_mint_copy() {
    let holding = NewHolding::single(Pool::Physical, "oracle-1", "Sol Ring");
    assert_eq!(holding.quantity, 1);
    assert_eq!(holding.language, "en");
    assert_eq!(holding.finish, Finish::Nonfoil);
    assert_eq!(holding.condition, Condition::NearMint);
}

#[test]
fn a_built_holding_keeps_every_field() {
    let holding = NewHolding::single(Pool::Physical, "oracle-1", "Sol Ring")
        .quantity(3)
        .printing("2xm", "263")
        .language("fr")
        .finish(Finish::Foil)
        .condition(Condition::LightlyPlayed)
        .at(StorageLocation::new("Binder 3").with_section("page 12").with_slot(4))
        .into_holding(HoldingId(7));
    assert_eq!(holding.id, HoldingId(7));
    assert_eq!(holding.quantity, 3);
    assert_eq!(holding.set_code, "2xm");
    assert_eq!(holding.collector_number, "263");
    assert_eq!(holding.language, "fr");
    assert_eq!(holding.finish, Finish::Foil);
    assert_eq!(holding.condition, Condition::LightlyPlayed);
    assert_eq!(holding.location.as_ref().map(|l| l.to_string()), Some("Binder 3, page 12 #4".to_owned()));
    assert_eq!(holding.id.to_string(), "7");
}

#[test]
fn names_of_pools_finishes_and_conditions() {
    assert_eq!(Pool::Physical.as_str(), "physical");
    assert_eq!(Pool::Digital.as_str(), "digital");
    assert_eq!(Finish::Etched.name(), "Etched");
    assert_eq!(Condition::Damaged.short_code(), "DMG");
    assert!(StorageLocation::new("  ").is_empty());
}
