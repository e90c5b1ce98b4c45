use mtg::optimizer::math::cards_seen_by_turn;

#[test]
fn going_second_sees_one_more_card() {
    assert_eq!(cards_seen_by_turn(1, true), 7);
    assert_eq!(cards_seen_by_turn(1, false), 8);
    assert_eq!(cards_seen_by_turn(4, true), 10);
    assert_eq!(cards_seen_by_turn(4, false), 11);
}

#[test]
fn turn_zero_is_the_opening_hand() {
    assert_eq!(cards_seen_by_turn(0, true), 7);
    assert_eq!(cards_seen_by_turn(0, false), 7);
}
