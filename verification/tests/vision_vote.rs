use mtg::vision::matcher::Match;
use mtg::vision::vote::{Outcome, VoteSettings, Voter, DEFAULT_CLEAR_AFTER, DEFAULT_NEEDED};

fn card(name: &str) -> Match {
    Match {
        printing_id: format!("p-{name}"),
        oracle_id: format!("o-{name}"),
        name: name.to_owned(),
        distance: 4,
        margin: 30,
    }
}

fn confirmed(outcome: &Outcome) -> Option<&str> {
    match outcome {
        Outcome::Confirmed(card) => Some(card.name.as_str()),
        _ => None,
    }
}

#[test]
fn one_good_frame_is_not_enough() {
    let mut voter = Voter::default();
    assert!(matches!(voter.observe(Some(card("Sol Ring"))), Outcome::Tracking { votes: 1, .. }));
}

#[test]
fn agreement_across_frames_confirms() {
    let mut voter = Voter::default();
    for _ in 0..DEFAULT_NEEDED - 1 {
        assert!(confirmed(&voter.observe(Some(card("Sol Ring")))).is_none());
    }
    assert_eq!(confirmed(&voter.observe(Some(card("Sol Ring")))), Some("Sol Ring"));
}

#[test]
fn a_card_is_confirmed_once_however_long_it_is_held() {
    let mut voter = Voter::default();
    let mut confirmations = 0;
    for _ in 0..30 {
        if confirmed(&voter.observe(Some(card("Sol Ring")))).is_some() {
            confirmations += 1;
        }
    }
    assert_eq!(confirmations, 1);
}

#[test]
fn taking_the_card_away_and_bringing_another_confirms_the_second() {
    let mut voter = Voter::default();
    for _ in 0..8 {
        voter.observe(Some(card("Sol Ring")));
    }
    for _ in 0..DEFAULT_CLEAR_AFTER {
        voter.observe(None);
    }

    let mut confirmations = Vec::new();
    for _ in 0..DEFAULT_NEEDED {
        if let Some(name) = confirmed(&voter.observe(Some(card("Island")))) {
            confirmations.push(name.to_owned());
        }
    }
    assert_eq!(confirmations, vec!["Island"]);
}

#[test]
fn a_second_copy_of_the_same_card_is_counted_again() {
    let mut voter = Voter::default();
    let mut confirmations = 0;
    for _ in 0..4 {
        for _ in 0..DEFAULT_NEEDED {
            if confirmed(&voter.observe(Some(card("Lightning Bolt")))).is_some() {
                confirmations += 1;
            }
        }
        for _ in 0..DEFAULT_CLEAR_AFTER {
            voter.observe(None);
        }
    }
    assert_eq!(confirmations, 4);
}

#[test]
fn a_stray_wrong_match_does_not_win() {
    let mut voter = Voter::default();
    let mut seen = Vec::new();
    let frames = [
        Some(card("Sol Ring")),
        Some(card("Sol Ring")),
        Some(card("Black Lotus")),
        Some(card("Sol Ring")),
        Some(card("Sol Ring")),
        Some(card("Sol Ring")),
    ];
    for frame in frames {
        if let Some(name) = confirmed(&voter.observe(frame)) {
            seen.push(name.to_owned());
        }
    }
    assert_eq!(seen, vec!["Sol Ring"]);
}

#[test]
fn a_brief_loss_of_focus_does_not_restart_the_count() {
    let mut voter = Voter::default();
    let frames = [
        Some(card("Sol Ring")),
        Some(card("Sol Ring")),
        None,
        None,
        Some(card("Sol Ring")),
        Some(card("Sol Ring")),
        Some(card("Sol Ring")),
    ];
    let mut seen = Vec::new();
    for frame in frames {
        if let Some(name) = confirmed(&voter.observe(frame)) {
            seen.push(name.to_owned());
        }
    }
    assert_eq!(seen, vec!["Sol Ring"]);
}

#[test]
fn an_empty_stream_never_confirms_anything() {
    let mut voter = Voter::default();
    for _ in 0..100 {
        assert_eq!(voter.observe(None), Outcome::Searching);
    }
}

#[test]
fn two_cards_alternating_confirm_neither() {
    let mut voter = Voter::new(VoteSettings { window: 6, needed: 5, clear_after: 6 });
    for index in 0..40 {
        let name = if index % 2 == 0 { "Sol Ring" } else { "Island" };
        assert!(confirmed(&voter.observe(Some(card(name)))).is_none());
    }
}

#[test]
fn holding_is_reported_while_the_confirmed_card_is_still_there() {
    let mut voter = Voter::default();
    for _ in 0..DEFAULT_NEEDED {
        voter.observe(Some(card("Sol Ring")));
    }
    assert_eq!(voter.observe(Some(card("Sol Ring"))), Outcome::Holding);
    assert_eq!(voter.observe(None), Outcome::Holding);
}

#[test]
fn resetting_forgets_the_card_in_hand() {
    let mut voter = Voter::default();
    for _ in 0..DEFAULT_NEEDED {
        voter.observe(Some(card("Sol Ring")));
    }
    voter.reset();

    let mut confirmations = 0;
    for _ in 0..DEFAULT_NEEDED {
        if confirmed(&voter.observe(Some(card("Sol Ring")))).is_some() {
            confirmations += 1;
        }
    }
    assert_eq!(confirmations, 1);
}

#[test]
fn a_degenerate_window_still_behaves() {
    let mut voter = Voter::new(VoteSettings { window: 0, needed: 1, clear_after: 1 });
    assert_eq!(confirmed(&voter.observe(Some(card("Sol Ring")))), Some("Sol Ring"));
}

#[test]
fn tracking_reports_the_card_and_the_votes_still_needed() {
    let mut voter = Voter::default();
    voter.observe(Some(card("Sol Ring")));
    match voter.observe(Some(card("Sol Ring"))) {
        Outcome::Tracking { card, votes, needed } => {
            assert_eq!(card.name, "Sol Ring");
            assert_eq!(votes, 2);
            assert_eq!(needed, DEFAULT_NEEDED);
        },
        other => panic!("expected tracking, got {other:?}"),
    }
    assert_eq!(VoteSettings::default(), VoteSettings { window: 12, needed: 5, clear_after: 6 });
}
