use mtg::journal::game::{GameId, NewGame, Opponent, Result_};
use mtg::journal::store::{games_of_deck, most_recent_first, JournalError};

#[test]
fn the_shortest_record_is_three_fields() {
    let game = NewGame::new(1, "2026-08-18", Result_::Win);
    assert_eq!(game.result, Result_::Win);
    assert!(game.opponents.is_empty());
    assert!(game.mulligans.is_none());
}

#[test]
fn dates_sort_correctly_as_plain_strings() {
    let mut dates = ["2026-08-09", "2025-12-31", "2026-08-10"];
    dates.sort_unstable();
    assert_eq!(dates, ["2025-12-31", "2026-08-09", "2026-08-10"]);
}

#[test]
fn a_game_keeps_what_was_recorded_when_it_gets_an_id() {
    let game = NewGame::new(7, "2026-08-18", Result_::Loss).against("Atraxa superfriends").with_id(GameId(3));
    assert_eq!(game.id, GameId(3));
    assert_eq!(game.deck_id, 7);
    assert_eq!(game.played_at, "2026-08-18");
    assert_eq!(game.result, Result_::Loss);
    assert_eq!(game.opponents, vec![Opponent { archetype: "Atraxa superfriends".to_owned(), player: String::new() }]);
    assert_eq!(Opponent::default().archetype, "");
}

#[test]
fn results_and_errors_read_as_words() {
    let labels: Vec<&str> = Result_::ALL.iter().map(|r| r.label()).collect();
    assert_eq!(labels, ["Win", "Loss", "Draw"]);
    assert_eq!(JournalError::NotFound(12).to_string(), "no game with id 12");
}

#[test]
fn the_log_reads_most_recent_first_by_date_then_id() {
    let games = vec![
        NewGame::new(1, "2026-08-10", Result_::Win).with_id(GameId(1)),
        NewGame::new(2, "2026-08-12", Result_::Loss).with_id(GameId(2)),
        NewGame::new(1, "2026-08-10", Result_::Draw).with_id(GameId(3)),
        NewGame::new(1, "2025-12-31", Result_::Win).with_id(GameId(4)),
    ];
    let ordered = most_recent_first(games);
    let ids: Vec<u64> = ordered.iter().map(|g| g.id.0).collect();
    assert_eq!(ids, [2, 3, 1, 4], "a game typed in later but played earlier sorts by its date");
    let deck_one: Vec<u64> = games_of_deck(ordered, 1).iter().map(|g| g.id.0).collect();
    assert_eq!(deck_one, [3, 1, 4]);
    assert!(most_recent_first(Vec::new()).is_empty());
}

#[test]
fn the_log_is_ordered_by_when_games_were_played_not_when_they_were_typed() {
    let typed = vec![
        NewGame::new(1, "2026-03-01", Result_::Win).with_id(GameId(1)),
        NewGame::new(1, "2026-01-01", Result_::Loss).with_id(GameId(2)),
        NewGame::new(1, "2026-02-01", Result_::Draw).with_id(GameId(3)),
    ];
    let dates: Vec<String> = most_recent_first(typed).into_iter().map(|g| g.played_at).collect();
    assert_eq!(dates, ["2026-03-01", "2026-02-01", "2026-01-01"]);
}

#[test]
fn games_are_filtered_by_deck() {
    let log = || {
        vec![
            NewGame::new(1, "2026-01-01", Result_::Win).with_id(GameId(1)),
            NewGame::new(2, "2026-01-02", Result_::Loss).with_id(GameId(2)),
        ]
    };
    assert_eq!(games_of_deck(log(), 1).len(), 1);
    assert_eq!(games_of_deck(log(), 2).len(), 1);
    assert!(games_of_deck(log(), 99).is_empty());
}
