use mtg::journal::game::{Game, GameId, NewGame, Result_};
use mtg::journal::stats::{split_by_date, tally, tally_by_archetype, Tally};

fn game(deck: u64, date: &str, result: Result_, against: &[&str]) -> Game {
    let mut new = NewGame::new(deck, date, result);
    for archetype in against {
        new = new.against(archetype);
    }
    new.with_id(GameId(0))
}

#[test]
fn results_are_counted_by_kind() {
    let t = tally(&[Result_::Win, Result_::Loss, Result_::Draw, Result_::Win]);
    assert_eq!(t, Tally { wins: 2, losses: 1, draws: 1 });
    assert_eq!(t.games(), 4);
    assert_eq!(t.decided(), 3);
    assert_eq!(tally(&[]), Tally { wins: 0, losses: 0, draws: 0 });
}

#[test]
fn draws_count_as_games_but_not_as_decided() {
    let mut results = vec![Result_::Win; 5];
    results.extend(vec![Result_::Loss; 5]);
    results.extend(vec![Result_::Draw; 4]);
    let t = tally(&results);
    assert_eq!(t.games(), 14);
    assert_eq!(t.decided(), 10);
    assert_eq!(t.draws, 4);
}

#[test]
fn losses_against_one_archetype_are_counted_under_its_label() {
    let games = vec![
        game(1, "2026-01-01", Result_::Loss, &["Atraxa"]),
        game(1, "2026-01-02", Result_::Loss, &["Atraxa"]),
        game(1, "2026-01-03", Result_::Loss, &["Atraxa"]),
        game(1, "2026-01-04", Result_::Win, &["Burn"]),
        game(1, "2026-01-05", Result_::Win, &["Burn"]),
    ];
    let table = tally_by_archetype(&games);
    assert_eq!(table.len(), 2);
    assert_eq!(table[0].0, "Atraxa");
    assert_eq!(table[0].1, Tally { wins: 0, losses: 3, draws: 0 });
    assert_eq!(table[1].0, "Burn");
    assert_eq!(table[1].1, Tally { wins: 2, losses: 0, draws: 0 });
}

#[test]
fn every_opponent_at_a_table_gets_the_result() {
    let games = vec![game(1, "2026-01-01", Result_::Win, &["Atraxa", "Krenko", "Edgar"])];
    let table = tally_by_archetype(&games);
    let labels: Vec<&str> = table.iter().map(|(label, _)| label.as_str()).collect();
    assert_eq!(labels, ["Atraxa", "Edgar", "Krenko"]);
    assert!(table.iter().all(|(_, t)| t.wins == 1 && t.games() == 1));
}

#[test]
fn unlabelled_opponents_are_left_out_and_labels_are_trimmed() {
    let games = vec![
        game(1, "2026-01-01", Result_::Win, &["  "]),
        game(1, "2026-01-02", Result_::Win, &["Burn"]),
        game(1, "2026-01-03", Result_::Draw, &[" Burn "]),
    ];
    let table = tally_by_archetype(&games);
    assert_eq!(table.len(), 1);
    assert_eq!(table[0].0, "Burn");
    assert_eq!(table[0].1, Tally { wins: 1, losses: 0, draws: 1 });
}

#[test]
fn the_date_of_a_change_belongs_to_the_after() {
    let games = vec![
        game(1, "2026-01-01", Result_::Loss, &[]),
        game(1, "2026-01-02", Result_::Loss, &[]),
        game(1, "2026-06-01", Result_::Win, &[]),
        game(1, "2026-06-02", Result_::Win, &[]),
    ];
    let (before, after) = split_by_date(&games, "2026-06-01");
    assert_eq!(before, Tally { wins: 0, losses: 2, draws: 0 });
    assert_eq!(after, Tally { wins: 2, losses: 0, draws: 0 });
}

#[test]
fn splitting_at_a_date_loses_no_game() {
    let games = vec![
        game(1, "2026-01-01", Result_::Loss, &[]),
        game(1, "2026-06-01", Result_::Win, &[]),
        game(1, "2026-03-01", Result_::Draw, &[]),
        game(1, "2026-07-01", Result_::Loss, &[]),
    ];
    let (before, after) = split_by_date(&games, "2026-05-01");
    let all: Vec<Result_> = games.iter().map(|g| g.result).collect();
    let whole = tally(&all);
    assert_eq!(before.wins + after.wins, whole.wins);
    assert_eq!(before.losses + after.losses, whole.losses);
    assert_eq!(before.draws + after.draws, whole.draws);
    assert_eq!(before, Tally { wins: 0, losses: 1, draws: 1 });
}
