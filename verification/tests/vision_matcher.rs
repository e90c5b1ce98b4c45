use mtg::vision::hash::{ArtHash, HASH_BYTES};
use mtg::vision::matcher::{ArtDatabase, ArtEntry};

fn hash_of(bits: &[usize]) -> ArtHash {
    let mut bytes = [0u8; HASH_BYTES];
    for bit in bits {
        bytes[bit / 8] |= 1 << (bit % 8);
    }
    ArtHash(bytes)
}

fn entry(name: &str, oracle: &str, printing: &str, bits: &[usize]) -> ArtEntry {
    ArtEntry {
        hash: hash_of(bits),
        printing_id: printing.to_owned(),
        oracle_id: oracle.to_owned(),
        name: name.to_owned(),
    }
}

fn database() -> ArtDatabase {
    ArtDatabase::new(vec![
        entry("Forest", "o-forest", "p-forest-1", &(0..40).collect::<Vec<_>>()),
        entry("Island", "o-island", "p-island-1", &(80..130).collect::<Vec<_>>()),
        entry("Mountain", "o-mountain", "p-mountain-1", &(160..210).collect::<Vec<_>>()),
    ])
}

#[test]
fn an_exact_hash_matches_its_card() {
    let db = database();
    let found = db.best_match(&hash_of(&(0..40).collect::<Vec<_>>())).expect("match");
    assert_eq!(found.name, "Forest");
    assert_eq!(found.distance, 0);
}

#[test]
fn a_slightly_noisy_hash_still_matches() {
    let db = database();
    let mut bits: Vec<usize> = (0..40).collect();
    bits.extend([250, 251, 252, 253, 254]);

    let found = db.best_match(&hash_of(&bits)).expect("match");
    assert_eq!(found.name, "Forest");
    assert_eq!(found.distance, 5);
}

#[test]
fn a_hash_that_matches_nothing_returns_nothing() {
    let db = database();
    assert!(db.best_match(&hash_of(&(200..256).collect::<Vec<_>>())).is_none());
}

#[test]
fn an_ambiguous_hash_is_refused_rather_than_guessed() {
    let db = ArtDatabase::new(vec![entry("A", "o-a", "p-a", &[0, 1, 2, 3]), entry("B", "o-b", "p-b", &[4, 5, 6, 7])]);
    assert!(db.best_match(&hash_of(&[0, 1, 4, 5])).is_none());
}

#[test]
fn two_printings_of_the_same_art_do_not_block_each_other() {
    let db = ArtDatabase::new(vec![
        entry("Sol Ring", "o-sol", "p-sol-a", &[0, 1, 2, 3]),
        entry("Sol Ring", "o-sol", "p-sol-b", &[0, 1, 2, 3]),
        entry("Island", "o-island", "p-island", &(100..150).collect::<Vec<_>>()),
    ]);

    let found = db.best_match(&hash_of(&[0, 1, 2, 3])).expect("match");
    assert_eq!(found.oracle_id, "o-sol");
}

#[test]
fn every_printing_of_a_card_can_be_listed() {
    let db = ArtDatabase::new(vec![
        entry("Sol Ring", "o-sol", "p-sol-a", &[0]),
        entry("Sol Ring", "o-sol", "p-sol-b", &[0]),
        entry("Island", "o-island", "p-island", &[100]),
    ]);

    let printings = db.printings_of("o-sol");
    assert_eq!(printings.len(), 2);
    assert!(db.printings_of("o-nothing").is_empty());
}

#[test]
fn the_verdict_does_not_depend_on_the_order_of_the_database() {
    let sol_a = entry("Sol Ring", "o-sol", "p-sol-a", &[0, 1, 2, 3]);
    let sol_b = entry("Sol Ring", "o-sol", "p-sol-b", &[0, 1, 2, 3, 4, 5]);
    let mut rival_bits: Vec<usize> = vec![0, 1, 2, 3];
    rival_bits.extend(100..110);
    let rival = entry("Mox", "o-mox", "p-mox", &rival_bits);
    let query = hash_of(&[0, 1, 2, 3]);

    let orderings = [
        vec![sol_a.clone(), sol_b.clone(), rival.clone()],
        vec![rival.clone(), sol_a.clone(), sol_b.clone()],
        vec![sol_b.clone(), rival.clone(), sol_a.clone()],
        vec![rival.clone(), sol_b.clone(), sol_a.clone()],
    ];

    for entries in orderings {
        let found = ArtDatabase::new(entries).best_match(&query).expect("match");
        assert_eq!(found.oracle_id, "o-sol");
        assert_eq!(found.distance, 0);
        assert_eq!(found.margin, 10, "the runner-up should be the Mox, whatever the order");
    }
}

#[test]
fn a_lone_card_is_named_without_a_rival_to_compare_against() {
    let db = ArtDatabase::new(vec![
        entry("Sol Ring", "o-sol", "p-sol-a", &[0, 1, 2, 3]),
        entry("Sol Ring", "o-sol", "p-sol-b", &[0, 1, 2, 3]),
    ]);
    let found = db.best_match(&hash_of(&[0, 1, 2, 3])).expect("match");
    assert_eq!(found.oracle_id, "o-sol");
}

#[test]
fn an_empty_database_matches_nothing_without_complaining() {
    let db = ArtDatabase::default();
    assert!(db.is_empty());
    assert!(db.best_match(&hash_of(&[1, 2, 3])).is_none());
}

#[test]
fn the_thresholds_can_be_tightened_or_loosened() {
    let db = database();
    let mut bits: Vec<usize> = (0..40).collect();
    bits.extend(240..250);

    assert!(db.best_match_with(&hash_of(&bits), 28, 8).is_some());
    assert!(db.best_match_with(&hash_of(&bits), 5, 8).is_none());
}

#[test]
fn a_match_reports_how_certain_it_was() {
    let db = database();
    let found = db.best_match(&hash_of(&(0..40).collect::<Vec<_>>())).expect("match");
    assert!(found.margin > 0, "the runner-up should be measurably worse");
}

#[test]
fn a_lone_card_reports_the_whole_width_of_a_hash_as_its_margin() {
    let db = ArtDatabase::new(vec![entry("Sol Ring", "o-sol", "p-sol-a", &[0, 1])]);
    let found = db.best_match(&hash_of(&[0])).expect("match");
    assert_eq!(found.distance, 1);
    assert_eq!(found.margin, 256);
    assert_eq!(found.printing_id, "p-sol-a");
    assert_eq!(db.len(), 1);
    assert_eq!(db.entries()[0].name, "Sol Ring");
}
