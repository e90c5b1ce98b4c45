use mtg::collection::model::{CollectionError, Condition, Finish, HoldingId, NewHolding, Pool, StorageLocation};
use mtg::collection::store::CollectionStore;

fn store() -> CollectionStore {
    CollectionStore::new()
}

fn sol_ring() -> NewHolding {
    NewHolding::single(Pool::Physical, "oracle-sol-ring", "Sol Ring")
}

fn added(store: &mut CollectionStore, new: NewHolding) -> HoldingId {
    match store.add(new) {
        Ok(id) => id,
        Err(e) => panic!("{}", e.to_string()),
    }
}

#[test]
fn add_and_read_back() {
    let mut store = store();
    let id = added(&mut store, sol_ring().quantity(2));

    let holding = store.get(id).unwrap();
    assert_eq!(holding.name, "Sol Ring");
    assert_eq!(holding.quantity, 2);
    assert_eq!(holding.pool, Pool::Physical);
}

#[test]
fn identical_copies_merge_into_one_holding() {
    let mut store = store();
    let first = added(&mut store, sol_ring());
    for _ in 0..3 {
        assert_eq!(added(&mut store, sol_ring()), first);
    }

    assert_eq!(store.list(None).len(), 1);
    assert_eq!(store.get(first).unwrap().quantity, 4);
}

#[test]
fn copies_that_differ_stay_separate() {
    let mut store = store();
    added(&mut store, sol_ring());
    added(&mut store, sol_ring().finish(Finish::Foil));
    added(&mut store, sol_ring().condition(Condition::HeavilyPlayed));
    added(&mut store, sol_ring().language("fr"));
    added(&mut store, sol_ring().printing("2xm", "263"));
    added(&mut store, sol_ring().at(StorageLocation::new("Binder 3")));

    assert_eq!(store.list(None).len(), 6);
    assert_eq!(store.owned_quantity(None, "oracle-sol-ring"), 6);
}

#[test]
fn pools_are_independent() {
    let mut store = store();
    added(&mut store, sol_ring().quantity(2));
    added(&mut store, NewHolding::single(Pool::Digital, "oracle-sol-ring", "Sol Ring").quantity(5));

    assert_eq!(store.owned_quantity(Some(Pool::Physical), "oracle-sol-ring"), 2);
    assert_eq!(store.owned_quantity(Some(Pool::Digital), "oracle-sol-ring"), 5);
    assert_eq!(store.owned_quantity(None, "oracle-sol-ring"), 7);
}

#[test]
fn quantity_can_be_changed_and_zero_removes() {
    let mut store = store();
    let id = added(&mut store, sol_ring().quantity(4));

    assert!(store.set_quantity(id, 2).is_ok());
    assert_eq!(store.get(id).unwrap().quantity, 2);

    assert!(store.set_quantity(id, 0).is_ok());
    assert!(store.get(id).is_none());
    assert!(store.list(None).is_empty());
}

#[test]
fn removing_a_holding_frees_its_merge_key() {
    let mut store = store();
    let first = added(&mut store, sol_ring());
    assert!(store.remove(first));

    let second = added(&mut store, sol_ring());
    assert_ne!(first, second);
    assert_eq!(store.list(None).len(), 1);
    assert_eq!(store.get(second).unwrap().quantity, 1);
}

#[test]
fn editing_a_holding_moves_it_in_the_merge_index() {
    let mut store = store();
    let id = added(&mut store, sol_ring());

    let mut holding = store.get(id).unwrap().duplicate();
    holding.finish = Finish::Foil;
    assert!(store.replace(holding).is_ok());

    let other = added(&mut store, sol_ring());
    assert_ne!(other, id);
    assert_eq!(store.list(None).len(), 2);
}

#[test]
fn adding_zero_copies_is_rejected() {
    let mut store = store();
    assert!(matches!(store.add(sol_ring().quantity(0)), Err(CollectionError::ZeroQuantity)));
}

#[test]
fn quantities_of_a_missing_holding_report_not_found() {
    let mut store = store();
    assert!(matches!(store.set_quantity(HoldingId(999), 1), Err(CollectionError::NotFound(_))));
    assert!(!store.remove(HoldingId(999)));
}

#[test]
fn owned_quantities_aggregates_every_card_in_one_pass() {
    let mut store = store();
    added(&mut store, sol_ring().quantity(2));
    added(&mut store, sol_ring().finish(Finish::Foil));
    added(&mut store, NewHolding::single(Pool::Physical, "oracle-counterspell", "Counterspell").quantity(4));

    let totals = store.owned_quantities(Some(Pool::Physical));
    let get = |key: &str| totals.iter().find(|(k, _)| k == key).map(|(_, v)| *v);
    assert_eq!(get("oracle-sol-ring"), Some(3));
    assert_eq!(get("oracle-counterspell"), Some(4));
    assert_eq!(totals.len(), 2);
}

#[test]
fn containers_are_listed_once_and_sorted() {
    let mut store = store();
    added(&mut store, sol_ring().at(StorageLocation::new("Binder 3").with_slot(1)));
    added(&mut store, sol_ring().at(StorageLocation::new("Binder 3").with_slot(2)));
    added(&mut store, sol_ring().at(StorageLocation::new("Box A")));
    added(&mut store, sol_ring());

    assert_eq!(store.containers(), ["Binder 3", "Box A"]);
}

#[test]
fn stats_count_stacks_cards_and_copies_separately() {
    let mut store = store();
    added(&mut store, sol_ring().quantity(2));
    added(&mut store, sol_ring().finish(Finish::Foil));
    added(&mut store, NewHolding::single(Pool::Physical, "oracle-counterspell", "Counterspell").quantity(4));

    let stats = store.stats(Some(Pool::Physical));
    assert_eq!(stats.holdings, 3);
    assert_eq!(stats.distinct_cards, 2);
    assert_eq!(stats.total_copies, 7);
}

#[test]
fn data_survives_being_written_out_and_restored() {
    // What the application does between sessions: the rows, the merge index and the next id
    // go to disk and come back.
    let mut store = store();
    let id = added(&mut store, sol_ring().quantity(3));
    let rows: Vec<_> = store.holdings().iter().map(|h| h.duplicate()).collect();
    let index: Vec<(String, u64)> = store.index().to_vec();
    let next = store.next_id();

    let mut store = CollectionStore::restore(rows, index, next).expect("consistent");
    assert_eq!(store.get(id).unwrap().quantity, 3);

    let other = added(&mut store, NewHolding::single(Pool::Physical, "oracle-other", "Other"));
    assert!(other.0 > id.0);
}

#[test]
fn holdings_of_one_card_are_found_together() {
    let mut store = store();
    added(&mut store, sol_ring());
    added(&mut store, sol_ring().finish(Finish::Foil));
    added(&mut store, NewHolding::single(Pool::Physical, "oracle-counterspell", "Counterspell"));
    assert_eq!(store.by_oracle_id(None, "oracle-sol-ring").len(), 2);
    assert_eq!(store.by_oracle_id(Some(Pool::Digital), "oracle-sol-ring").len(), 0);
}

#[test]
fn locations_that_read_alike_are_still_different_places() {
    let mut store = store();
    let loose = added(&mut store, sol_ring());
    let unnamed = added(&mut store, sol_ring().at(StorageLocation::new("")));
    let comma = added(&mut store, sol_ring().at(StorageLocation::new("A, b")));
    let section = added(&mut store, sol_ring().at(StorageLocation::new("A").with_section("b")));
    assert_ne!(loose, unnamed);
    assert_ne!(comma, section);
    assert_eq!(store.list(None).len(), 4);
    assert_eq!(added(&mut store, sol_ring().at(StorageLocation::new("A").with_section("b"))), section);
    assert_eq!(store.get(section).unwrap().quantity, 2);
}
