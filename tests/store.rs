use indexer::event::{DomainEvent, Status};
use indexer::store::{Store, StoreError, WriteOutcome};
use indexer::types::{ContractAddress, EventKey, Sha256};

const A: ContractAddress = ContractAddress { index: 7, subindex: 0 };
const B: ContractAddress = ContractAddress { index: 8, subindex: 0 };

fn key(height: u64, tx: u8, index: u64) -> EventKey {
    EventKey { block_height: height, transaction_hash: Sha256([tx; 32]), event_index: index }
}

fn status_event(item_id: u64) -> DomainEvent {
    DomainEvent::ItemStatusChanged { item_id, new_status: Status::InStore, additional_data: vec![1, 2] }
}

fn latest(store: &Store) -> Option<(u64, [u8; 32], u64)> {
    store
        .checkpoint()
        .and_then(|c| c.latest)
        .map(|k| (k.block_height, k.transaction_hash.0, k.event_index))
}

fn snapshot(store: &Store) -> String {
    format!("{:?}", store)
}

#[test]
fn init_creates_settings_once() {
    let mut store = Store::new();
    assert!(store.checkpoint().is_none());
    let c = store.init(A, 10);
    assert_eq!(c.contract_address, A);
    assert_eq!(c.start_height, 10);
    assert!(c.latest.is_none());
    let again = store.init(B, 99);
    assert_eq!(again.contract_address, A);
    assert_eq!(again.start_height, 10);
    assert_eq!(store.checkpoint().unwrap().contract_address, A);
}

#[test]
fn get_before_init_is_not_initialized() {
    let store = Store::new();
    assert_eq!(store.get(A).unwrap_err(), StoreError::NotInitialized);
}

#[test]
fn get_with_other_contract_is_mismatch() {
    let mut store = Store::new();
    store.init(A, 0);
    assert_eq!(store.get(B).unwrap_err(), StoreError::ContractMismatch { stored: A, configured: B });
    assert_eq!(store.get(A).unwrap().contract_address, A);
}

#[test]
fn insert_before_init_is_refused() {
    let mut store = Store::new();
    assert_eq!(store.insert_event(key(1, 1, 0), status_event(0)), Err(StoreError::NotInitialized));
    assert_eq!(store.row_count(), 0);
}

#[test]
fn insert_stores_row_and_moves_checkpoint() {
    let mut store = Store::new();
    store.init(A, 0);
    assert_eq!(store.insert_event(key(3, 1, 0), status_event(5)), Ok(WriteOutcome::Inserted));
    assert_eq!(store.row_count(), 1);
    assert!(store.contains(&key(3, 1, 0)));
    assert!(!store.contains(&key(3, 1, 1)));
    assert_eq!(store.row(0).key, key(3, 1, 0));
    assert_eq!(latest(&store), Some((3, [1; 32], 0)));
}

#[test]
fn inserting_twice_equals_inserting_once() {
    let mut once = Store::new();
    once.init(A, 0);
    once.insert_event(key(3, 1, 0), status_event(5)).unwrap();

    let mut twice = Store::new();
    twice.init(A, 0);
    twice.insert_event(key(3, 1, 0), status_event(5)).unwrap();
    assert_eq!(twice.insert_event(key(3, 1, 0), status_event(5)), Ok(WriteOutcome::Duplicate));
    assert_eq!(snapshot(&once), snapshot(&twice));
    assert_eq!(twice.row_count(), 1);
}

#[test]
fn duplicate_key_leaves_checkpoint_alone() {
    let mut store = Store::new();
    store.init(A, 0);
    store.insert_event(key(3, 1, 0), status_event(5)).unwrap();
    store.insert_event(key(4, 2, 0), status_event(6)).unwrap();
    assert_eq!(store.insert_event(key(3, 1, 0), status_event(5)), Ok(WriteOutcome::Duplicate));
    assert_eq!(latest(&store), Some((4, [2; 32], 0)));
    assert_eq!(store.row_count(), 2);
}

#[test]
fn fault_after_checkpoint_advance_leaves_nothing() {
    let mut store = Store::new();
    store.init(A, 0);
    let before = snapshot(&store);
    let mut tx = store.begin();
    tx.set_latest_checkpoint(key(9, 9, 0));
    drop(tx);
    assert_eq!(snapshot(&store), before);
    assert!(latest(&store).is_none());
    assert_eq!(store.row_count(), 0);
}

#[test]
fn commit_without_insert_is_refused() {
    let mut store = Store::new();
    store.init(A, 0);
    let before = snapshot(&store);
    let mut tx = store.begin();
    tx.set_latest_checkpoint(key(9, 9, 0));
    assert_eq!(store.commit(tx), Err(StoreError::IncompleteTransaction));
    assert_eq!(snapshot(&store), before);
}

#[test]
fn commit_without_checkpoint_is_refused() {
    let mut store = Store::new();
    store.init(A, 0);
    let mut tx = store.begin();
    tx.insert_event(key(9, 9, 0), status_event(1));
    assert_eq!(store.commit(tx), Err(StoreError::IncompleteTransaction));
    assert_eq!(store.row_count(), 0);
    assert!(latest(&store).is_none());
}

#[test]
fn commit_with_mismatched_keys_is_refused() {
    let mut store = Store::new();
    store.init(A, 0);
    let mut tx = store.begin();
    tx.set_latest_checkpoint(key(9, 9, 1));
    tx.insert_event(key(9, 9, 0), status_event(1));
    assert_eq!(store.commit(tx), Err(StoreError::IncompleteTransaction));
    assert_eq!(store.row_count(), 0);
}

#[test]
fn complete_commit_persists_both() {
    let mut store = Store::new();
    store.init(A, 0);
    let mut tx = store.begin();
    tx.set_latest_checkpoint(key(9, 9, 0));
    tx.insert_event(key(9, 9, 0), status_event(1));
    assert_eq!(store.commit(tx), Ok(WriteOutcome::Inserted));
    assert_eq!(store.row_count(), 1);
    assert_eq!(latest(&store), Some((9, [9; 32], 0)));
}

#[test]
fn checkpoints_never_decrease_along_ordered_writes() {
    let mut store = Store::new();
    store.init(A, 0);
    let writes = [key(1, 1, 0), key(1, 1, 1), key(2, 2, 0), key(1, 1, 1), key(5, 3, 0), key(5, 3, 2)];
    let mut previous = (0u64, 0u64);
    for k in writes.iter() {
        store.insert_event(*k, status_event(0)).unwrap();
        let (h, _, i) = latest(&store).unwrap();
        assert!((h, i) >= previous);
        previous = (h, i);
    }
    assert_eq!(previous, (5, 2));
    assert_eq!(store.row_count(), 5);
}
