use sqlite_perf::generator::create_update_users;
use sqlite_perf::record::Record;
use sqlite_perf::store::{Store, StoreError};

fn record(id: i32, name: &str, email: &str) -> Record {
    Record { id, name: name.to_string(), email: email.to_string() }
}

#[test]
fn new_store_is_empty() {
    let store = Store::new();
    assert_eq!(store.len(), 0);
    assert!(!store.contains_id(1));
    assert!(store.get(1).is_none());
}

#[test]
fn upsert_inserts_then_overwrites() {
    let mut store = Store::new();
    store.upsert(&record(1, "a", "a@x"));
    assert_eq!(store.len(), 1);
    assert_eq!(store.get(1).unwrap().name, "a");
    store.upsert(&record(1, "b", "b@x"));
    assert_eq!(store.len(), 1);
    assert_eq!(store.get(1).unwrap().name, "b");
    assert_eq!(store.get(1).unwrap().email, "b@x");
}

#[test]
fn conditional_update_ignores_absent_id() {
    let mut store = Store::new();
    store.upsert(&record(1, "a", "a@x"));
    store.conditional_update(&record(2, "b", "b@x"));
    assert_eq!(store.len(), 1);
    assert!(!store.contains_id(2));
    store.conditional_update(&record(1, "c", "c@x"));
    assert_eq!(store.get(1).unwrap().name, "c");
}

#[test]
fn bulk_replace_upserts_whole_batch() {
    let mut store = Store::new();
    store.upsert(&record(1, "old", "old@x"));
    let batch = vec![record(1, "n1", "n1@x"), record(2, "n2", "n2@x")];
    store.bulk_replace(&batch);
    assert_eq!(store.len(), 2);
    assert_eq!(store.get(1).unwrap().name, "n1");
    assert_eq!(store.get(2).unwrap().name, "n2");
}

#[test]
fn bulk_replace_twice_equals_once() {
    let batch = create_update_users(1, 5, "z");
    let mut once = Store::new();
    once.upsert(&record(3, "prior", "prior@x"));
    once.upsert(&record(9, "outside", "outside@x"));
    let mut twice = Store::new();
    twice.upsert(&record(3, "prior", "prior@x"));
    twice.upsert(&record(9, "outside", "outside@x"));
    once.bulk_replace(&batch);
    twice.bulk_replace(&batch);
    twice.bulk_replace(&batch);
    assert_eq!(once.len(), twice.len());
    for id in [1, 2, 3, 4, 5, 9] {
        let a = once.get(id).unwrap();
        let b = twice.get(id).unwrap();
        assert_eq!(a.id, b.id);
        assert_eq!(a.name, b.name);
        assert_eq!(a.email, b.email);
    }
}

#[test]
fn batch_insert_appends_fresh_rows() {
    let mut store = Store::new();
    store.upsert(&record(10, "kept", "kept@x"));
    let batch = vec![record(1, "n1", "n1@x"), record(2, "n2", "n2@x")];
    assert_eq!(store.batch_insert(&batch), Ok(()));
    assert_eq!(store.len(), 3);
    assert_eq!(store.get(1).unwrap().name, "n1");
}

#[test]
fn batch_insert_refuses_existing_id() {
    let mut store = Store::new();
    store.upsert(&record(2, "old", "old@x"));
    let batch = vec![record(1, "n1", "n1@x"), record(2, "n2", "n2@x")];
    assert_eq!(store.batch_insert(&batch), Err(StoreError::WriteError));
    assert_eq!(store.len(), 1);
    assert!(!store.contains_id(1));
    assert_eq!(store.get(2).unwrap().name, "old");
}

#[test]
fn batch_insert_refuses_repeated_id() {
    let mut store = Store::new();
    let batch = vec![record(1, "n1", "n1@x"), record(1, "n2", "n2@x")];
    assert_eq!(store.batch_insert(&batch), Err(StoreError::WriteError));
    assert_eq!(store.len(), 0);
}

#[test]
fn find_existing_returns_present_subset() {
    let mut store = Store::new();
    store.bulk_replace(&create_update_users(1, 5, ""));
    let asked = vec![3, 4, 5, 6, 7, 8];
    let found = store.find_existing(&asked);
    assert_eq!(found, vec![3, 4, 5]);
}

#[test]
fn transaction_applies_all_updates() {
    let mut store = Store::new();
    store.bulk_replace(&create_update_users(1, 5, ""));
    let updates = create_update_users(1, 5, "tx");
    assert_eq!(store.run_in_transaction(&updates, None), Ok(()));
    for id in 1..=5 {
        assert_eq!(store.get(id).unwrap().name, format!("name{}tx", id));
    }
}

#[test]
fn transaction_failure_rolls_back_everything() {
    let mut store = Store::new();
    store.bulk_replace(&create_update_users(1, 5, ""));
    let updates = create_update_users(1, 5, "tx");
    // The engine rejects the third of the five queued updates.
    let outcome = store.run_in_transaction(&updates, Some(2));
    assert_eq!(outcome, Err(StoreError::TransactionError));
    for id in 1..=5 {
        assert_eq!(store.get(id).unwrap().name, format!("name{}", id));
    }
}

#[test]
fn transaction_with_empty_queue_succeeds() {
    let mut store = Store::new();
    store.upsert(&record(1, "a", "a@x"));
    let updates: Vec<Record> = Vec::new();
    assert_eq!(store.run_in_transaction(&updates, None), Ok(()));
    assert_eq!(store.run_in_transaction(&updates, Some(0)), Ok(()));
    assert_eq!(store.len(), 1);
}

#[test]
fn delete_all_clears_the_table() {
    let mut store = Store::new();
    store.bulk_replace(&create_update_users(1, 4, ""));
    store.delete_all();
    assert_eq!(store.len(), 0);
}
