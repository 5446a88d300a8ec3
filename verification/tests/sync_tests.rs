use sqlite_perf::generator::create_update_users;
use sqlite_perf::record::Record;
use sqlite_perf::store::Store;
use sqlite_perf::sync::{extract_ids, ids_contain, partition_by_existence, synchronize};

#[test]
fn extract_ids_in_batch_order() {
    let batch = create_update_users(4, 3, "");
    assert_eq!(extract_ids(&batch), vec![4, 5, 6]);
}

#[test]
fn ids_contain_finds_members_only() {
    let ids = vec![3, 7, 11];
    assert!(ids_contain(&ids, 7));
    assert!(!ids_contain(&ids, 4));
}

#[test]
fn partition_keeps_order_within_each_half() {
    let batch = create_update_users(1, 6, "");
    let exist = vec![2, 3, 5];
    let (to_update, to_insert) = partition_by_existence(&batch, &exist);
    assert_eq!(extract_ids(&to_update), vec![2, 3, 5]);
    assert_eq!(extract_ids(&to_insert), vec![1, 4, 6]);
}

#[test]
fn diff_then_apply_routes_inserts_and_updates() {
    let mut store = Store::new();
    store.bulk_replace(&create_update_users(1, 5, "old"));
    let batch = create_update_users(3, 6, "new");
    let asked = extract_ids(&batch);
    assert_eq!(asked, vec![3, 4, 5, 6, 7, 8]);
    assert_eq!(store.find_existing(&asked), vec![3, 4, 5]);
    let report = synchronize(&mut store, &batch, None).unwrap();
    assert_eq!(report.updated, 3);
    assert_eq!(report.inserted, 3);
    assert_eq!(store.len(), 8);
    for id in 1..=2 {
        assert_eq!(store.get(id).unwrap().name, format!("name{}old", id));
    }
    for id in 3..=8 {
        assert_eq!(store.get(id).unwrap().name, format!("name{}new", id));
        assert_eq!(store.get(id).unwrap().email, format!("name{}new@github.com", id));
    }
}

#[test]
fn empty_batch_is_a_no_op() {
    let mut store = Store::new();
    store.bulk_replace(&create_update_users(1, 3, ""));
    let empty: Vec<Record> = Vec::new();
    let report = synchronize(&mut store, &empty, None).unwrap();
    assert_eq!(report.inserted, 0);
    assert_eq!(report.updated, 0);
    assert_eq!(store.len(), 3);
    for id in 1..=3 {
        assert_eq!(store.get(id).unwrap().name, format!("name{}", id));
    }
}

#[test]
fn rejected_update_half_reports_unsynchronized_rows() {
    let mut store = Store::new();
    store.bulk_replace(&create_update_users(1, 5, "old"));
    let batch = create_update_users(3, 6, "new");
    // The engine rejects the first queued update: ids 3..=5 stay rolled
    // back, while the insert half (ids 6..=8) has already landed.
    let failure = synchronize(&mut store, &batch, Some(0)).unwrap_err();
    assert_eq!(failure.unsynchronized, 3);
    assert_eq!(store.len(), 8);
    for id in 3..=5 {
        assert_eq!(store.get(id).unwrap().name, format!("name{}old", id));
    }
    for id in 6..=8 {
        assert_eq!(store.get(id).unwrap().name, format!("name{}new", id));
    }
}

#[test]
fn all_ids_absent_uses_insert_half_only() {
    let mut store = Store::new();
    let batch = create_update_users(1, 4, "");
    let report = synchronize(&mut store, &batch, None).unwrap();
    assert_eq!(report.inserted, 4);
    assert_eq!(report.updated, 0);
    assert_eq!(store.len(), 4);
}

#[test]
fn all_ids_present_uses_update_half_only() {
    let mut store = Store::new();
    store.bulk_replace(&create_update_users(1, 4, "old"));
    let batch = create_update_users(1, 4, "new");
    let report = synchronize(&mut store, &batch, None).unwrap();
    assert_eq!(report.inserted, 0);
    assert_eq!(report.updated, 4);
    assert_eq!(store.len(), 4);
    assert_eq!(store.get(2).unwrap().name, "name2new");
}
