use sqlite_perf::driver::{
    new_replace_into_test, replace_into_test, reset_data, run_config, select_create_update_test,
    update_test, update_transaction_test,
};
use sqlite_perf::generator::Config;
use sqlite_perf::store::Store;
use sqlite_perf::timing::{report_line, TimeRecorder};

#[test]
fn reset_creates_the_baseline_rows() {
    let mut store = Store::new();
    let cfg = Config { batch_count: 2, repeat_count: 3 };
    reset_data(&mut store, &cfg);
    assert_eq!(store.len(), 6);
    for id in 1..=6 {
        assert_eq!(store.get(id).unwrap().name, format!("name{}", id));
        assert_eq!(store.get(id).unwrap().email, format!("name{}@github.com", id));
    }
}

#[test]
fn replace_into_overwrites_every_row() {
    let mut store = Store::new();
    let cfg = Config { batch_count: 2, repeat_count: 3 };
    replace_into_test(&mut store, &cfg);
    assert_eq!(store.len(), 6);
    for id in 1..=6 {
        assert_eq!(store.get(id).unwrap().name, format!("name{}update1", id));
    }
}

#[test]
fn update_strategies_match_replace_into() {
    let cfg = Config { batch_count: 3, repeat_count: 2 };
    let mut a = Store::new();
    let mut b = Store::new();
    let mut c = Store::new();
    replace_into_test(&mut a, &cfg);
    update_test(&mut b, &cfg);
    update_transaction_test(&mut c, &cfg);
    assert_eq!(a.len(), 6);
    assert_eq!(b.len(), 6);
    assert_eq!(c.len(), 6);
    for id in 1..=6 {
        let expect = format!("name{}update1", id);
        assert_eq!(a.get(id).unwrap().name, expect);
        assert_eq!(b.get(id).unwrap().name, expect);
        assert_eq!(c.get(id).unwrap().name, expect);
    }
}

#[test]
fn overflow_split_run_end_to_end() {
    let mut store = Store::new();
    let cfg = Config { batch_count: 2, repeat_count: 3 };
    select_create_update_test(&mut store, &cfg);
    // Even baseline ids were updated in place; odd ids were shifted past
    // the range, so their baseline rows remain and shifted copies appear.
    assert_eq!(store.len(), 9);
    let mut suffixed: usize = 0;
    for id in [2, 4, 6] {
        assert_eq!(store.get(id).unwrap().name, format!("name{}update2", id));
    }
    for (id, original) in [(7, 1), (9, 3), (11, 5)] {
        let row = store.get(id).unwrap();
        assert_eq!(row.id, id);
        assert_eq!(row.name, format!("name{}update2", original));
        assert_eq!(row.email, format!("name{}update2@github.com", original));
    }
    for id in [1, 3, 5] {
        assert_eq!(store.get(id).unwrap().name, format!("name{}", id));
    }
    for id in 1..=12 {
        if let Some(row) = store.get(id) {
            if row.name.ends_with("update2") {
                suffixed += 1;
            }
        }
    }
    assert_eq!(suffixed, 6);
}

#[test]
fn upsert_only_split_run_matches_diff_then_apply() {
    let cfg = Config { batch_count: 2, repeat_count: 3 };
    let mut a = Store::new();
    let mut b = Store::new();
    new_replace_into_test(&mut a, &cfg);
    select_create_update_test(&mut b, &cfg);
    assert_eq!(a.len(), b.len());
    for id in 1..=12 {
        match (a.get(id), b.get(id)) {
            (Some(x), Some(y)) => {
                assert_eq!(x.name, y.name);
                assert_eq!(x.email, y.email);
            }
            (None, None) => {}
            _ => panic!("stores disagree on id {}", id),
        }
    }
}

#[test]
fn run_config_ends_with_the_split_table() {
    let mut store = Store::new();
    let cfg = Config { batch_count: 2, repeat_count: 3 };
    run_config(&mut store, &cfg);
    assert_eq!(store.len(), 9);
    assert_eq!(store.get(2).unwrap().name, "name2update2");
    assert_eq!(store.get(7).unwrap().name, "name1update2");
    assert_eq!(store.get(1).unwrap().name, "name1");
}

#[test]
fn report_line_formats_the_timing_message() {
    assert_eq!(report_line("replace into", 42), "replace into cost time: 42 ms");
    assert_eq!(report_line("update", 0), "update cost time: 0 ms");
}

#[test]
fn time_recorder_release_message_carries_the_label() {
    let recorder = TimeRecorder::new("select create update");
    let line = recorder.release_message();
    assert!(line.starts_with("select create update cost time: "));
    assert!(line.ends_with(" ms"));
}
