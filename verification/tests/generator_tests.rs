use sqlite_perf::digits::{decimal_string_i32, decimal_string_u64};
use sqlite_perf::generator::{
    create_all_update_users, create_all_users, create_update_users, get_all_data_count, Config,
};

#[test]
fn decimal_renders_zero() {
    assert_eq!(decimal_string_u64(0), "0");
}

#[test]
fn decimal_renders_large_value() {
    assert_eq!(decimal_string_u64(18446744073709551615), "18446744073709551615");
}

#[test]
fn decimal_renders_negative_value() {
    assert_eq!(decimal_string_i32(-123), "-123");
    assert_eq!(decimal_string_i32(-2147483648), "-2147483648");
    assert_eq!(decimal_string_i32(2147483647), "2147483647");
}

#[test]
fn generate_counts_and_contiguous_ids() {
    let batch = create_update_users(10, 7, "sfx");
    assert_eq!(batch.len(), 7);
    for (k, rec) in batch.iter().enumerate() {
        assert_eq!(rec.id, 10 + k as i32);
    }
}

#[test]
fn generate_zero_count_is_empty() {
    let batch = create_update_users(5, 0, "sfx");
    assert_eq!(batch.len(), 0);
}

#[test]
fn generate_negative_start() {
    let batch = create_update_users(-2, 3, "");
    assert_eq!(batch.len(), 3);
    assert_eq!(batch[0].id, -2);
    assert_eq!(batch[0].name, "name-2");
    assert_eq!(batch[2].id, 0);
    assert_eq!(batch[2].name, "name0");
}

#[test]
fn generate_one_to_five() {
    let batch = create_update_users(1, 5, "");
    assert_eq!(batch.len(), 5);
    for k in 0..5usize {
        let id = (k + 1) as i32;
        assert_eq!(batch[k].id, id);
        assert_eq!(batch[k].name, format!("name{}", id));
        assert_eq!(batch[k].email, format!("name{}@github.com", id));
    }
}

#[test]
fn generate_applies_suffix() {
    let batch = create_update_users(3, 1, "update1");
    assert_eq!(batch[0].name, "name3update1");
    assert_eq!(batch[0].email, "name3update1@github.com");
}

#[test]
fn all_data_count_multiplies() {
    let cfg = Config { batch_count: 2, repeat_count: 3 };
    assert_eq!(get_all_data_count(&cfg), 6);
}

#[test]
fn all_users_cover_the_range() {
    let cfg = Config { batch_count: 2, repeat_count: 3 };
    let all = create_all_users(&cfg);
    assert_eq!(all.len(), 3);
    for (b, batch) in all.iter().enumerate() {
        assert_eq!(batch.len(), 2);
        for (k, rec) in batch.iter().enumerate() {
            let id = (b * 2 + 1 + k) as i32;
            assert_eq!(rec.id, id);
            assert_eq!(rec.name, format!("name{}update1", id));
        }
    }
}

#[test]
fn overflow_split_shifts_upper_half_ids_only() {
    let cfg = Config { batch_count: 2, repeat_count: 3 };
    let all = create_all_update_users(&cfg);
    assert_eq!(all.len(), 3);
    // Odd original ids sit in the upper half of each two-slot batch and are
    // shifted by the total of six; names keep the original id.
    assert_eq!(all[0][0].id, 7);
    assert_eq!(all[0][0].name, "name1update2");
    assert_eq!(all[0][1].id, 2);
    assert_eq!(all[0][1].name, "name2update2");
    assert_eq!(all[1][0].id, 9);
    assert_eq!(all[1][1].id, 4);
    assert_eq!(all[2][0].id, 11);
    assert_eq!(all[2][1].id, 6);
}
